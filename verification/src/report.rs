//! The text of the connectivity analysis report: numbers in decimal, lists as
//! `[a, b]`, and the report itself line by line.
use crate::graph::seqs_of;
use crate::utils::AnalysisResult;
use vstd::prelude::*;
use vstd::string::StringExecFns;

verus! {

/// The decimal digit `d` as a character.
pub open spec fn digit_char(d: nat) -> char {
    (48 + d) as char
}

/// The decimal representation of `n`, most significant digit first.
pub open spec fn decimal(n: nat) -> Seq<char>
    decreases n,
{
    if n < 10 {
        seq![digit_char(n)]
    } else {
        decimal(n / 10) + seq![digit_char(n % 10)]
    }
}

/// The one-character text of the digit `d`.
fn digit_text(d: usize) -> (r: &'static str)
    requires
        d < 10,
    ensures
        r@ == seq![digit_char(d as nat)],
{
    proof {
        reveal_strlit("0");
        reveal_strlit("1");
        reveal_strlit("2");
        reveal_strlit("3");
        reveal_strlit("4");
        reveal_strlit("5");
        reveal_strlit("6");
        reveal_strlit("7");
        reveal_strlit("8");
        reveal_strlit("9");
    }
    let r = if d == 0 {
        "0"
    } else if d == 1 {
        "1"
    } else if d == 2 {
        "2"
    } else if d == 3 {
        "3"
    } else if d == 4 {
        "4"
    } else if d == 5 {
        "5"
    } else if d == 6 {
        "6"
    } else if d == 7 {
        "7"
    } else if d == 8 {
        "8"
    } else {
        "9"
    };
    assert(r@ =~= seq![digit_char(d as nat)]);
    r
}

/// Appends the decimal representation of `n`.
pub fn push_decimal(s: &mut String, n: usize)
    ensures
        final(s)@ == old(s)@ + decimal(n as nat),
    decreases n,
{
    if n >= 10 {
        push_decimal(s, n / 10);
    }
    s.append(digit_text(n % 10));
    proof {
        if n >= 10 {
            assert(decimal(n as nat) == decimal((n / 10) as nat) + seq![digit_char((n % 10) as nat)]);
        }
    }
}

/// The numbers of `s` in decimal, separated by `", "`.
pub open spec fn joined_decimals(s: Seq<usize>) -> Seq<char>
    decreases s.len(),
{
    if s.len() == 0 {
        Seq::empty()
    } else if s.len() == 1 {
        decimal(s[0] as nat)
    } else {
        joined_decimals(s.drop_last()) + ", "@ + decimal(s.last() as nat)
    }
}

/// A list of numbers as `[a, b, c]`.
pub open spec fn list_text(s: Seq<usize>) -> Seq<char> {
    "["@ + joined_decimals(s) + "]"@
}

/// The entry `i:[a, b]` of an adjacency list.
pub open spec fn entry_text(i: nat, s: Seq<usize>) -> Seq<char> {
    decimal(i) + ":"@ + list_text(s)
}

/// The entries of an adjacency list, separated by `", "`.
pub open spec fn adjacency_text(adj: Seq<Seq<usize>>) -> Seq<char>
    decreases adj.len(),
{
    if adj.len() == 0 {
        Seq::empty()
    } else if adj.len() == 1 {
        entry_text(0, adj[0])
    } else {
        adjacency_text(adj.drop_last()) + ", "@ + entry_text((adj.len() - 1) as nat, adj.last())
    }
}

/// Appends `[a, b, c]` for the numbers of `v`.
pub fn push_list(s: &mut String, v: &Vec<usize>)
    ensures
        final(s)@ == old(s)@ + list_text(v@),
{
    let ghost start = s@;
    s.append("[");
    let mut i: usize = 0;
    while i < v.len()
        invariant
            i <= v.len(),
            s@ == start + "["@ + joined_decimals(v@.take(i as int)),
        decreases v.len() - i,
    {
        let ghost before = s@;
        if i > 0 {
            s.append(", ");
        }
        push_decimal(s, v[i]);
        proof {
            let t = v@.take(i as int + 1);
            assert(t.drop_last() =~= v@.take(i as int));
            assert(t.last() == v@[i as int]);
            if i == 0 {
                assert(v@.take(0) =~= Seq::<usize>::empty());
                assert(t =~= seq![v@[0]]);
                assert(s@ =~= start + "["@ + joined_decimals(t));
            } else {
                assert(s@ =~= start + "["@ + joined_decimals(t));
            }
        }
        i = i + 1;
    }
    s.append("]");
    proof {
        assert(v@.take(v.len() as int) =~= v@);
        assert(s@ =~= start + list_text(v@));
    }
}

/// Appends the entries `i:[..]` of an adjacency list, separated by `", "`.
pub fn push_adjacency(s: &mut String, adj: &Vec<Vec<usize>>)
    ensures
        final(s)@ == old(s)@ + adjacency_text(seqs_of(adj@)),
{
    let ghost start = s@;
    let ghost all = seqs_of(adj@);
    let mut i: usize = 0;
    while i < adj.len()
        invariant
            i <= adj.len(),
            all == seqs_of(adj@),
            s@ == start + adjacency_text(all.take(i as int)),
        decreases adj.len() - i,
    {
        if i > 0 {
            s.append(", ");
        }
        push_decimal(s, i);
        s.append(":");
        push_list(s, &adj[i]);
        proof {
            let t = all.take(i as int + 1);
            assert(t.drop_last() =~= all.take(i as int));
            assert(t.last() == adj@[i as int]@);
            if i == 0 {
                assert(all.take(0) =~= Seq::<Seq<usize>>::empty());
                assert(t =~= seq![all[0]]);
                assert(s@ =~= start + adjacency_text(t));
            } else {
                assert(s@ =~= start + adjacency_text(t));
            }
        }
        i = i + 1;
    }
    proof {
        assert(all.take(adj.len() as int) =~= all);
    }
}

/// A coarse pair as `(u,v)`, or the empty text for none.
pub open spec fn pair_text(pair: Option<(usize, usize)>) -> Seq<char> {
    match pair {
        Some((u, v)) => "("@ + decimal(u as nat) + ","@ + decimal(v as nat) + ")"@,
        None => Seq::empty(),
    }
}

/// `(u,v)`, or the empty string.
pub fn pair_to_string(pair: Option<(usize, usize)>) -> (r: String)
    ensures
        r@ == pair_text(pair),
{
    match pair {
        Some((u, v)) => {
            let mut r = String::from_str("(");
            push_decimal(&mut r, u);
            r.append(",");
            push_decimal(&mut r, v);
            r.append(")");
            r
        },
        None => String::new(),
    }
}

// =============================================================================
// The report
// =============================================================================

/// The mark of a yes-or-no finding.
pub open spec fn yes_no(b: bool) -> Seq<char> {
    if b {
        "✅ Yes"@
    } else {
        "❌ No "@
    }
}

/// The first lines of the report: statistics and the main component.
pub open spec fn head_lines(r: AnalysisResult) -> Seq<Seq<char>> {
    seq![
        "\n--- Graph Connectivity Analysis Report ---"@,
        "[Basic Statistics]"@,
        "Number of Jacobians:        "@ + decimal(r.jacobian_count as nat),
        "Number of Vertices:         "@ + decimal(r.vertex_count as nat),
        "Number of Edges:            "@ + decimal(r.edge_count as nat),
        "Strongly Connected:          "@ + yes_no(r.is_strongly_connected),
        "Number of SCCs:              "@ + decimal(r.scc_count as nat),
        "\n[Main SCC Properties]"@,
        "All Jacobians in Main SCC:   "@ + yes_no(r.are_all_jacobians_connected_via_main_scc),
        "\n[Jacobian Pair Connectivity]"@,
        "All Jacobian Pairs Connected via Good Paths:    "@ + yes_no(r.are_all_jacobian_pairs_connected_via_good_paths),
    ]
}

/// The lines on the minor components and the condensed graph.
pub open spec fn minor_lines(r: AnalysisResult) -> Seq<Seq<char>> {
    seq![
        "\n[Minor SCC Properties]"@,
        "All Minor SCCs Size 1:       "@ + yes_no(r.are_all_minor_sccs_size_1),
        "All Minor Nodes Self-Isog:   "@ + yes_no(r.are_all_minor_nodes_self_isogenies),
        "\n[Minor SCC Detailed Connectivity]"@,
        "All Minor SCCs Have Predecessors from Main SCC:  "@ + yes_no(r.all_minor_sccs_have_preds_from_main),
        "Any Minor SCCs Have Successors to Main SCC:      "@ + yes_no(r.any_minor_sccs_have_succs_to_main),
        "Exists Minor-to-Minor SCC Edge:                  "@ + yes_no(r.exists_minor_to_minor_edge),
        "\n[Condensed Graph]"@,
        "Number of Vertices:         "@ + decimal(r.condensed_graph.n as nat),
        "adjacency list:"@,
        "Adjacency: "@ + adjacency_text(seqs_of(r.condensed_graph.adj@)),
    ]
}

/// The lines of the report: statistics, the main component and, when the
/// graph is not strongly connected, the minor components and the condensed
/// graph.
pub open spec fn report_lines(r: AnalysisResult) -> Seq<Seq<char>> {
    let minor = if r.is_strongly_connected {
        Seq::empty()
    } else {
        minor_lines(r)
    };
    head_lines(r) + minor + seq!["------------------------------------------"@]
}

/// Lines joined into a text, each ended by a newline.
pub open spec fn text_of_lines(lines: Seq<Seq<char>>) -> Seq<char>
    decreases lines.len(),
{
    if lines.len() == 0 {
        Seq::empty()
    } else {
        text_of_lines(lines.drop_last()) + lines.last() + "\n"@
    }
}

/// Appends `line` and a newline.
fn push_line(s: &mut String, line: String, Ghost(lines): Ghost<Seq<Seq<char>>>)
    requires
        old(s)@ == text_of_lines(lines),
    ensures
        final(s)@ == text_of_lines(lines.push(line@)),
{
    s.append(line.as_str());
    s.append("\n");
    proof {
        assert(lines.push(line@).drop_last() =~= lines);
    }
}

/// `label` followed by `n` in decimal.
fn labeled_decimal(label: &str, n: usize) -> (r: String)
    ensures
        r@ == label@ + decimal(n as nat),
{
    let mut r = String::from_str(label);
    push_decimal(&mut r, n);
    r
}

/// `label` followed by the mark of `b`.
fn labeled_check(label: &str, b: bool) -> (r: String)
    ensures
        r@ == label@ + yes_no(b),
{
    let mut r = String::from_str(label);
    if b {
        r.append("✅ Yes");
    } else {
        r.append("❌ No ");
    }
    r
}

impl AnalysisResult {
    /// Appends the first lines of the report.
    #[verifier::spinoff_prover]
    fn push_head(&self, s: &mut String, Ghost(lines): Ghost<Seq<Seq<char>>>)
        requires
            old(s)@ == text_of_lines(lines),
        ensures
            final(s)@ == text_of_lines(lines + head_lines(*self)),
    {
        let ghost mut ls = lines;
        let l = String::from_str("\n--- Graph Connectivity Analysis Report ---");
        push_line(s, l, Ghost(ls));
        proof { ls = ls.push(l@); }
        let l = String::from_str("[Basic Statistics]");
        push_line(s, l, Ghost(ls));
        proof { ls = ls.push(l@); }
        let l = labeled_decimal("Number of Jacobians:        ", self.jacobian_count);
        push_line(s, l, Ghost(ls));
        proof { ls = ls.push(l@); }
        let l = labeled_decimal("Number of Vertices:         ", self.vertex_count);
        push_line(s, l, Ghost(ls));
        proof { ls = ls.push(l@); }
        let l = labeled_decimal("Number of Edges:            ", self.edge_count);
        push_line(s, l, Ghost(ls));
        proof { ls = ls.push(l@); }
        let l = labeled_check("Strongly Connected:          ", self.is_strongly_connected);
        push_line(s, l, Ghost(ls));
        proof { ls = ls.push(l@); }
        let l = labeled_decimal("Number of SCCs:              ", self.scc_count);
        push_line(s, l, Ghost(ls));
        proof { ls = ls.push(l@); }
        let l = String::from_str("\n[Main SCC Properties]");
        push_line(s, l, Ghost(ls));
        proof { ls = ls.push(l@); }
        let l = labeled_check("All Jacobians in Main SCC:   ", self.are_all_jacobians_connected_via_main_scc);
        push_line(s, l, Ghost(ls));
        proof { ls = ls.push(l@); }
        let l = String::from_str("\n[Jacobian Pair Connectivity]");
        push_line(s, l, Ghost(ls));
        proof { ls = ls.push(l@); }
        let l = labeled_check(
            "All Jacobian Pairs Connected via Good Paths:    ",
            self.are_all_jacobian_pairs_connected_via_good_paths,
        );
        push_line(s, l, Ghost(ls));
        proof {
            ls = ls.push(l@);
            assert(ls =~= lines + head_lines(*self));
        }
    }

    /// Appends the lines on the minor components and the condensed graph.
    #[verifier::spinoff_prover]
    fn push_minor(&self, s: &mut String, Ghost(lines): Ghost<Seq<Seq<char>>>)
        requires
            old(s)@ == text_of_lines(lines),
        ensures
            final(s)@ == text_of_lines(lines + minor_lines(*self)),
    {
        let ghost mut ls = lines;
        let l = String::from_str("\n[Minor SCC Properties]");
        push_line(s, l, Ghost(ls));
        proof { ls = ls.push(l@); }
        let l = labeled_check("All Minor SCCs Size 1:       ", self.are_all_minor_sccs_size_1);
        push_line(s, l, Ghost(ls));
        proof { ls = ls.push(l@); }
        let l = labeled_check("All Minor Nodes Self-Isog:   ", self.are_all_minor_nodes_self_isogenies);
        push_line(s, l, Ghost(ls));
        proof { ls = ls.push(l@); }
        let l = String::from_str("\n[Minor SCC Detailed Connectivity]");
        push_line(s, l, Ghost(ls));
        proof { ls = ls.push(l@); }
        let l = labeled_check(
            "All Minor SCCs Have Predecessors from Main SCC:  ",
            self.all_minor_sccs_have_preds_from_main,
        );
        push_line(s, l, Ghost(ls));
        proof { ls = ls.push(l@); }
        let l = labeled_check(
            "Any Minor SCCs Have Successors to Main SCC:      ",
            self.any_minor_sccs_have_succs_to_main,
        );
        push_line(s, l, Ghost(ls));
        proof { ls = ls.push(l@); }
        let l = labeled_check("Exists Minor-to-Minor SCC Edge:                  ", self.exists_minor_to_minor_edge);
        push_line(s, l, Ghost(ls));
        proof { ls = ls.push(l@); }
        let l = String::from_str("\n[Condensed Graph]");
        push_line(s, l, Ghost(ls));
        proof { ls = ls.push(l@); }
        let l = labeled_decimal("Number of Vertices:         ", self.condensed_graph.n);
        push_line(s, l, Ghost(ls));
        proof { ls = ls.push(l@); }
        let l = String::from_str("adjacency list:");
        push_line(s, l, Ghost(ls));
        proof { ls = ls.push(l@); }
        let mut l = String::from_str("Adjacency: ");
        push_adjacency(&mut l, &self.condensed_graph.adj);
        push_line(s, l, Ghost(ls));
        proof {
            ls = ls.push(l@);
            assert(ls =~= lines + minor_lines(*self));
        }
    }

    /// The report of the analysis, as text: one line per finding.
    pub fn to_string(&self) -> (r: String)
        ensures
            r@ == text_of_lines(report_lines(*self)),
    {
        let mut s = String::new();
        let ghost empty: Seq<Seq<char>> = Seq::empty();
        proof {
            assert(s@ =~= text_of_lines(empty));
            assert(empty + head_lines(*self) =~= head_lines(*self));
        }
        self.push_head(&mut s, Ghost(empty));
        let ghost mut lines = head_lines(*self);
        if !self.is_strongly_connected {
            self.push_minor(&mut s, Ghost(lines));
            proof {
                lines = lines + minor_lines(*self);
            }
        }
        let l = String::from_str("------------------------------------------");
        push_line(&mut s, l, Ghost(lines));
        proof {
            lines = lines.push(l@);
            assert(lines =~= report_lines(*self));
        }
        s
    }
}

} // verus!
