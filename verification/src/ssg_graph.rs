//! Checks on the isogenies that a good-extension graph is built from.
use crate::good_extension::{merge_parallel, retained};
use crate::graph::seqs_of;
use vstd::prelude::*;

verus! {

/// Whether the pair `x` occurs in `keys`.
pub fn contains_pair(keys: &Vec<(usize, usize)>, x: (usize, usize)) -> (r: bool)
    ensures
        r == keys@.contains(x),
{
    let mut i: usize = 0;
    while i < keys.len()
        invariant
            i <= keys.len(),
            forall|k: int| 0 <= k < i ==> keys@[k] != x,
        decreases keys.len() - i,
    {
        let y = keys[i];
        if y.0 == x.0 && y.1 == x.1 {
            assert(keys@[i as int] == x);
            return true;
        }
        i = i + 1;
    }
    false
}

/// Whether every transition that the good-extension graph of `keys` and
/// `nexts` keeps leads to a node that occurs: where an isogeny `A0 -> A1`
/// keeps `A2`, some isogeny goes from `A1` to `A2`.
pub fn good_transitions_closed(keys: &Vec<(usize, usize)>, nexts: &Vec<Vec<usize>>) -> (r: bool)
    requires
        keys.len() == nexts.len(),
    ensures
        r == (forall|i: int, w: usize|
            0 <= i < keys.len() && #[trigger] retained(keys@, seqs_of(nexts@), keys@[i], w) ==> keys@.contains((keys@[i].1, w))),
{
    let ghost ns = seqs_of(nexts@);
    let (ukeys, usets) = merge_parallel(keys, nexts);
    let mut k: usize = 0;
    while k < ukeys.len()
        invariant
            k <= ukeys.len(),
            ukeys.len() == usets.len(),
            ns == seqs_of(nexts@),
            forall|x: (usize, usize)| #[trigger] ukeys@.contains(x) <==> keys@.contains(x),
            forall|k2: int, w: usize|
                0 <= k2 < ukeys.len() ==> (#[trigger] usets@[k2]@.contains(w) <==> retained(keys@, ns, ukeys@[k2], w)),
            forall|k2: int, w: usize| 0 <= k2 < k && #[trigger] usets@[k2]@.contains(w) ==> keys@.contains((ukeys@[k2].1, w)),
        decreases ukeys.len() - k,
    {
        let set = &usets[k];
        let mut t: usize = 0;
        while t < set.len()
            invariant
                k < ukeys.len(),
                ukeys.len() == usets.len(),
                ns == seqs_of(nexts@),
                forall|x: (usize, usize)| #[trigger] ukeys@.contains(x) <==> keys@.contains(x),
                forall|k2: int, w: usize|
                    0 <= k2 < ukeys.len() ==> (#[trigger] usets@[k2]@.contains(w) <==> retained(keys@, ns, ukeys@[k2], w)),
                t <= set.len(),
                set@ == usets@[k as int]@,
                forall|q: int| 0 <= q < t ==> keys@.contains((ukeys@[k as int].1, #[trigger] set@[q])),
            decreases set.len() - t,
        {
            if !contains_pair(keys, (ukeys[k].1, set[t])) {
                proof {
                    let w = set@[t as int];
                    assert(set@.contains(w));
                    assert(usets@[k as int]@.contains(w));
                    assert(ukeys@.contains(ukeys@[k as int]));
                    assert(keys@.contains(ukeys@[k as int]));
                    let i = choose|i: int| 0 <= i < keys.len() && #[trigger] keys@[i] == ukeys@[k as int];
                    assert(retained(keys@, ns, keys@[i], w));
                }
                return false;
            }
            t = t + 1;
        }
        proof {
            assert forall|k2: int, w: usize| 0 <= k2 < k + 1 && #[trigger] usets@[k2]@.contains(w) implies keys@.contains(
                (ukeys@[k2].1, w),
            ) by {
                if k2 == k {
                    let q = choose|q: int| 0 <= q < set@.len() && #[trigger] set@[q] == w;
                }
            }
        }
        k = k + 1;
    }
    proof {
        assert forall|i: int, w: usize|
            0 <= i < keys.len() && #[trigger] retained(keys@, ns, keys@[i], w) implies keys@.contains((keys@[i].1, w)) by {
            assert(keys@.contains(keys@[i]));
            assert(ukeys@.contains(keys@[i]));
            let k2 = choose|k2: int| 0 <= k2 < ukeys.len() && #[trigger] ukeys@[k2] == keys@[i];
            assert(usets@[k2]@.contains(w));
        }
    }
    true
}

} // verus!
