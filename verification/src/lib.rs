//! Finite fields, isogeny-graph bookkeeping and strongly connected components
//! for the study of supersingular (2,2)-isogeny graphs.
pub mod modular;
pub mod fq;
pub mod fp4;
pub mod monoid;
pub mod graph;
pub mod good_extension;
pub mod counting;
pub mod utils;
pub mod curves;
pub mod reachability;
pub mod report;
pub mod rosenhain;
pub mod theta;
pub mod poly;
pub mod ssg;
pub mod ssg_graph;
pub mod ssg_walk;
pub mod ssg_explore;
pub mod good_paths;
pub mod ssg_start;
pub mod ssg_random;
pub mod poly_roots;
pub mod scc_laws;
