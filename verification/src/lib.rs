//! Graphs with bit-packed adjacency, canonical labelling, subforests and the
//! forested graph complex.
pub mod bits;
pub mod perm;
pub mod sort;
pub mod ktuples;
pub mod graph;
pub mod reach;
pub mod components;
pub mod connectivity;
pub mod distances;
pub mod partition;
pub mod canon;
pub mod g6;
pub mod dot;
pub mod contract;
pub mod fx;
pub mod multi;
pub mod forests;
pub mod big;
pub mod blocks;
pub mod forested_graph;
pub mod complex;
pub mod relabel;
pub mod table;
pub mod girth;
pub mod filtration;
pub mod sms;
pub mod pipeline;
pub mod span;
pub mod modular;
pub mod crt;
pub mod text;
pub mod vectors;
pub mod support;
pub mod registry;
pub mod dedup;
pub mod triplets;
pub mod merge;
pub mod csr;
pub mod kernel;
pub mod sms_text;
pub mod pruning;
pub mod euler;
pub mod labelling;
