//! Approximate nearest-neighbour indexes with machine-checked contracts.

pub mod beam;
pub mod beam_laws;
pub mod bytes;
pub mod cluster;
pub mod distance_laws;
pub mod exact;
pub mod flat;
pub mod heap;
pub mod idlist;
pub mod linalg;
pub mod lloyd;
pub mod metric;
pub mod neighbour_laws;
pub mod noise;
pub mod order;
pub mod overlap;
pub mod random;
pub mod ranking_laws;
pub mod reach;
pub mod recall_laws;
pub mod report;
pub mod rknn_verified;
pub mod roargraph;
pub mod rpq;
pub mod rvq;
pub mod scalar;
pub mod search_laws;
pub mod segment_rangehnsw;
pub mod serf;
pub mod simhash_prefilter;
pub mod soar_ivf;
pub mod sorting;
pub mod spaces;
pub mod table;
pub mod text;
pub mod walk_laws;
pub mod workload_laws;
