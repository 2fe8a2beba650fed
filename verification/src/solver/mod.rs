pub mod btf_max_transversal;
pub mod btf_scc;
pub mod btf_search;
pub mod error;
pub mod klu;
pub mod label_sort;
pub mod matrix;
pub mod utils;
pub mod aat;
pub mod amd;
pub mod amd_core;
