//! Generation of Sierra code for the blocks of a lowered function.

pub mod block_generator;
pub mod block_laws;
pub mod block_meaning_laws;
pub mod code;
pub mod context;
pub mod count_laws;
pub mod depth;
pub mod growth;
pub mod label_laws;
pub mod laws;
pub mod libfunc;
pub mod lifetime;
pub mod lowering;
pub mod match_label_laws;
pub mod meaning;
pub mod meaning_laws;
pub mod names;
pub mod ordered_map;
pub mod outcome_laws;
pub mod outside;
pub mod pre_sierra;
pub mod reach_laws;
pub mod reading_laws;
pub mod trail;
