//! Boolean satisfiability puzzles: clause sets over numbered switches, the
//! planted encodings that build them, exact model counting, and the rules of
//! the flipping game played on them.

pub mod cnf;
pub mod count;
pub mod encode;
pub mod random;
pub mod visits;
pub mod planted;
pub mod reactor;
pub mod labels;
pub mod aes;
pub mod lights_out;
pub mod grid;
pub mod coop;
