pub mod ctl;
pub mod structure;
pub mod semantics;
pub mod checker;
pub mod laws;
