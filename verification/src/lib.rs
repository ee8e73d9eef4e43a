pub mod api;
pub mod assoc;
pub mod baseline_ematch;
pub mod decimal;
pub mod egraph;
pub mod ematch;
pub mod guf;
pub mod eqsat;
pub mod offset;
pub mod proofs;
pub mod uf;
pub mod slotted;
pub mod symbol;
pub mod cases;
