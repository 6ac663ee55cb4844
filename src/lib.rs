mod context;
mod laws;
mod room;
mod semantics;

pub use context::{min, BddError, Context};
pub use semantics::{assign, eval, Assignment, Node, VarId, BDD};
