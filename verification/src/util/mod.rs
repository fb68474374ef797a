//! Small building blocks: an index type that can never be `usize::MAX`, a
//! count that can never be zero, and a generational id table.
pub mod nonmax;
pub mod nonzero;
pub mod stable_id;

pub use nonmax::NonMaxUsize;
pub use nonzero::NonZeroUsize;
pub use stable_id::{Id, IdMapper};
