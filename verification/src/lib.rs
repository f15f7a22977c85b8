//! Streaming replacement of a fixed byte pattern.
//!
//! Every occurrence of a pattern in an input of any length is replaced by
//! another byte string, through a working buffer whose size depends on the
//! pattern alone. Occurrences are taken from the left and do not overlap;
//! no byte value is special.
//!
//! `model` says what a run yields, `laws` what holds of every run. `subst`
//! runs over an input held in memory; `replacer` is the same run fed chunk
//! by chunk, for a caller that reads and writes by its own means.

pub mod buffer;
pub mod error;
pub mod laws;
pub mod model;
pub mod replacer;
pub mod search;
pub mod stream;
pub mod subst;

pub use crate::buffer::{buffer_capacity, shift, store, MIN_CAPACITY};
pub use crate::error::Error;
pub use crate::replacer::Replacer;
pub use crate::search::safe_memmem;
pub use crate::stream::{checked_read, checked_write, Source};
pub use crate::subst::{drain, exactsubst, exactsubst0, tally};
