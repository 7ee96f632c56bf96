pub use crate::error::Error;
use vstd::prelude::*;

verus! {

/// The outcome of parsing a text.
pub type Result<T> = core::result::Result<T, Error>;

} // verus!
