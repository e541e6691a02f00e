//! Transform vectors element by element, one or several in lock-step, and
//! build the result in a buffer sized after one of the inputs whose element
//! layout matches the output's.

pub mod buffer;
pub mod general_zip;

pub use buffer::{Input, Output};
pub use general_zip::{try_zip_with, unwrap, zip_with, Seal, Tuple, TupleElem, ZipWithIter};
