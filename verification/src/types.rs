use vstd::prelude::*;

verus! {

/// The two failure kinds of suffix-structure construction.
///
/// `InvalidLength` reports a caller-visible buffer whose length differs from
/// the input length; it is detected before any algorithmic work and the call
/// can be retried with correctly sized buffers. `Internal` reports that the
/// sorting or interval stage signalled failure after starting work; no output
/// buffer content is meaningful then.
#[derive(Debug, PartialEq, Eq, Clone, Copy)]
pub enum SuffixError {
    InvalidLength,
    Internal,
}

} // verus!
