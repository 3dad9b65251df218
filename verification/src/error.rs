//! What can be wrong with a line of input.

use vstd::prelude::*;

verus! {

/// The reason a line was rejected. Any rejected line invalidates the whole
/// input: nothing is reported for an input that holds one.
#[derive(Clone, Copy, Debug, PartialEq, Eq, Structural)]
pub enum FormatError {
    /// A line that is not a comment holds no `;`.
    MissingSeparator,
    /// The text after the `;` is not `-?D{1,3}.D`.
    MalformedValue,
}

} // verus!
