use vstd::prelude::*;

verus! {

/// Error returned by the accessor helpers on a decoded value tree, when the
/// value does not have the shape that the accessor asks for.
#[derive(Clone, Copy, Debug, PartialEq, Eq, Structural)]
pub enum ConverterError {
    /// The value is not a byte string.
    InvalidString,
    /// The value is not an integer.
    InvalidInteger,
    /// The value is not a dictionary, or the key is absent.
    InvalidDictionary,
}

} // verus!
