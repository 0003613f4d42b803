use vstd::prelude::*;

verus! {

/// Type of a field: how its text is read into a key.
#[derive(Clone, Copy, Debug, PartialEq, Eq, Structural)]
pub enum FieldType {
    /// Byte-wise compared text
    String,
    /// Signed 64 bit integer
    Integer,
    /// 64 bit floating point number
    Number,
}

} // verus!
