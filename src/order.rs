use vstd::prelude::*;

verus! {

/// Direction of the sort.
#[derive(Clone, Copy, Debug, PartialEq, Eq, Structural)]
pub enum Order {
    /// Smallest key first
    Asc,
    /// Largest key first
    Desc,
}

} // verus!
