//! The handle by which the pool knows a database connection.

use vstd::prelude::*;

verus! {

/// An opaque, pointer-sized token for a database connection that the pool
/// owns. The pool never looks inside it: it only hands copies out and takes
/// them back.
#[derive(Clone, Copy, Debug, PartialEq, Eq, Structural)]
pub struct Connection(pub usize);

} // verus!
