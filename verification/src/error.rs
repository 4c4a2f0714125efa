//! The ways in which a call can be refused.

use vstd::prelude::*;

verus! {

/// Why an operation refused its arguments.
///
/// Every operation of this crate is a pure computation over the values it is
/// handed, so an error leaves nothing behind and the call can simply be made
/// again with corrected arguments.
#[derive(Clone, Copy, Debug, PartialEq, Eq, Structural)]
pub enum Error {
    /// A parameter of the computation is unusable: a radius that is not
    /// positive, or a density threshold below one.
    Config,
    /// A point has a coordinate that lies off the lattice.
    Input,
    /// A query names a point that does not exist, or is made with a point
    /// array whose length differs from that of the indexed one.
    Index,
}

} // verus!
