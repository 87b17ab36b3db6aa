//! Mutual exclusion derived from an external lock: a guard type proves,
//! through its identifier, which lock it belongs to.

use vstd::prelude::*;

verus! {

/// A value whose lock guards other data. Safety of guarded access rests on
/// the uniqueness of guard identifiers: callers hand out each identifier to
/// exactly one guard of a given type.
pub trait ExternalGuard<I> {
    /// The identifier of this guard.
    fn get_guard_id(&self) -> &I;
}

} // verus!
