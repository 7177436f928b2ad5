//! The [`OwnsRaw`] marker trait.

use vstd::prelude::*;

verus! {

/// Declares that a type owns the raw handle or descriptor it reports
/// through its accessor methods, rather than merely borrowing it.  The
/// accessor traits alone cannot express ownership, so types opt in by
/// implementing this marker.
pub trait OwnsRaw {

}

} // verus!
