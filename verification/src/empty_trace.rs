//! Marker for payload shapes that own no handles.
use vstd::prelude::*;

use crate::trace::Data;

verus! {

/// A marker capability for values that never own a managed handle: tracing,
/// rooting and unrooting them is a no-op.
pub trait EmptyTrace {

}

impl EmptyTrace for Data {

}

} // verus!
