//! Keys and values as the caller gives them.

use crate::slice::Slice;
use vstd::prelude::*;

verus! {

/// User defined key
pub type UserKey = Slice;

/// User defined data (blob of bytes)
pub type UserValue = Slice;

} // verus!
