//! The handle for the on-disk match cache; reading and writing the files
//! happens outside the library.

use vstd::prelude::*;

verus! {

/// Names the per-guild id and info cache files.
pub struct InputCache {}

impl InputCache {
    pub fn new() -> (r: InputCache) {
        InputCache {  }
    }
}

} // verus!
