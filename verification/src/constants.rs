//! Size thresholds of the value storage classes.
use vstd::prelude::*;

verus! {

/// Values of at most this many bytes are stored inline, in the key block.
pub const MAX_INLINE_VALUE_SIZE: usize = 8;

/// Values of at most this many bytes share small value blocks; larger values
/// get a value block of their own. The size of a small value must fit in 16 bits.
pub const MAX_SMALL_VALUE_SIZE: usize = 65535;

} // verus!
