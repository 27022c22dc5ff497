use vstd::prelude::*;

verus! {

/// The default ratio of the number of slots in the needle index to the
/// number of keys stored in it.
pub const HASH_CAPACITY_MULTIPLE: usize = 8;

/// Size of the buffers used for reading sequence files.
pub const BUFFER_SIZE: usize = 4096;

} // verus!
