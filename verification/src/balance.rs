//! Picking one of a fixed set of upstream channels by a request hash.
use vstd::prelude::*;

verus! {

/// The position, among `len` channels, of the channel that a request with
/// hash `hash` goes to: the hash converted to `usize` (a negative hash
/// wraps around modulo the word size, as `as` does), modulo `len`.
pub fn channel_index(hash: i32, len: usize) -> (idx: usize)
    requires
        len > 0,
    ensures
        idx < len,
        hash >= 0 ==> idx == hash as int % len as int,
        idx == (hash as usize) as int % len as int,
{
    let wide: usize = hash as usize;
    wide % len
}

} // verus!
