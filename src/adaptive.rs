//! The adaptive split between the offset and length fields of a tuple.
//!
//! Both sides of the codec track how many bytes the current chunk has
//! produced; the number of bits given to the length field shrinks as the
//! chunk grows, so that offsets can reach further back.
use vstd::prelude::*;

verus! {

/// Width of the length field once a chunk has produced `n` bytes.
pub open spec fn split_for(n: int) -> int {
    if n <= 16 { 12 }
    else if n <= 32 { 11 }
    else if n <= 64 { 10 }
    else if n <= 128 { 9 }
    else if n <= 256 { 8 }
    else if n <= 512 { 7 }
    else if n <= 1024 { 6 }
    else if n <= 2048 { 5 }
    else if n <= 4096 { 4 }
    else if n <= 8192 { 3 }
    else if n <= 16384 { 2 }
    else if n <= 32768 { 1 }
    else { 0 }
}

/// The produced-byte count up to which `split` stays in force.
pub open spec fn threshold_for(split: int) -> int {
    if split >= 12 { 16 }
    else if split == 11 { 32 }
    else if split == 10 { 64 }
    else if split == 9 { 128 }
    else if split == 8 { 256 }
    else if split == 7 { 512 }
    else if split == 6 { 1024 }
    else if split == 5 { 2048 }
    else if split == 4 { 4096 }
    else if split == 3 { 8192 }
    else if split == 2 { 16384 }
    else if split == 1 { 32768 }
    else { 65536 }
}

/// The state `(split, threshold)` that a chunk is in after producing `n` bytes.
pub open spec fn adaptive_state_wf(split: usize, threshold: usize, n: int) -> bool {
    &&& split as int == split_for(n)
    &&& threshold as int == threshold_for(split as int)
}

/// Advances the adaptive state to the count `current_block_out_len`.
///
/// While the count exceeds the threshold, the length field loses a bit and
/// the threshold doubles; once the split reaches zero it stays there.
pub fn update_adaptive_state(current_block_out_len: usize, threshold: &mut usize, split: &mut usize)
    requires
        0 <= *old(split) <= 12,
        *old(threshold) as int == threshold_for(*old(split) as int),
        split_for(current_block_out_len as int) <= *old(split),
    ensures
        adaptive_state_wf(*final(split), *final(threshold), current_block_out_len as int),
{
    while current_block_out_len > *threshold && *split > 0
        invariant
            0 <= *split <= 12,
            *threshold as int == threshold_for(*split as int),
            split_for(current_block_out_len as int) <= *split,
        decreases *split,
    {
        *split = *split - 1;
        *threshold = *threshold * 2;
    }
}

/// Within a chunk the split never grows: a later, larger count has a split
/// no wider than an earlier one.
pub proof fn lemma_split_monotone(n1: int, n2: int)
    requires
        n1 <= n2,
    ensures
        split_for(n2) <= split_for(n1),
        0 <= split_for(n2) <= 12,
{
}

} // verus!
