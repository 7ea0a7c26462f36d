//! Whole-codec checks meant to be driven with arbitrary inputs, such as a
//! fuzzer's.
use crate::compress::compress;
use crate::decompress::{decompress, decompressed};
use crate::stream::lemma_stream_decodes;
use vstd::prelude::*;

verus! {

/// Decompresses arbitrary bytes into a fresh buffer and reports whether they
/// formed a valid stream. It returns whatever the input, without panicking.
pub fn verify_decompression_robustness(data: &[u8]) -> (r: bool)
    ensures
        r == decompressed(data@) is Ok,
{
    let mut output: Vec<u8> = Vec::new();
    let res = decompress(data, &mut output);
    res.is_ok()
}

/// Compresses `data`, decompresses the result and reports whether the
/// bytes came back unchanged, which they always do.
pub fn verify_round_trip(data: &[u8]) -> (r: bool)
    ensures
        r,
{
    let mut compressed: Vec<u8> = Vec::new();
    compress(data, &mut compressed);
    proof {
        assert(compressed@.skip(0) =~= compressed@);
        lemma_stream_decodes(compressed@, data@);
    }
    let mut restored: Vec<u8> = Vec::new();
    let res = decompress(compressed.as_slice(), &mut restored);
    match res {
        Ok(()) => {
            assert(restored@.skip(0) =~= restored@);
            bytes_equal(restored.as_slice(), data)
        },
        Err(_) => false,
    }
}

/// Whether two byte slices hold the same bytes.
fn bytes_equal(a: &[u8], b: &[u8]) -> (r: bool)
    ensures
        r == (a@ == b@),
{
    if a.len() != b.len() {
        return false;
    }
    let mut i: usize = 0;
    while i < a.len()
        invariant
            a@.len() == b@.len(),
            i <= a@.len(),
            forall|j: int| 0 <= j < i ==> a@[j] == b@[j],
        decreases a@.len() - i,
    {
        if a[i] != b[i] {
            return false;
        }
        i += 1;
    }
    assert(a@ =~= b@);
    true
}

} // verus!
