//! The LZSS encoder with which AVF frames are written.

use vstd::prelude::*;
use crate::lzss::{lzss_encoded, DECODER_FILL};

verus! {

/// Compresses `data` into an LZSS stream that `crate::lzss::decode_lzss`
/// reads back: the ring starts filled with spaces, as the decoder's does.
pub fn encode_lzss(data: &mut [u8]) -> (out: Vec<u8>)
    ensures
        out@ == lzss_encoded(old(data)@, DECODER_FILL),
        final(data)@ == old(data)@,
{
    crate::lzss::encode_lzss(data)
}

} // verus!
