//! Per-record compression with the Snappy raw block format.
use vstd::prelude::*;
use crate::bytes::view_opt;

verus! {

/// The Snappy block that the raw encoder produces for `input`.
pub uninterp spec fn snappy_compressed(input: Seq<u8>) -> Seq<u8>;

/// What the raw decoder produces from `input`, or `None` when it refuses it.
pub uninterp spec fn snappy_decompressed(input: Seq<u8>) -> Option<Seq<u8>>;

/// Whether the encoder takes an input of `len` bytes: its output bound
/// `32 + len + len / 6` must not pass `u32::MAX`.
pub open spec fn compressible(len: nat) -> bool {
    32 + len + len / 6 <= 4294967295
}

/// Relies on `snap::raw::Encoder::compress_vec`: it writes one Snappy block
/// for the whole input, and fails only when `max_compress_len` of the input
/// length is 0.
#[verifier::external_body]
pub(crate) fn snappy_compress(input: &Vec<u8>) -> (r: Option<Vec<u8>>)
    ensures
        r is Some <==> compressible(input@.len()),
        r matches Some(c) ==> c@ == snappy_compressed(input@),
{
    snap::raw::Encoder::new().compress_vec(input).ok()
}

/// Relies on `snap::raw::Decoder::decompress_vec`: the decoded bytes, or an
/// error for input that is not a valid Snappy block; the outcome depends on
/// the input alone.
#[verifier::external_body]
pub(crate) fn snappy_decompress(input: &Vec<u8>) -> (r: Option<Vec<u8>>)
    ensures
        view_opt(r) == snappy_decompressed(input@),
{
    snap::raw::Decoder::new().decompress_vec(input).ok()
}

} // verus!
