//! The byte codec of the cache: LZ4 block compression with the length of the
//! value prepended. The decoder reserves as many bytes as a payload claims
//! before it reads on, so a few corrupt bytes could ask for four gigabytes and
//! end the process. Values and claimed lengths above `MAX_VALUE_LEN` are
//! therefore refused: no payload can make the codec reserve more than that.

use vstd::prelude::*;

verus! {

/// Why a payload could not be stored or read back.
#[derive(Clone, Copy, Debug, PartialEq, Eq, Structural)]
pub enum CacheError {
    /// The value is longer than `MAX_VALUE_LEN`.
    CompressionFailed,
    /// The stored bytes are not the compressed form of any value.
    CorruptEntry,
}

/// The longest value that is compressed, and the longest that a payload may
/// claim to hold: 64 MiB.
pub const MAX_VALUE_LEN: u32 = 0x0400_0000;

/// The bytes that `lz4_flex::block::compress_prepend_size` returns for `data`.
pub uninterp spec fn lz4_compressed(data: Seq<u8>) -> Seq<u8>;

/// What `lz4_flex::block::decompress_size_prepended` decodes `data` to, or `None`
/// where it reports an error.
pub uninterp spec fn lz4_extracted(data: Seq<u8>) -> Option<Seq<u8>>;

/// The length that a payload claims for its value: its first four bytes, read
/// as a little-endian number.
pub open spec fn claimed_len(data: Seq<u8>) -> nat {
    (data[0] + data[1] * 0x100 + data[2] * 0x1_0000 + data[3] * 0x100_0000) as nat
}

/// The payload claims a value longer than `MAX_VALUE_LEN`.
pub open spec fn claims_too_much(data: Seq<u8>) -> bool {
    data.len() >= 4 && claimed_len(data) > MAX_VALUE_LEN
}

/// The value that a payload stands for: what it decompresses to, unless it is
/// too short to claim a length, claims too much or does not decompress.
pub open spec fn extracted(data: Seq<u8>) -> Option<Seq<u8>> {
    if data.len() < 4 || claims_too_much(data) {
        None
    } else {
        lz4_extracted(data)
    }
}

/// Calls `lz4_flex::block::compress_prepend_size`, for an input whose length
/// the four-byte prefix of the format can record. The result is a function of
/// the input alone. As the crate documents, it begins with the length of the
/// input as a little-endian `u32`, and `decompress_size_prepended` turns it
/// back into the input.
#[verifier::external_body]
fn lz4_compress(data: &[u8]) -> (packed: Vec<u8>)
    requires
        data@.len() <= u32::MAX,
    ensures
        packed@ == lz4_compressed(data@),
        packed@.len() >= 4,
        claimed_len(packed@) == data@.len(),
        lz4_extracted(packed@) == Some(data@),
{
    lz4_flex::block::compress_prepend_size(data)
}

/// Calls `lz4_flex::block::decompress_size_prepended`, which reserves as many
/// bytes as the input claims before it decodes. The result is a function of
/// the input alone; an error stands for input that is no compressed block, as
/// every input of less than the four bytes of the length is.
#[verifier::external_body]
fn lz4_extract(data: &[u8]) -> (raw: Result<Vec<u8>, lz4_flex::block::DecompressError>)
    requires
        !claims_too_much(data@),
    ensures
        raw is Ok <==> lz4_extracted(data@) is Some,
        raw is Ok ==> Some(raw->Ok_0@) == lz4_extracted(data@),
        data@.len() < 4 ==> raw is Err,
{
    lz4_flex::block::decompress_size_prepended(data)
}

/// Compresses `data`. Fails exactly when `data` is longer than `MAX_VALUE_LEN`;
/// otherwise the result is the compressed form, which `extract_data` turns back
/// into `data`.
pub fn compress_data(data: &[u8]) -> (r: Result<Vec<u8>, CacheError>)
    ensures
        data@.len() > MAX_VALUE_LEN ==> r == Err::<Vec<u8>, CacheError>(CacheError::CompressionFailed),
        data@.len() <= MAX_VALUE_LEN ==> r is Ok && r->Ok_0@ == lz4_compressed(data@) && extracted(
            r->Ok_0@,
        ) == Some(data@),
{
    if data.len() > MAX_VALUE_LEN as usize {
        Err(CacheError::CompressionFailed)
    } else {
        Ok(lz4_compress(data))
    }
}

/// Decompresses `data`: the value it stands for where `data` is a compressed
/// block that claims no more than `MAX_VALUE_LEN`, `CorruptEntry` where it is
/// not.
pub fn extract_data(data: &[u8]) -> (r: Result<Vec<u8>, CacheError>)
    ensures
        match extracted(data@) {
            Some(value) => r is Ok && r->Ok_0@ == value,
            None => r == Err::<Vec<u8>, CacheError>(CacheError::CorruptEntry),
        },
{
    if data.len() >= 4 {
        let claimed: u32 = data[0] as u32 + data[1] as u32 * 0x100 + data[2] as u32 * 0x1_0000
            + data[3] as u32 * 0x100_0000;
        if claimed > MAX_VALUE_LEN {
            return Err(CacheError::CorruptEntry);
        }
    }
    match lz4_extract(data) {
        Ok(value) => Ok(value),
        Err(_) => Err(CacheError::CorruptEntry),
    }
}

} // verus!
