//! Words and their bytes in device buffers.
//!
//! Buffers are filled with and read back as the bytes of 32-bit words in
//! the byte order of the host.

use crate::gpu::memory::div_ceil;
use vstd::prelude::*;

verus! {

/// Byte `k` of a word, counted from the least significant.
pub open spec fn word_byte(x: u32, k: int) -> u8 {
    let unit: int = if k == 0 {
        1
    } else if k == 1 {
        0x100
    } else if k == 2 {
        0x1_0000
    } else {
        0x100_0000
    };
    ((x as int / unit) % 0x100) as u8
}

/// The bytes of a run of words, least significant byte first.
pub open spec fn le_image(words: Seq<u32>) -> Seq<u8> {
    Seq::new(4 * words.len(), |i: int| word_byte(words[i / 4], i % 4))
}

/// The bytes of a run of words, most significant byte first.
pub open spec fn be_image(words: Seq<u32>) -> Seq<u8> {
    Seq::new(4 * words.len(), |i: int| word_byte(words[i / 4], 3 - i % 4))
}

/// `bytes` are the bytes of `words` in one of the two byte orders.
pub open spec fn is_native_image(words: Seq<u32>, bytes: Seq<u8>) -> bool {
    bytes == le_image(words) || bytes == be_image(words)
}

/// `bytes`, filled up with zero bytes to a whole number of words.
pub open spec fn zero_padded(bytes: Seq<u8>) -> Seq<u8> {
    bytes + Seq::new((4 * div_ceil(bytes.len(), 4) - bytes.len()) as nat, |i: int| 0u8)
}

/// The bytes of `words` in host byte order.
///
/// Calls `bytemuck::cast_slice`, which reinterprets the words as the bytes
/// they occupy in memory, four per word; from words to bytes the cast
/// cannot fail. Which of the two byte orders the host has is left open.
#[verifier::external_body]
pub(crate) fn words_to_bytes(words: &[u32]) -> (bytes: Vec<u8>)
    ensures
        is_native_image(words@, bytes@),
{
    bytemuck::cast_slice::<u32, u8>(words).to_vec()
}

/// The words that `bytes` hold in host byte order.
///
/// Calls `bytemuck::pod_collect_to_vec`, which copies the bytes into a
/// zeroed vector of just enough words to hold them, so that a last word that
/// the bytes fill only in part is completed with zero bytes.
#[verifier::external_body]
pub(crate) fn bytes_to_words(bytes: &[u8]) -> (words: Vec<u32>)
    ensures
        words@.len() == div_ceil(bytes@.len(), 4),
        is_native_image(words@, zero_padded(bytes@)),
{
    bytemuck::pod_collect_to_vec::<u8, u32>(bytes)
}

} // verus!
