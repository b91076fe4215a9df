//! Little-endian byte-order helpers shared by the device and volume layers.
//!
//! The ATA data port transfers 16-bit words while FAT32 structures are byte
//! oriented, so every transfer crosses between the two representations. The
//! conversions are centralised here: `sector_to_bytes` and `bytes_to_sector`
//! are the only places that unpack or pack little-endian words.

use vstd::assert_seqs_equal;
use vstd::prelude::*;

verus! {

/// The 16-bit little-endian value stored as the two bytes `b0`, `b1`.
pub open spec fn le16(b0: u8, b1: u8) -> u32 {
    (b0 as int + 256 * (b1 as int)) as u32
}

/// The 32-bit little-endian value stored as the four bytes `b0`..`b3`.
pub open spec fn le32(b0: u8, b1: u8, b2: u8, b3: u8) -> u32 {
    (b0 as int + 256 * (b1 as int) + 65536 * (b2 as int) + 16777216 * (b3 as int)) as u32
}

/// Low-order byte of a 16-bit word.
pub open spec fn word_lo(w: u16) -> u8 {
    (w & 0xff) as u8
}

/// High-order byte of a 16-bit word.
pub open spec fn word_hi(w: u16) -> u8 {
    (w >> 8) as u8
}

/// The byte sequence a word sequence denotes: each word contributes its low
/// byte and then its high byte, the order the ATA data port uses.
pub open spec fn words_to_bytes(ws: Seq<u16>) -> Seq<u8> {
    Seq::new(ws.len() * 2, |i: int| if i % 2 == 0 { word_lo(ws[i / 2]) } else { word_hi(ws[i / 2]) })
}

/// Byte `k` (0 = least significant) of a 32-bit value.
pub open spec fn u32_byte(x: u32, k: int) -> u8 {
    ((x >> (8 * k)) & 0xff) as u8
}

pub proof fn lemma_le32_recompose(b0: u8, b1: u8, b2: u8, b3: u8)
    ensures
        le32(b0, b1, b2, b3) == ((b0 as u32) | ((b1 as u32) << 8) | ((b2 as u32) << 16) | ((
        b3 as u32) << 24)),
{
    assert(((b0 as u32) | ((b1 as u32) << 8) | ((b2 as u32) << 16) | ((b3 as u32) << 24)) == (
    b0 as int + 256 * (b1 as int) + 65536 * (b2 as int) + 16777216 * (b3 as int)) as u32)
        by (bit_vector);
}

/// A word is the little-endian value of its two bytes.
pub proof fn lemma_word_roundtrip(w: u16)
    ensures
        le16(word_lo(w), word_hi(w)) == w as u32,
{
    assert(((w & 0xff) as u8 as int + 256 * ((w >> 8) as u8 as int)) as u32 == w as u32)
        by (bit_vector);
}

/// The little-endian bytes of a 32-bit value recompose to that value.
pub proof fn lemma_u32_bytes_roundtrip(x: u32)
    ensures
        le32(u32_byte(x, 0), u32_byte(x, 1), u32_byte(x, 2), u32_byte(x, 3)) == x,
{
    assert((((x >> 0) & 0xff) as u8 as int + 256 * (((x >> 8) & 0xff) as u8 as int) + 65536 * (((x
        >> 16) & 0xff) as u8 as int) + 16777216 * (((x >> 24) & 0xff) as u8 as int)) as u32 == x)
        by (bit_vector);
}

/// The bytes of a little-endian 32-bit value are determined by it: each
/// byte of the composition is the corresponding byte of the value.
pub proof fn lemma_le32_bytes(b0: u8, b1: u8, b2: u8, b3: u8)
    ensures
        u32_byte(le32(b0, b1, b2, b3), 0) == b0,
        u32_byte(le32(b0, b1, b2, b3), 1) == b1,
        u32_byte(le32(b0, b1, b2, b3), 2) == b2,
        u32_byte(le32(b0, b1, b2, b3), 3) == b3,
{
    lemma_le32_recompose(b0, b1, b2, b3);
    let y: u32 = (b0 as u32) | ((b1 as u32) << 8) | ((b2 as u32) << 16) | ((b3 as u32) << 24);
    assert((((b0 as u32) | ((b1 as u32) << 8) | ((b2 as u32) << 16) | ((b3 as u32) << 24)) >> 0)
        & 0xff == b0) by (bit_vector);
    assert((((b0 as u32) | ((b1 as u32) << 8) | ((b2 as u32) << 16) | ((b3 as u32) << 24)) >> 8)
        & 0xff == b1) by (bit_vector);
    assert((((b0 as u32) | ((b1 as u32) << 8) | ((b2 as u32) << 16) | ((b3 as u32) << 24)) >> 16)
        & 0xff == b2) by (bit_vector);
    assert((((b0 as u32) | ((b1 as u32) << 8) | ((b2 as u32) << 16) | ((b3 as u32) << 24)) >> 24)
        & 0xff == b3) by (bit_vector);
}

/// Unpacks one or more 256-word sectors into little-endian byte form, two
/// bytes per word, low byte first.
pub fn sector_to_bytes(words: &Vec<u16>) -> (bytes: Vec<u8>)
    ensures
        bytes@ == words_to_bytes(words@),
{
    let mut bytes: Vec<u8> = Vec::new();
    let mut i: usize = 0;
    while i < words.len()
        invariant
            i <= words.len(),
            bytes@ == words_to_bytes(words@.take(i as int)),
        decreases words.len() - i,
    {
        let w = words[i];
        bytes.push((w & 0xff) as u8);
        bytes.push((w >> 8) as u8);
        proof {
            assert((w & 0xff) as u8 == word_lo(w));
            assert((w >> 8) as u8 == word_hi(w));
            assert_seqs_equal!(
                bytes@ == words_to_bytes(words@.take(i + 1)),
                k => {
                    if k < 2 * i {
                        assert(words@.take(i + 1)[k / 2] == words@.take(i as int)[k / 2]);
                    } else {
                        assert(words@.take(i + 1)[k / 2] == w);
                    }
                }
            );
        }
        i = i + 1;
    }
    proof {
        assert(words@.take(words@.len() as int) == words@);
    }
    bytes
}

/// Packs a 512-byte sector image back into the 256 little-endian words the
/// data port expects. Inverse of `sector_to_bytes`.
pub fn bytes_to_sector(bytes: &Vec<u8>) -> (words: Vec<u16>)
    requires
        bytes@.len() % 2 == 0,
    ensures
        words_to_bytes(words@) == bytes@,
        words@.len() * 2 == bytes@.len(),
{
    let mut words: Vec<u16> = Vec::new();
    let mut i: usize = 0;
    while i < bytes.len() / 2
        invariant
            bytes@.len() % 2 == 0,
            2 * i <= bytes@.len(),
            words@.len() == i,
            words_to_bytes(words@) == bytes@.take(2 * i),
        decreases bytes@.len() / 2 - i,
    {
        let b0 = bytes[2 * i];
        let b1 = bytes[2 * i + 1];
        let w: u16 = (b0 as u16) | ((b1 as u16) << 8);
        proof {
            assert(word_lo((b0 as u16) | ((b1 as u16) << 8)) == b0 && word_hi(
                (b0 as u16) | ((b1 as u16) << 8),
            ) == b1) by (bit_vector);
        }
        words.push(w);
        proof {
            assert_seqs_equal!(
                words_to_bytes(words@) == bytes@.take(2 * (i + 1)),
                k => {
                    if k < 2 * i {
                        assert(words_to_bytes(words@.drop_last())[k] == bytes@.take(2 * i as int)[k]);
                        assert(words@[k / 2] == words@.drop_last()[k / 2]);
                    }
                }
            );
        }
        i = i + 1;
    }
    proof {
        assert(bytes@.take(bytes@.len() as int) == bytes@);
    }
    words
}

} // verus!
