//! Key schedule: the cipher mode and offset carried by a 16-bit session key.

use vstd::prelude::*;

verus! {

/// The offset a session key carries: its low eight bits.
pub open spec fn key_offset(key: u16) -> u8 {
    (key & 0xFF) as u8
}

/// The cipher mode a session key selects: bits 6 and 7 of the key.
pub open spec fn key_mode(key: u16) -> u8 {
    ((key >> 6) & 0x3) as u8
}

/// Mode and offset of one key agree: the mode is the top two bits of the
/// offset.
pub proof fn lemma_mode_is_top_of_offset(key: u16)
    ensures
        key_mode(key) <= 3,
        key_mode(key) == key_offset(key) / 64,
{
    assert(((key >> 6) & 0x3) as u8 == ((key & 0xFF) as u8) / 64) by (bit_vector);
    assert(((key >> 6) & 0x3) as u8 <= 3) by (bit_vector);
}

/// Extracts the offset from a session key.
pub fn cipher_offset(key: u16) -> (offset: u8)
    ensures
        offset == key_offset(key),
        offset == key % 256,
{
    assert(key & 0xFF == key % 256) by (bit_vector);
    (key & 0xFF) as u8
}

/// Extracts the cipher mode from a session key.
pub fn cipher_mode(key: u16) -> (mode: u8)
    ensures
        mode == key_mode(key),
        mode == (key / 64) % 4,
        mode <= 3,
{
    assert((key >> 6) & 0x3 == (key / 64) % 4) by (bit_vector);
    ((key >> 6) & 0x3) as u8
}

} // verus!
