//! The world channel's keyed cipher: four byte transforms selected by the
//! mode of the session key and shifted by its offset, and the delimiter that
//! frames the channel's packets.

use crate::byte::wrap;
use crate::framing::{frame, next};
use crate::key::{cipher_mode, cipher_offset, key_mode, key_offset};
use vstd::prelude::*;

verus! {

/// The constant every keyed transform adds to the offset.
pub const OFFSET_BASE: u8 = 0x40;

/// The mask of the two modes that XOR.
pub const XOR_MASK: u8 = 0xC3;

/// The plain byte behind a cipher byte of the world channel.
///
/// Modes 0 and 2 subtract offset and base, modes 1 and 3 add them; modes 2
/// and 3 XOR the result with the mask. A mode above 3, which no session key
/// selects, subtracts `0x0F`.
pub open spec fn channel_plain_byte(byte: u8, mode: u8, offset: u8) -> u8 {
    if mode == 0 {
        wrap(byte - offset - OFFSET_BASE)
    } else if mode == 1 {
        wrap(byte + offset + OFFSET_BASE)
    } else if mode == 2 {
        wrap(byte - offset - OFFSET_BASE) ^ XOR_MASK
    } else if mode == 3 {
        wrap(byte + offset + OFFSET_BASE) ^ XOR_MASK
    } else {
        wrap(byte - 0x0F)
    }
}

/// The cipher byte that a peer sends for a plain byte: the transform that
/// `channel_plain_byte` undoes.
pub open spec fn channel_cipher_byte(byte: u8, mode: u8, offset: u8) -> u8 {
    if mode == 0 {
        wrap(byte + offset + OFFSET_BASE)
    } else if mode == 1 {
        wrap(byte - offset - OFFSET_BASE)
    } else if mode == 2 {
        wrap((byte ^ XOR_MASK) + offset + OFFSET_BASE)
    } else if mode == 3 {
        wrap((byte ^ XOR_MASK) - offset - OFFSET_BASE)
    } else {
        wrap(byte + 0x0F)
    }
}

/// The plain bytes behind the cipher bytes of a world packet.
pub open spec fn channel_decrypted(raw: Seq<u8>, mode: u8, offset: u8) -> Seq<u8> {
    Seq::new(raw.len(), |i: int| channel_plain_byte(raw[i], mode, offset))
}

/// The cipher bytes that a peer sends for the plain bytes of a world packet.
pub open spec fn channel_encrypted(raw: Seq<u8>, mode: u8, offset: u8) -> Seq<u8> {
    Seq::new(raw.len(), |i: int| channel_cipher_byte(raw[i], mode, offset))
}

/// The mode that shifts the other way: 0 pairs with 1, and 2 with 3.
pub open spec fn paired_mode(mode: u8) -> u8 {
    if mode == 0 {
        1
    } else if mode == 1 {
        0
    } else if mode == 2 {
        3
    } else if mode == 3 {
        2
    } else {
        mode
    }
}

/// The byte that ends a packet on the world channel: `0xFF` sent through the
/// transform of the paired mode.
pub open spec fn channel_delimiter(mode: u8, offset: u8) -> u8 {
    channel_plain_byte(0xFF, paired_mode(mode), offset)
}

/// Whether XOR with the mask and a wraparound shift may change places at
/// `byte`.
pub open spec fn xor_commutes_with_shift(byte: u8, shift: int) -> bool {
    wrap(byte + shift) ^ XOR_MASK == wrap((byte ^ XOR_MASK) + shift)
}

/// Shifting a byte one way and then the other way by the same amount, with
/// wraparound, gives the byte back.
proof fn lemma_shift_cancels(byte: u8, shift: int)
    ensures
        wrap(wrap(byte + shift) - shift) == byte,
        wrap(wrap(byte - shift) + shift) == byte,
{
}

/// Decrypting what a peer encrypted gives the plain byte back, and
/// encrypting what was decrypted gives the cipher byte back, in every mode
/// and at every offset.
pub proof fn lemma_channel_round_trip(byte: u8, mode: u8, offset: u8)
    ensures
        channel_plain_byte(channel_cipher_byte(byte, mode, offset), mode, offset) == byte,
        channel_cipher_byte(channel_plain_byte(byte, mode, offset), mode, offset) == byte,
{
    let shift = offset + OFFSET_BASE;
    let masked = byte ^ XOR_MASK;
    assert(masked ^ XOR_MASK == byte) by (bit_vector)
        requires
            masked == byte ^ XOR_MASK,
    ;
    if mode == 0 || mode == 1 {
        lemma_shift_cancels(byte, shift);
    } else if mode == 2 {
        lemma_shift_cancels(masked, shift);
        lemma_shift_cancels(byte, shift);
        let shifted = wrap(byte - shift);
        assert((shifted ^ XOR_MASK) ^ XOR_MASK == shifted) by (bit_vector);
    } else if mode == 3 {
        lemma_shift_cancels(masked, shift);
        lemma_shift_cancels(byte, shift);
        let shifted = wrap(byte + shift);
        assert((shifted ^ XOR_MASK) ^ XOR_MASK == shifted) by (bit_vector);
    } else {
        lemma_shift_cancels(byte, 0x0F);
    }
}

/// Decrypting a packet that a peer encrypted under the same mode and offset
/// gives the packet back.
pub proof fn lemma_channel_packet_round_trip(raw: Seq<u8>, mode: u8, offset: u8)
    ensures
        channel_decrypted(channel_encrypted(raw, mode, offset), mode, offset) == raw,
        channel_encrypted(channel_decrypted(raw, mode, offset), mode, offset) == raw,
{
    assert forall|i: int| 0 <= i < raw.len() implies channel_plain_byte(
        channel_cipher_byte(raw[i], mode, offset),
        mode,
        offset,
    ) == raw[i] && channel_cipher_byte(channel_plain_byte(raw[i], mode, offset), mode, offset)
        == raw[i] by {
        lemma_channel_round_trip(raw[i], mode, offset);
    }
    assert(channel_decrypted(channel_encrypted(raw, mode, offset), mode, offset) =~= raw);
    assert(channel_encrypted(channel_decrypted(raw, mode, offset), mode, offset) =~= raw);
}

/// Modes 0 and 1 undo each other at every byte and offset.
pub proof fn lemma_paired_modes_invert(byte: u8, mode: u8, offset: u8)
    requires
        mode <= 1,
    ensures
        channel_plain_byte(
            channel_plain_byte(byte, paired_mode(mode), offset),
            mode,
            offset,
        ) == byte,
        channel_cipher_byte(byte, mode, offset) == channel_plain_byte(
            byte,
            paired_mode(mode),
            offset,
        ),
{
    lemma_shift_cancels(byte, offset + OFFSET_BASE);
}

/// Modes 2 and 3 undo each other at exactly the bytes at which XOR and the
/// shift of the mode applied first may change places, and nowhere else.
pub proof fn lemma_xor_modes_invert(byte: u8, mode: u8, offset: u8)
    requires
        mode == 2 || mode == 3,
    ensures
        channel_plain_byte(channel_plain_byte(byte, paired_mode(mode), offset), mode, offset)
            == byte <==> xor_commutes_with_shift(
            byte,
            if mode == 2 {
                offset + OFFSET_BASE
            } else {
                -(offset + OFFSET_BASE)
            },
        ),
{
    let shift: int = if mode == 2 {
        offset + OFFSET_BASE
    } else {
        -(offset + OFFSET_BASE)
    };
    let sent = wrap(byte + shift) ^ XOR_MASK;
    let back = wrap(sent - shift);
    let masked = byte ^ XOR_MASK;
    assert(channel_plain_byte(byte, paired_mode(mode), offset) == sent);
    assert(channel_plain_byte(sent, mode, offset) == back ^ XOR_MASK);
    assert(back ^ XOR_MASK == byte <==> back == masked) by (bit_vector)
        requires
            masked == byte ^ XOR_MASK,
    ;
    lemma_shift_cancels(sent, -shift);
    lemma_shift_cancels(masked, shift);
    assert(back == masked <==> sent == wrap(masked + shift));
}

/// Decrypts one byte of the world channel.
pub fn decrypt_channel_byte(byte: u8, mode: u8, offset: u8) -> (plain: u8)
    ensures
        plain == channel_plain_byte(byte, mode, offset),
{
    match mode {
        0 => byte.wrapping_sub(offset).wrapping_sub(OFFSET_BASE),
        1 => byte.wrapping_add(offset).wrapping_add(OFFSET_BASE),
        2 => byte.wrapping_sub(offset).wrapping_sub(OFFSET_BASE) ^ XOR_MASK,
        3 => byte.wrapping_add(offset).wrapping_add(OFFSET_BASE) ^ XOR_MASK,
        _ => byte.wrapping_sub(0x0F),
    }
}

/// Decrypts a world packet under a given mode and offset.
pub fn do_world_channel_decrypt(raw: &[u8], mode: u8, offset: u8) -> (plain: Vec<u8>)
    ensures
        plain@ == channel_decrypted(raw@, mode, offset),
{
    let mut plain: Vec<u8> = Vec::new();
    let mut i: usize = 0;
    while i < raw.len()
        invariant
            i <= raw@.len(),
            plain@.len() == i,
            forall|j: int| 0 <= j < i ==> plain@[j] == channel_plain_byte(raw@[j], mode, offset),
        decreases raw@.len() - i,
    {
        plain.push(decrypt_channel_byte(raw[i], mode, offset));
        i += 1;
    }
    assert(plain@ =~= channel_decrypted(raw@, mode, offset));
    plain
}

/// Decrypts a world packet under the mode and offset of a session key.
pub fn world_channel_decrypt(raw: &[u8], key: u16) -> (plain: Vec<u8>)
    ensures
        plain@ == channel_decrypted(raw@, key_mode(key), key_offset(key)),
{
    do_world_channel_decrypt(raw, cipher_mode(key), cipher_offset(key))
}

/// Computes the delimiter of the world channel for an offset and a mode.
pub fn pack_delimiter(offset: u8, mode: u8) -> (delimiter: u8)
    requires
        mode <= 3,
    ensures
        delimiter == channel_delimiter(mode, offset),
{
    let paired: u8 = match mode {
        0 => 1,
        1 => 0,
        2 => 3,
        _ => 2,
    };
    decrypt_channel_byte(0xFF, paired, offset)
}

/// Cuts the first packet off a world-channel stream.
///
/// Returns the packet and the bytes after its delimiter, or `None` and the
/// whole stream when the delimiter that the key gives has not arrived yet.
pub fn world_next<'a>(raw: &'a [u8], key: u16) -> (r: (Option<&'a [u8]>, &'a [u8]))
    ensures
        match frame(raw@, channel_delimiter(key_mode(key), key_offset(key))) {
            Some((packet, remaining)) => r.0 matches Some(p) && p@ == packet && r.1@ == remaining,
            None => r.0 is None && r.1@ == raw@,
        },
{
    let delimiter = pack_delimiter(cipher_offset(key), cipher_mode(key));
    match next(raw, delimiter) {
        Some((packet, remaining)) => (Some(packet), remaining),
        None => (None, raw),
    }
}

} // verus!
