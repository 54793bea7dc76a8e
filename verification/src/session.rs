//! The session string of the world channel: a packed run of digits and
//! punctuation, two characters to a byte.

use crate::byte::wrap;
use vstd::prelude::*;

verus! {

/// The character behind a key: a space for 0 and 1, `-` for 2, `.` for 3,
/// and from 4 on the key added to `0x2C`, which makes 4 to 13 the digits.
pub open spec fn session_char(key: u8) -> u8 {
    if key <= 1 {
        0x20
    } else if key == 2 {
        0x2D
    } else if key == 3 {
        0x2E
    } else {
        (0x2C + key) as u8
    }
}

/// The packed byte with its shift of `0x0F` taken off.
pub open spec fn session_unshifted(byte: u8) -> u8 {
    wrap(byte - 0x0F)
}

/// The plain text of a packed session string: for every byte the character
/// of its high nibble, then the character of its low nibble, the nibbles
/// being those of the byte once unshifted.
pub open spec fn session_decrypted(packet: Seq<u8>) -> Seq<u8> {
    Seq::new(
        2 * packet.len(),
        |i: int|
            if i % 2 == 0 {
                session_char(session_unshifted(packet[i / 2]) / 16)
            } else {
                session_char(session_unshifted(packet[i / 2]) % 16)
            },
    )
}

/// Maps a key of the session string to its character.
pub fn decrypt_session_byte(key: u8) -> (c: u8)
    requires
        key <= 0xD3,
    ensures
        c == session_char(key),
{
    match key {
        0 => 0x20,
        1 => 0x20,
        2 => 0x2D,
        3 => 0x2E,
        _ => 0x2C + key,
    }
}

/// Unpacks a session string.
pub fn do_world_session_decrypt(packet: &[u8]) -> (decrypted: Vec<u8>)
    ensures
        decrypted@ == session_decrypted(packet@),
        decrypted@.len() == 2 * packet@.len(),
{
    let mut decrypted_packet: Vec<u8> = Vec::new();
    let mut i: usize = 0;
    while i < packet.len()
        invariant
            i <= packet@.len(),
            decrypted_packet@.len() == 2 * i,
            forall|j: int|
                0 <= j < 2 * i ==> decrypted_packet@[j] == session_decrypted(packet@)[j],
        decreases packet@.len() - i,
    {
        let first_byte = packet[i].wrapping_sub(0xF);
        let second_byte = first_byte & 0xF0;
        assert(first_byte & 0xF0 <= first_byte) by (bit_vector);
        let first_key = first_byte - second_byte;
        let second_key = second_byte >> 0x4;
        assert(first_byte - (first_byte & 0xF0) == first_byte % 16) by (bit_vector);
        assert((first_byte & 0xF0) >> 4 == first_byte / 16) by (bit_vector);
        decrypted_packet.push(decrypt_session_byte(second_key));
        decrypted_packet.push(decrypt_session_byte(first_key));
        i += 1;
    }
    assert(decrypted_packet@ =~= session_decrypted(packet@));
    decrypted_packet
}

/// Unpacks the session string of a world packet.
pub fn world_session_decrypt(packet: &[u8]) -> (decrypted: Vec<u8>)
    ensures
        decrypted@ == session_decrypted(packet@),
        decrypted@.len() == 2 * packet@.len(),
{
    do_world_session_decrypt(packet)
}

} // verus!
