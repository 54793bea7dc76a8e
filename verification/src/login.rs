//! The login channel: a fixed, keyless byte cipher and a fixed delimiter.

use crate::byte::wrap;
use crate::framing::{frame, next};
use crate::text::{text_from_bytes, DecodeError};
use vstd::prelude::*;
use vstd::string::StringSliceAdditionalSpecFns;
use vstd::utf8::{decode_utf8, valid_utf8};

verus! {

/// The byte that ends a packet on the login channel.
pub const LOGIN_SEPARATOR: u8 = 0xD8;

/// The cipher byte sent for a plain byte: the byte plus `0x0F`.
pub open spec fn login_encrypted_byte(byte: u8) -> u8 {
    wrap(byte + 0x0F)
}

/// The plain byte read from a cipher byte: the byte minus `0x0F`, then XORed
/// with `0xC3`.
pub open spec fn login_decrypted_byte(byte: u8) -> u8 {
    wrap(byte - 0x0F) ^ 0xC3
}

/// The cipher bytes sent for a plain text.
pub open spec fn login_encrypted(raw: Seq<u8>) -> Seq<u8> {
    Seq::new(raw.len(), |i: int| login_encrypted_byte(raw[i]))
}

/// The plain bytes read from a received cipher text.
pub open spec fn login_decrypted(raw: Seq<u8>) -> Seq<u8> {
    Seq::new(raw.len(), |i: int| login_decrypted_byte(raw[i]))
}

/// Decrypting what was encrypted XORs every byte with `0xC3`: the two
/// directions of the login channel use different ciphers, so the round trip
/// gives the input back for the empty text only.
pub proof fn lemma_login_round_trip(raw: Seq<u8>)
    ensures
        login_decrypted(login_encrypted(raw)).len() == raw.len(),
        forall|i: int|
            0 <= i < raw.len() ==> #[trigger] login_decrypted(login_encrypted(raw))[i] == raw[i]
                ^ 0xC3,
        login_decrypted(login_encrypted(raw)) == raw <==> raw.len() == 0,
{
    let back = login_decrypted(login_encrypted(raw));
    assert forall|i: int| 0 <= i < raw.len() implies #[trigger] back[i] == raw[i] ^ 0xC3 by {
        assert(wrap(wrap(raw[i] + 0x0F) - 0x0F) == raw[i]);
    }
    if raw.len() == 0 {
        assert(back =~= raw);
    } else {
        let b = raw[0];
        assert(b ^ 0xC3 != b) by (bit_vector);
        assert(back[0] != raw[0]);
    }
}

/// Encrypts the bytes of an outbound login packet.
pub fn do_login_encrypt(raw: &[u8]) -> (encrypted: Vec<u8>)
    ensures
        encrypted@ == login_encrypted(raw@),
{
    let mut encrypted: Vec<u8> = Vec::new();
    let mut i: usize = 0;
    while i < raw.len()
        invariant
            i <= raw@.len(),
            encrypted@.len() == i,
            forall|j: int| 0 <= j < i ==> encrypted@[j] == login_encrypted_byte(raw@[j]),
        decreases raw@.len() - i,
    {
        encrypted.push(raw[i].wrapping_add(0xF));
        i += 1;
    }
    assert(encrypted@ =~= login_encrypted(raw@));
    encrypted
}

/// Decrypts the bytes of an inbound login packet.
pub fn do_login_decrypt(raw: &[u8]) -> (decrypted: Vec<u8>)
    ensures
        decrypted@ == login_decrypted(raw@),
{
    let mut decrypted: Vec<u8> = Vec::new();
    let mut i: usize = 0;
    while i < raw.len()
        invariant
            i <= raw@.len(),
            decrypted@.len() == i,
            forall|j: int| 0 <= j < i ==> decrypted@[j] == login_decrypted_byte(raw@[j]),
        decreases raw@.len() - i,
    {
        decrypted.push(raw[i].wrapping_sub(0xF) ^ 0xC3);
        i += 1;
    }
    assert(decrypted@ =~= login_decrypted(raw@));
    decrypted
}

/// Cuts the first packet off a login-channel stream.
///
/// Returns the packet and the bytes after its delimiter, or `None` and the
/// whole stream when no delimiter has arrived yet.
pub fn login_next<'a>(raw: &'a [u8]) -> (r: (Option<&'a [u8]>, &'a [u8]))
    ensures
        match frame(raw@, LOGIN_SEPARATOR) {
            Some((packet, remaining)) => r.0 matches Some(p) && p@ == packet && r.1@ == remaining,
            None => r.0 is None && r.1@ == raw@,
        },
{
    match next(raw, LOGIN_SEPARATOR) {
        Some((packet, remaining)) => (Some(packet), remaining),
        None => (None, raw),
    }
}

/// Encrypts the text of an outbound login packet.
pub fn login_encrypt(raw: &str) -> (encrypted: Vec<u8>)
    ensures
        encrypted@ == login_encrypted(raw.spec_bytes()),
{
    do_login_encrypt(raw.as_bytes())
}

/// Decrypts an inbound login packet into text.
///
/// Fails when the decrypted bytes are not valid UTF-8, and only then.
pub fn login_decrypt(raw: &[u8]) -> (r: Result<String, DecodeError>)
    ensures
        r is Ok <==> valid_utf8(login_decrypted(raw@)),
        r matches Ok(text) ==> text@ == decode_utf8(login_decrypted(raw@)),
        r matches Err(e) ==> e == DecodeError::InvalidUtf8,
{
    text_from_bytes(do_login_decrypt(raw))
}

} // verus!
