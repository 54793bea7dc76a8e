//! Outbound world packets: inverted bytes in segments of at most 126, each
//! behind a marker that gives its length, closed by a `0xFF` sentinel.

use crate::unpack::{linear_output, run_source_len, unpacked};
use vstd::prelude::*;
use vstd::string::StringSliceAdditionalSpecFns;

verus! {

/// The most bytes one segment holds.
pub const SEGMENT_LEN: usize = 0x7E;

/// The byte that closes an encoded packet.
pub const SENTINEL: u8 = 0xFF;

/// Length of the encoding of a packet of `len` bytes: the bytes, one marker
/// for every segment begun, and the sentinel.
pub open spec fn world_encrypted_len(len: nat) -> nat {
    len + (len + 125) / 126 + 1
}

/// The marker in front of segment number `segment` of a packet of `len`
/// bytes: the number of bytes from the segment's start to the packet's end,
/// capped at 126.
pub open spec fn segment_marker(len: nat, segment: int) -> u8 {
    let remaining = len - 126 * segment;
    if remaining > 126 {
        126
    } else {
        remaining as u8
    }
}

/// The encoding of `packet`, position by position.
///
/// Output positions come in groups of 127: a marker, then up to 126 inverted
/// bytes. The byte at input index `i` lands at output index `i + i / 126 + 1`.
/// The last position holds the sentinel.
pub open spec fn world_encrypted(packet: Seq<u8>) -> Seq<u8> {
    let total = world_encrypted_len(packet.len());
    Seq::new(
        total,
        |j: int|
            if j == total - 1 {
                SENTINEL
            } else if j % 127 == 0 {
                segment_marker(packet.len(), j / 127)
            } else {
                !packet[j - j / 127 - 1]
            },
    )
}

/// The bytes of a segment as they stand in the encoding: each inverted.
pub open spec fn inverted(bytes: Seq<u8>) -> Seq<u8> {
    Seq::new(bytes.len(), |i: int| !bytes[i])
}

/// The encoding of the empty packet is the sentinel alone.
pub proof fn lemma_world_encrypted_empty()
    ensures
        world_encrypted(Seq::<u8>::empty()) == seq![SENTINEL],
{
    assert(world_encrypted(Seq::<u8>::empty()) =~= seq![SENTINEL]);
}

/// Every input byte stands inverted at output index `i + i / 126 + 1`, the
/// marker of its segment stands at the head of that segment's group of 127,
/// and the sentinel stands last.
pub proof fn lemma_world_encrypted_at(packet: Seq<u8>, i: int)
    requires
        0 <= i < packet.len(),
    ensures
        0 <= 127 * (i / 126) < i + i / 126 + 1 < world_encrypted(packet).len() - 1,
        world_encrypted(packet)[i + i / 126 + 1] == !packet[i],
        world_encrypted(packet)[127 * (i / 126)] == segment_marker(packet.len(), i / 126),
        world_encrypted(packet).last() == SENTINEL,
{
    let segment = i / 126;
    let at = i + segment + 1;
    assert(at == 127 * segment + (i % 126) + 1);
    assert(at / 127 == segment);
    assert(at % 127 == (i % 126) + 1);
    assert((127 * segment) / 127 == segment);
    assert((127 * segment) % 127 == 0);
}

/// The encoding of a packet that is not empty opens with its first segment:
/// the marker, the segment's bytes inverted, and then the encoding of the
/// bytes that follow the segment.
pub proof fn lemma_world_encrypted_segment(packet: Seq<u8>)
    requires
        packet.len() > 0,
    ensures
        ({
            let n: int = if packet.len() > 126 {
                126
            } else {
                packet.len() as int
            };
            world_encrypted(packet) == seq![n as u8] + inverted(packet.take(n)) + world_encrypted(
                packet.skip(n),
            )
        }),
{
    let n: int = if packet.len() > 126 {
        126
    } else {
        packet.len() as int
    };
    let rest = packet.skip(n);
    let whole = world_encrypted(packet);
    let joined = seq![n as u8] + inverted(packet.take(n)) + world_encrypted(rest);
    assert(whole.len() == joined.len());
    assert forall|j: int| 0 <= j < whole.len() implies whole[j] == joined[j] by {
        if j == 0 {
        } else if j <= n {
            assert(joined[j] == inverted(packet.take(n))[j - 1]);
        } else {
            let k = j - n - 1;
            assert(joined[j] == world_encrypted(rest)[k]);
            if packet.len() > 126 {
                assert(j == k + 127);
                assert(j % 127 == k % 127);
                assert(j / 127 == k / 127 + 1);
                if k != world_encrypted_len(rest.len()) - 1 && k % 127 != 0 {
                    assert(rest[k - k / 127 - 1] == packet[j - j / 127 - 1]);
                }
            }
        }
    }
    assert(whole =~= joined);
}

/// Unpacking the encoding of a packet gives the packet back: every segment
/// reads as a linear run and the sentinel as a compact run without bytes.
pub proof fn lemma_unpack_world_encrypted(packet: Seq<u8>)
    ensures
        unpacked(world_encrypted(packet)) == packet,
    decreases packet.len(),
{
    if packet.len() == 0 {
        lemma_world_encrypted_empty();
        let encoded = seq![SENTINEL];
        assert(0xFFu8 & 0x80 != 0) by (bit_vector);
        assert(encoded.skip(1).len() == 0);
        assert(run_source_len(encoded[0], 0) == 0);
        assert(encoded.skip(1).take(0).len() == 0);
        assert(unpacked(encoded.skip(1).skip(0)) =~= Seq::<u8>::empty());
        assert(unpacked(encoded) =~= Seq::<u8>::empty());
        assert(packet =~= Seq::<u8>::empty());
    } else {
        let n: int = if packet.len() > 126 {
            126
        } else {
            packet.len() as int
        };
        let header = n as u8;
        let segment = inverted(packet.take(n));
        let rest = world_encrypted(packet.skip(n));
        let encoded = seq![header] + segment + rest;
        lemma_world_encrypted_segment(packet);
        lemma_unpack_world_encrypted(packet.skip(n));
        assert(header <= 126 ==> header & 0x7F == header && header & 0x80 == 0) by (bit_vector);
        let body = encoded.skip(1);
        assert(body =~= segment + rest);
        assert(run_source_len(header, body.len()) == n);
        assert(body.take(n) =~= segment);
        assert(body.skip(n) =~= rest);
        assert forall|i: int| 0 <= i < n implies #[trigger] linear_output(segment)[i] == packet[i] by {
            let b = packet[i];
            assert((!b) ^ 0xFF == b) by (bit_vector);
        }
        assert(linear_output(segment) =~= packet.take(n));
        assert(unpacked(encoded) =~= packet.take(n) + packet.skip(n));
        assert(packet.take(n) + packet.skip(n) =~= packet);
    }
}

/// Encodes an outbound world packet.
///
/// Every input byte is emitted inverted; before each byte whose index is a
/// multiple of 126 stands a marker with the number of bytes still to come,
/// capped at 126; the sentinel closes the output, also for an empty packet.
pub fn do_world_encrypt(packet: &[u8]) -> (encrypted: Vec<u8>)
    ensures
        encrypted@ == world_encrypted(packet@),
        encrypted@.len() == world_encrypted_len(packet@.len()),
{
    let len = packet.len();
    let mut encrypted_packet: Vec<u8> = Vec::new();
    let mut i: usize = 0;
    while i < len
        invariant
            i <= len,
            len == packet@.len(),
            encrypted_packet@.len() == i + (i + 125) / 126,
            forall|j: int|
                0 <= j < encrypted_packet@.len() ==> encrypted_packet@[j] == world_encrypted(
                    packet@,
                )[j],
        decreases len - i,
    {
        if i % SEGMENT_LEN == 0 {
            let remaining: u8 = if len - i > SEGMENT_LEN {
                0x7E
            } else {
                (len - i) as u8
            };
            encrypted_packet.push(remaining);
        }
        encrypted_packet.push(!packet[i]);
        i += 1;
    }
    encrypted_packet.push(SENTINEL);
    assert(encrypted_packet@ =~= world_encrypted(packet@));
    encrypted_packet
}

/// Encodes the text of an outbound world packet.
pub fn world_encrypt(raw: &str) -> (encrypted: Vec<u8>)
    ensures
        encrypted@ == world_encrypted(raw.spec_bytes()),
{
    do_world_encrypt(raw.as_bytes())
}

} // verus!
