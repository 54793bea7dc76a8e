//! Delimiter framing: cutting one packet off the front of a byte stream.
//!
//! A stream carries packets that each end in a delimiter byte. [`next`] cuts
//! the stream at the first delimiter; what it returns is described by
//! [`frame`].

use vstd::prelude::*;
use vstd::slice::slice_subrange;

verus! {

/// Position of the first `delimiter` in `buffer`, or `buffer.len()` when the
/// buffer holds none.
pub open spec fn delimiter_position(buffer: Seq<u8>, delimiter: u8) -> int
    decreases buffer.len(),
{
    if buffer.len() == 0 || buffer[0] == delimiter {
        0
    } else {
        1 + delimiter_position(buffer.skip(1), delimiter)
    }
}

/// The packet at the front of `buffer` and the bytes that follow its
/// delimiter, or `None` when no delimiter has arrived yet.
pub open spec fn frame(buffer: Seq<u8>, delimiter: u8) -> Option<(Seq<u8>, Seq<u8>)> {
    let at = delimiter_position(buffer, delimiter);
    if at < buffer.len() {
        Some((buffer.take(at), buffer.skip(at + 1)))
    } else {
        None
    }
}

/// `delimiter_position` is in range, no byte before it is the delimiter, and
/// the byte at it is the delimiter whenever it lies inside the buffer.
pub proof fn lemma_delimiter_position(buffer: Seq<u8>, delimiter: u8)
    ensures
        0 <= delimiter_position(buffer, delimiter) <= buffer.len(),
        forall|j: int|
            0 <= j < delimiter_position(buffer, delimiter) ==> buffer[j] != delimiter,
        delimiter_position(buffer, delimiter) < buffer.len() ==> buffer[delimiter_position(
            buffer,
            delimiter,
        )] == delimiter,
    decreases buffer.len(),
{
    if buffer.len() == 0 || buffer[0] == delimiter {
    } else {
        let tail = buffer.skip(1);
        lemma_delimiter_position(tail, delimiter);
        let at = delimiter_position(buffer, delimiter);
        assert forall|j: int| 0 <= j < at implies buffer[j] != delimiter by {
            if j > 0 {
                assert(tail[j - 1] == buffer[j]);
            }
        }
        if at < buffer.len() {
            assert(tail[at - 1] == buffer[at]);
        }
    }
}

/// A position that holds the delimiter, with no delimiter before it, is the
/// one `delimiter_position` names.
pub proof fn lemma_delimiter_position_unique(buffer: Seq<u8>, delimiter: u8, at: int)
    requires
        0 <= at <= buffer.len(),
        forall|j: int| 0 <= j < at ==> buffer[j] != delimiter,
        at < buffer.len() ==> buffer[at] == delimiter,
    ensures
        delimiter_position(buffer, delimiter) == at,
{
    lemma_delimiter_position(buffer, delimiter);
    let found = delimiter_position(buffer, delimiter);
    if found < at {
        assert(buffer[found] != delimiter);
    } else if at < found {
        assert(buffer[at] != delimiter);
    }
}

/// A buffer without the delimiter yields no frame: the whole buffer is still
/// an incomplete packet.
pub proof fn lemma_frame_none(buffer: Seq<u8>, delimiter: u8)
    ensures
        frame(buffer, delimiter) is None <==> !buffer.contains(delimiter),
{
    lemma_delimiter_position(buffer, delimiter);
    let at = delimiter_position(buffer, delimiter);
    if at < buffer.len() {
        assert(buffer.contains(delimiter));
    } else if buffer.contains(delimiter) {
        let j = choose|j: int| 0 <= j < buffer.len() && buffer[j] == delimiter;
        assert(buffer[j] != delimiter);
    }
}

/// A payload free of the delimiter, followed by the delimiter and any rest,
/// frames as exactly that payload and that rest.
pub proof fn lemma_frame_some(payload: Seq<u8>, delimiter: u8, rest: Seq<u8>)
    requires
        !payload.contains(delimiter),
    ensures
        frame(payload + seq![delimiter] + rest, delimiter) == Some((payload, rest)),
{
    let buffer = payload + seq![delimiter] + rest;
    let at = payload.len() as int;
    assert forall|j: int| 0 <= j < at implies buffer[j] != delimiter by {
        assert(buffer[j] == payload[j]);
        assert(payload.contains(payload[j]));
    }
    assert(buffer[at] == delimiter);
    lemma_delimiter_position_unique(buffer, delimiter, at);
    assert(buffer.take(at) =~= payload);
    assert(buffer.skip(at + 1) =~= rest);
}

/// A frame's payload never holds the delimiter, and payload, delimiter and
/// remainder together are the buffer again.
pub proof fn lemma_frame_rebuilds(buffer: Seq<u8>, delimiter: u8)
    requires
        frame(buffer, delimiter) is Some,
    ensures
        ({
            let (payload, remainder) = frame(buffer, delimiter).unwrap();
            &&& !payload.contains(delimiter)
            &&& payload + seq![delimiter] + remainder == buffer
        }),
{
    lemma_delimiter_position(buffer, delimiter);
    let (payload, remainder) = frame(buffer, delimiter).unwrap();
    let at = delimiter_position(buffer, delimiter);
    if payload.contains(delimiter) {
        let j = choose|j: int| 0 <= j < payload.len() && payload[j] == delimiter;
        assert(buffer[j] == delimiter);
    }
    assert(payload + seq![delimiter] + remainder =~= buffer);
}

/// Cuts `raw` at its first `delimiter`.
///
/// Returns the bytes before the delimiter and the bytes after it; the
/// delimiter itself is dropped. Returns `None` when `raw` holds no delimiter,
/// in which case the caller keeps all of `raw` for the next read.
pub fn next<'a>(raw: &'a [u8], delimiter: u8) -> (r: Option<(&'a [u8], &'a [u8])>)
    ensures
        r is None <==> !raw@.contains(delimiter),
        match r {
            Some((packet, remaining)) => frame(raw@, delimiter) == Some((packet@, remaining@)),
            None => frame(raw@, delimiter) is None,
        },
{
    let mut i: usize = 0;
    while i < raw.len()
        invariant
            i <= raw.len(),
            forall|j: int| 0 <= j < i ==> raw@[j] != delimiter,
        decreases raw.len() - i,
    {
        if raw[i] == delimiter {
            proof {
                lemma_delimiter_position_unique(raw@, delimiter, i as int);
                lemma_frame_none(raw@, delimiter);
            }
            let packet = slice_subrange(raw, 0, i);
            let remaining = slice_subrange(raw, i + 1, raw.len());
            return Some((packet, remaining));
        }
        i += 1;
    }
    proof {
        lemma_delimiter_position_unique(raw@, delimiter, raw@.len() as int);
        lemma_frame_none(raw@, delimiter);
    }
    None
}

} // verus!
