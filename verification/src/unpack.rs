//! Channel unpacking: expanding the run-compressed payload of a world packet.
//!
//! A payload is a series of runs. Each run opens with a header byte whose low
//! seven bits are the run's length and whose high bit selects the kind:
//!
//! * a *linear* run stores `length` bytes, each inverted;
//! * a *compact* run stores `length` characters of a sixteen-character
//!   alphabet, two to a byte, high nibble first.
//!
//! A run that announces more than the payload still holds is cut short: what
//! is there is decoded and nothing is reported. Callers rely on that.

use vstd::prelude::*;

verus! {

/// The alphabet of compact runs, indexed by nibble.
pub const PERMUTATIONS: [u8; 16] = [
    0x00, 0x20, 0x2D, 0x2E, 0x30, 0x31, 0x32, 0x33, 0x34, 0x35, 0x36, 0x37, 0x38, 0x39, 0xFF, 0x00,
];

/// The length a run header announces: bytes for a linear run, characters for
/// a compact one.
pub open spec fn run_length(header: u8) -> nat {
    (header & 0x7F) as nat
}

/// Whether a run header announces a compact run.
pub open spec fn is_compact(header: u8) -> bool {
    header & 0x80 != 0
}

/// How many source bytes the run behind `header` takes when `available`
/// bytes follow the header.
pub open spec fn run_source_len(header: u8, available: nat) -> nat {
    let wanted = if is_compact(header) {
        (run_length(header) + 1) / 2
    } else {
        run_length(header)
    };
    if wanted <= available {
        wanted
    } else {
        available
    }
}

/// What a linear run yields: every source byte, inverted.
pub open spec fn linear_output(source: Seq<u8>) -> Seq<u8> {
    Seq::new(source.len(), |i: int| source[i] ^ 0xFF)
}

/// The characters one packed byte yields while `room` more characters may be
/// emitted: the high nibble's, then the low nibble's unless that nibble is
/// zero or the room is used up.
pub open spec fn packed_chars(byte: u8, room: nat) -> Seq<u8> {
    let high = PERMUTATIONS[(byte >> 4) as int];
    let low = PERMUTATIONS[(byte & 0x0F) as int];
    if room == 0 {
        Seq::empty()
    } else if room == 1 || byte & 0x0F == 0 {
        seq![high]
    } else {
        seq![high, low]
    }
}

/// What a compact run yields from its source bytes while `room` more
/// characters may be emitted.
pub open spec fn compact_output(source: Seq<u8>, room: nat) -> Seq<u8>
    decreases source.len(),
{
    if source.len() == 0 {
        Seq::empty()
    } else {
        let chars = packed_chars(source[0], room);
        chars + compact_output(source.skip(1), (room - chars.len()) as nat)
    }
}

/// What the run behind `header` yields from its source bytes.
pub open spec fn run_output(header: u8, source: Seq<u8>) -> Seq<u8> {
    if is_compact(header) {
        compact_output(source, run_length(header))
    } else {
        linear_output(source)
    }
}

/// The expansion of a whole payload, run after run.
pub open spec fn unpacked(payload: Seq<u8>) -> Seq<u8>
    decreases payload.len(),
{
    if payload.len() == 0 {
        Seq::empty()
    } else {
        let header = payload[0];
        let body = payload.skip(1);
        let taken = run_source_len(header, body.len());
        run_output(header, body.take(taken as int)) + unpacked(body.skip(taken as int))
    }
}

/// A compact run never yields more characters than it has room for.
pub proof fn lemma_compact_output_len(source: Seq<u8>, room: nat)
    ensures
        compact_output(source, room).len() <= room,
        compact_output(source, room).len() <= 2 * source.len(),
    decreases source.len(),
{
    if source.len() > 0 {
        let chars = packed_chars(source[0], room);
        lemma_compact_output_len(source.skip(1), (room - chars.len()) as nat);
    }
}

/// From fewer source bytes a compact run yields a prefix of what it yields
/// from all of them.
pub proof fn lemma_compact_output_truncated(source: Seq<u8>, room: nat, n: int)
    requires
        0 <= n <= source.len(),
    ensures
        compact_output(source.take(n), room).is_prefix_of(compact_output(source, room)),
    decreases source.len(),
{
    let short = source.take(n);
    if n == 0 {
        assert(compact_output(short, room) =~= Seq::<u8>::empty());
    } else {
        let chars = packed_chars(source[0], room);
        let left = (room - chars.len()) as nat;
        assert(short[0] == source[0]);
        assert(short.skip(1) =~= source.skip(1).take(n - 1));
        lemma_compact_output_truncated(source.skip(1), left, n - 1);
        let tail_short = compact_output(source.skip(1).take(n - 1), left);
        let tail = compact_output(source.skip(1), left);
        assert(compact_output(short, room) == chars + tail_short);
        assert(chars + tail_short =~= (chars + tail).subrange(0, (chars.len() + tail_short.len()) as int));
    }
}

/// A payload cut short unpacks to what was decoded so far: a prefix of what
/// the whole payload unpacks to.
pub proof fn lemma_unpacked_truncated(payload: Seq<u8>, n: int)
    requires
        0 <= n <= payload.len(),
    ensures
        unpacked(payload.take(n)).is_prefix_of(unpacked(payload)),
    decreases payload.len(),
{
    let short = payload.take(n);
    if n == 0 {
        assert(unpacked(short) =~= Seq::<u8>::empty());
    } else {
        let header = payload[0];
        let body = payload.skip(1);
        let taken = run_source_len(header, body.len()) as int;
        let source = body.take(taken);
        let rest = body.skip(taken);
        let whole = run_output(header, source) + unpacked(rest);
        assert(short[0] == header);
        let short_body = short.skip(1);
        assert(short_body =~= body.take(n - 1));
        let short_taken = run_source_len(header, short_body.len()) as int;
        let short_source = short_body.take(short_taken);
        let short_rest = short_body.skip(short_taken);
        if n - 1 >= taken {
            assert(short_taken == taken);
            assert(short_source =~= source);
            assert(short_rest =~= rest.take(n - 1 - taken));
            lemma_unpacked_truncated(rest, n - 1 - taken);
            let first = run_output(header, source);
            let tail = unpacked(rest.take(n - 1 - taken));
            assert(unpacked(short) == first + tail);
            assert(first + tail =~= whole.subrange(0, (first.len() + tail.len()) as int));
        } else {
            assert(short_taken == n - 1);
            assert(short_source =~= source.take(n - 1));
            assert(short_rest.len() == 0);
            assert(unpacked(short_rest) =~= Seq::<u8>::empty());
            let first = run_output(header, short_source);
            assert(unpacked(short) =~= first);
            if is_compact(header) {
                lemma_compact_output_truncated(source, run_length(header), n - 1);
            } else {
                assert(linear_output(source.take(n - 1)) =~= linear_output(source).take(n - 1));
            }
            assert(first.is_prefix_of(run_output(header, source)));
            assert(first =~= whole.subrange(0, first.len() as int));
        }
    }
}

/// Splits a run header into its length and its kind.
fn split_header(header: u8) -> (r: (u8, bool))
    ensures
        r.0 == run_length(header),
        r.0 <= 127,
        r.1 == is_compact(header),
{
    assert(header & 0x7F <= 127) by (bit_vector);
    (header & 0x7F, header & 0x80 != 0)
}

/// Appends a linear run of `len` bytes read from `payload` at `start`, or
/// what is left of it, and returns the position after the run.
fn unpack_linear(payload: &[u8], start: usize, len: u8, out: &mut Vec<u8>) -> (end: usize)
    requires
        start <= payload@.len(),
    ensures
        start <= end <= payload@.len(),
        end - start == if len <= payload@.len() - start {
            len as int
        } else {
            payload@.len() - start
        },
        final(out)@ == old(out)@ + linear_output(payload@.subrange(start as int, end as int)),
{
    let available = payload.len() - start;
    let count: usize = if (len as usize) <= available {
        len as usize
    } else {
        available
    };
    let end = start + count;
    let ghost source = payload@.subrange(start as int, end as int);
    let mut pos = start;
    while pos < end
        invariant
            start <= pos <= end <= payload@.len(),
            source == payload@.subrange(start as int, end as int),
            out@ == old(out)@ + linear_output(source).take(pos - start),
        decreases end - pos,
    {
        out.push(payload[pos] ^ 0xFF);
        pos += 1;
        assert(out@ =~= old(out)@ + linear_output(source).take(pos - start));
    }
    assert(linear_output(source).take(pos - start) =~= linear_output(source));
    end
}

/// Appends a compact run of `len` characters packed in `payload` from
/// `start`, or what is left of it, and returns the position after the run.
fn unpack_compact(payload: &[u8], start: usize, len: u8, out: &mut Vec<u8>) -> (end: usize)
    requires
        start <= payload@.len(),
        len <= 127,
    ensures
        start <= end <= payload@.len(),
        end - start == if (len + 1) / 2 <= payload@.len() - start {
            (len + 1) / 2
        } else {
            payload@.len() - start
        },
        final(out)@ == old(out)@ + compact_output(
            payload@.subrange(start as int, end as int),
            len as nat,
        ),
{
    let wanted: u8 = (len + 1) / 2;
    let ghost stop: int = if wanted <= payload@.len() - start {
        start + wanted
    } else {
        payload@.len() as int
    };
    let mut pos = start;
    let mut taken: u8 = 0;
    let mut emitted: u8 = 0;
    while emitted < len && taken < wanted && pos < payload.len()
        invariant
            len <= 127,
            wanted == (len + 1) / 2,
            start <= pos <= stop <= payload@.len(),
            stop - start <= wanted,
            stop == start + wanted || stop == payload@.len(),
            taken == pos - start,
            emitted <= 2 * taken,
            emitted <= len,
            out@ + compact_output(payload@.subrange(pos as int, stop), (len - emitted) as nat)
                == old(out)@ + compact_output(payload@.subrange(start as int, stop), len as nat),
        decreases stop - pos,
    {
        let byte = payload[pos];
        let high = byte >> 4;
        let low = byte & 0x0F;
        assert(byte >> 4 < 16) by (bit_vector);
        assert(byte & 0x0F < 16) by (bit_vector);
        let ghost source = payload@.subrange(pos as int, stop);
        let ghost room = (len - emitted) as nat;
        let ghost before = out@;
        assert(source[0] == byte);
        assert(source.skip(1) =~= payload@.subrange(pos + 1, stop));
        out.push(PERMUTATIONS[high as usize]);
        emitted += 1;
        if low != 0 && emitted < len {
            out.push(PERMUTATIONS[low as usize]);
            emitted += 1;
        }
        assert(out@ =~= before + packed_chars(byte, room));
        pos += 1;
        taken += 1;
        assert(out@ + compact_output(payload@.subrange(pos as int, stop), (len - emitted) as nat)
            =~= before + compact_output(source, room));
    }
    assert(pos == stop);
    assert(payload@.subrange(pos as int, stop).len() == 0);
    assert(out@ =~= old(out)@ + compact_output(payload@.subrange(start as int, stop), len as nat));
    pos
}

/// Expands the run-compressed payload of a world packet.
///
/// Runs are read from left to right until the payload is used up. A run cut
/// short by the end of the payload yields what its bytes give.
pub fn world_channel_unpack(payload: &[u8]) -> (out: Vec<u8>)
    ensures
        out@ == unpacked(payload@),
{
    let mut out: Vec<u8> = Vec::new();
    let mut pos: usize = 0;
    assert(payload@.skip(0) =~= payload@);
    while pos < payload.len()
        invariant
            pos <= payload@.len(),
            out@ + unpacked(payload@.skip(pos as int)) == unpacked(payload@),
        decreases payload@.len() - pos,
    {
        let ghost rest = payload@.skip(pos as int);
        let ghost before = out@;
        let (len, compact) = split_header(payload[pos]);
        let start = pos + 1;
        let end = if compact {
            unpack_compact(payload, start, len, &mut out)
        } else {
            unpack_linear(payload, start, len, &mut out)
        };
        proof {
            let header = rest[0];
            let body = rest.skip(1);
            let taken = run_source_len(header, body.len());
            assert(header == payload@[pos as int]);
            assert(end - start == taken);
            assert(body.take(taken as int) =~= payload@.subrange(start as int, end as int));
            assert(body.skip(taken as int) =~= payload@.skip(end as int));
            assert(out@ + unpacked(payload@.skip(end as int)) =~= before + unpacked(rest));
        }
        pos = end;
    }
    assert(payload@.skip(pos as int).len() == 0);
    assert(out@ =~= out@ + unpacked(payload@.skip(pos as int)));
    out
}

} // verus!
