//! The length-prefixed wire format, stated over byte sequences.
//!
//! A frame is a 4-byte big-endian `u32` payload length followed by exactly
//! that many payload bytes.

use vstd::prelude::*;

verus! {

/// Number of bytes in the length prefix (a big-endian `u32`).
pub const LENGTH_PREFIX_LEN: usize = 4;

/// The number that the first four bytes of `b` spell in big-endian order.
pub open spec fn be_u32_value(b: Seq<u8>) -> nat
    recommends
        b.len() >= 4,
{
    (b[0] as nat) * 0x100_0000 + (b[1] as nat) * 0x1_0000 + (b[2] as nat) * 0x100 + (b[3] as nat)
}

/// The four big-endian bytes of `n` (most significant first).
pub open spec fn be_u32_bytes(n: nat) -> Seq<u8>
    recommends
        n <= u32::MAX,
{
    seq![
        (n / 0x100_0000 % 0x100) as u8,
        (n / 0x1_0000 % 0x100) as u8,
        (n / 0x100 % 0x100) as u8,
        (n % 0x100) as u8,
    ]
}

/// The bytes of one frame carrying `payload`: its length prefix, then the payload.
pub open spec fn spec_encode_frame(payload: Seq<u8>) -> Seq<u8> {
    be_u32_bytes(payload.len()) + payload
}

/// What one decoding step makes of the buffered bytes `buf` under the limit `max`:
/// - `Ok(None)`: no complete frame is buffered yet (the prefix or the payload is
///   still arriving);
/// - `Err(n)`: the prefix declares a payload of `n > max` bytes;
/// - `Ok(Some((payload, rest)))`: the first frame carries `payload`, and `rest` is
///   what follows it in the buffer.
pub open spec fn spec_decode(max: nat, buf: Seq<u8>) -> Result<Option<(Seq<u8>, Seq<u8>)>, nat> {
    if buf.len() < 4 {
        Ok(None)
    } else {
        let n = be_u32_value(buf) as int;
        if n > max {
            Err(n as nat)
        } else if buf.len() < 4 + n {
            Ok(None)
        } else {
            Ok(Some((buf.subrange(4, 4 + n), buf.skip(4 + n))))
        }
    }
}

/// The largest frame that a decoder ever has to hold: while the bytes in `buf`
/// form an accepted but incomplete frame, the whole frame must fit in an
/// allocation (at most `isize::MAX` bytes).
pub open spec fn pending_frame_fits(max: nat, buf: Seq<u8>) -> bool {
    (buf.len() >= 4 && be_u32_value(buf) <= max && buf.len() < 4 + be_u32_value(buf)) ==> 4
        + be_u32_value(buf) <= isize::MAX
}

/// The stream made of one frame per payload of `payloads`, in order.
pub open spec fn spec_encode_frames(payloads: Seq<Seq<u8>>) -> Seq<u8>
    decreases payloads.len(),
{
    if payloads.len() == 0 {
        Seq::empty()
    } else {
        spec_encode_frame(payloads[0]) + spec_encode_frames(payloads.drop_first())
    }
}

/// Reads the big-endian `u32` held in the first four bytes of `bytes`.
pub fn read_be_u32(bytes: &[u8]) -> (v: u32)
    requires
        bytes@.len() >= 4,
    ensures
        v == be_u32_value(bytes@),
{
    let b0 = bytes[0] as u32;
    let b1 = bytes[1] as u32;
    let b2 = bytes[2] as u32;
    let b3 = bytes[3] as u32;
    b0 * 0x100_0000 + b1 * 0x1_0000 + b2 * 0x100 + b3
}

/// The base-256 digits of `n`: each quotient by `0x100` splits into the next
/// quotient and a remainder, and the quotients by `0x1_0000` and `0x100_0000`
/// are the second and third of them.
proof fn lemma_base256_digits(n: nat)
    requires
        n <= u32::MAX,
    ensures
        n == (n / 0x100) * 0x100 + n % 0x100,
        n / 0x100 == (n / 0x1_0000) * 0x100 + (n / 0x100) % 0x100,
        n / 0x1_0000 == (n / 0x100_0000) * 0x100 + (n / 0x1_0000) % 0x100,
        n / 0x100_0000 < 0x100,
{
    let q1 = n / 0x100;
    let q2 = q1 / 0x100;
    let q3 = q2 / 0x100;
    assert(n / 0x1_0000 == q2) by {
        vstd::arithmetic::div_mod::lemma_div_denominator(n as int, 0x100, 0x100);
    }
    assert(n / 0x100_0000 == q3) by {
        vstd::arithmetic::div_mod::lemma_div_denominator(n as int, 0x1_0000, 0x100);
    }
}

/// The length prefix of any length that fits in a `u32` reads back as that length.
pub proof fn lemma_be_u32_round_trip(n: nat)
    requires
        n <= u32::MAX,
    ensures
        be_u32_bytes(n).len() == 4,
        be_u32_value(be_u32_bytes(n)) == n,
{
    lemma_base256_digits(n);
}

/// The prefix is big-endian: its first byte is the most significant digit of the
/// declared length and its fourth byte the least significant.
pub proof fn lemma_prefix_byte_order(b: Seq<u8>)
    requires
        b.len() >= 4,
    ensures
        be_u32_value(b) <= u32::MAX,
        be_u32_value(b) / 0x100_0000 == b[0],
        be_u32_value(b) % 0x100 == b[3],
{
}

/// Round trip: decoding the bytes of an encoded frame, followed by any `rest`,
/// gives back exactly the payload and leaves exactly `rest`, for every payload
/// within the limit (the empty payload included).
pub proof fn lemma_decode_encoded_frame(max: nat, payload: Seq<u8>, rest: Seq<u8>)
    requires
        payload.len() <= max,
        max <= u32::MAX,
    ensures
        spec_decode(max, spec_encode_frame(payload) + rest) == Ok::<Option<(Seq<u8>, Seq<u8>)>, nat>(
            Some((payload, rest)),
        ),
{
    let n = payload.len() as int;
    lemma_be_u32_round_trip(n as nat);
    let buf = spec_encode_frame(payload) + rest;
    let prefix = be_u32_bytes(n as nat);
    assert(buf[0] == prefix[0] && buf[1] == prefix[1] && buf[2] == prefix[2] && buf[3] == prefix[3]);
    assert(be_u32_value(buf) == be_u32_value(prefix));
    assert(buf.subrange(4, 4 + n) =~= payload);
    assert(buf.skip(4 + n) =~= rest);
}

/// Oversized frames are refused from their prefix alone: once the four prefix
/// bytes of a frame declaring `n > max` are buffered, decoding refuses it with
/// `n`, however many of its payload bytes (or other bytes) follow.
pub proof fn lemma_oversized_prefix_refused(max: nat, n: nat, rest: Seq<u8>)
    requires
        max < n <= u32::MAX,
    ensures
        spec_decode(max, be_u32_bytes(n) + rest) == Err::<Option<(Seq<u8>, Seq<u8>)>, nat>(n),
{
    lemma_be_u32_round_trip(n);
    let buf = be_u32_bytes(n) + rest;
    let prefix = be_u32_bytes(n);
    assert(buf[0] == prefix[0] && buf[1] == prefix[1] && buf[2] == prefix[2] && buf[3] == prefix[3]);
    assert(be_u32_value(buf) == n);
}

/// What each outcome of decoding says of the buffer: a refusal names a declared
/// length above the limit, and it comes whenever the prefix declares one; "no
/// frame yet" means the buffer is a strict prefix of a frame within the limit
/// (fewer than four bytes, or an accepted prefix whose payload is incomplete);
/// a frame is taken only when its whole payload is buffered.
pub proof fn lemma_decode_outcomes(max: nat, buf: Seq<u8>)
    ensures
        (buf.len() >= 4 && be_u32_value(buf) > max) <==> spec_decode(max, buf) is Err,
        spec_decode(max, buf) matches Err(n) ==> n == be_u32_value(buf),
        spec_decode(max, buf) == Ok::<Option<(Seq<u8>, Seq<u8>)>, nat>(None) <==> (buf.len() < 4 || (
        be_u32_value(buf) <= max && buf.len() < 4 + be_u32_value(buf))),
        spec_decode(max, buf) matches Ok(Some((payload, rest))) ==> {
            &&& buf.len() >= 4
            &&& payload.len() == be_u32_value(buf) <= max
            &&& buf.len() == 4 + payload.len() + rest.len()
        },
{
}

/// Partial frames: every strict prefix of an accepted frame decodes to "no frame
/// yet", so a decoder never yields before the last byte of a frame arrives.
pub proof fn lemma_partial_frame_incomplete(max: nat, payload: Seq<u8>, k: nat)
    requires
        payload.len() <= max,
        max <= u32::MAX,
        k < spec_encode_frame(payload).len(),
    ensures
        spec_decode(max, spec_encode_frame(payload).take(k as int)) == Ok::<
            Option<(Seq<u8>, Seq<u8>)>,
            nat,
        >(None),
{
    let n = payload.len();
    lemma_be_u32_round_trip(n);
    let frame = spec_encode_frame(payload);
    let part = frame.take(k as int);
    if k >= 4 {
        assert(part[0] == frame[0] && part[1] == frame[1] && part[2] == frame[2] && part[3]
            == frame[3]);
        assert(be_u32_value(part) == be_u32_value(be_u32_bytes(n)));
    }
}

/// Converse of the round trip: a frame that decoding yields is exactly the
/// encoding of its payload, and the buffer is that frame followed by the rest.
pub proof fn lemma_decoded_frame_is_encoding(max: nat, buf: Seq<u8>)
    requires
        max <= u32::MAX,
    ensures
        spec_decode(max, buf) matches Ok(Some((payload, rest))) ==> {
            &&& payload.len() <= max
            &&& buf == spec_encode_frame(payload) + rest
        },
{
    if let Ok(Some((payload, rest))) = spec_decode(max, buf) {
        let n = be_u32_value(buf);
        assert(payload.len() == n);
        let (b0, b1, b2, b3) = (buf[0] as nat, buf[1] as nat, buf[2] as nat, buf[3] as nat);
        lemma_base256_digits(n);
        assert(n / 0x100 == b0 * 0x1_0000 + b1 * 0x100 + b2 && n % 0x100 == b3);
        assert(n / 0x1_0000 == b0 * 0x100 + b1 && (n / 0x100) % 0x100 == b2);
        assert(n / 0x100_0000 == b0 && (n / 0x1_0000) % 0x100 == b1);
        assert(be_u32_bytes(n) =~= buf.take(4));
        assert(buf =~= spec_encode_frame(payload) + rest);
    }
}

/// Extra bytes never change a decision already made: a frame found in `buf` is
/// still found, with the new bytes behind it, and an oversized prefix is still
/// rejected.
pub proof fn lemma_decode_stable_under_extension(max: nat, buf: Seq<u8>, more: Seq<u8>)
    ensures
        spec_decode(max, buf) matches Ok(Some((payload, rest))) ==> spec_decode(max, buf + more)
            == Ok::<Option<(Seq<u8>, Seq<u8>)>, nat>(Some((payload, rest + more))),
        spec_decode(max, buf) matches Err(n) ==> spec_decode(max, buf + more) == Err::<
            Option<(Seq<u8>, Seq<u8>)>,
            nat,
        >(n),
{
    let ext = buf + more;
    if buf.len() >= 4 {
        assert(ext[0] == buf[0] && ext[1] == buf[1] && ext[2] == buf[2] && ext[3] == buf[3]);
        let n = be_u32_value(buf) as int;
        if n <= max && buf.len() >= 4 + n {
            assert(ext.subrange(4, 4 + n) =~= buf.subrange(4, 4 + n));
            assert(ext.skip(4 + n) =~= buf.skip(4 + n) + more);
        }
    }
}

/// Frames come out in order: in a stream made of one frame per payload, decoding
/// at the start of frame `i` yields payload `i` and leaves the frames after it;
/// once every frame is taken, nothing more is yielded.
pub proof fn lemma_frames_decode_in_order(max: nat, payloads: Seq<Seq<u8>>, i: int)
    requires
        max <= u32::MAX,
        forall|j: int| 0 <= j < payloads.len() ==> (#[trigger] payloads[j]).len() <= max,
        0 <= i <= payloads.len(),
    ensures
        i < payloads.len() ==> spec_decode(max, spec_encode_frames(payloads.skip(i))) == Ok::<
            Option<(Seq<u8>, Seq<u8>)>,
            nat,
        >(Some((payloads[i], spec_encode_frames(payloads.skip(i + 1))))),
        i == payloads.len() ==> spec_decode(max, spec_encode_frames(payloads.skip(i))) == Ok::<
            Option<(Seq<u8>, Seq<u8>)>,
            nat,
        >(None),
{
    let tail = payloads.skip(i);
    if i < payloads.len() {
        assert(tail[0] == payloads[i]);
        assert(tail.drop_first() =~= payloads.skip(i + 1));
        lemma_decode_encoded_frame(max, payloads[i], spec_encode_frames(payloads.skip(i + 1)));
    } else {
        assert(tail.len() == 0);
    }
}


/// What a reader does with its buffer after new bytes arrive: it decodes until no
/// whole frame is left or a frame is refused. The result is the payloads taken,
/// in order, the bytes left in the buffer, and whether a frame was refused.
pub open spec fn spec_drain(max: nat, buf: Seq<u8>) -> (Seq<Seq<u8>>, Seq<u8>, bool)
    decreases buf.len(),
{
    match spec_decode(max, buf) {
        Ok(Some((payload, rest))) => {
            let (more, left, refused) = spec_drain(max, rest);
            (seq![payload] + more, left, refused)
        },
        Ok(None) => (Seq::empty(), buf, false),
        Err(_) => (Seq::empty(), buf, true),
    }
}

/// A reader fed the reads `chunks` in turn, starting from the buffer `buf`: each
/// read is appended to the buffer, which is then drained; after a refused frame
/// nothing more is read. The result is as for [`spec_drain`], over the whole run.
pub open spec fn spec_feed(max: nat, buf: Seq<u8>, chunks: Seq<Seq<u8>>) -> (
    Seq<Seq<u8>>,
    Seq<u8>,
    bool,
)
    decreases chunks.len(),
{
    if chunks.len() == 0 {
        (Seq::empty(), buf, false)
    } else {
        let (taken, left, refused) = spec_drain(max, buf + chunks[0]);
        if refused {
            (taken, left, true)
        } else {
            let (more, rest, refused_later) = spec_feed(max, left, chunks.drop_first());
            (taken + more, rest, refused_later)
        }
    }
}

/// The frames of the first `c` payloads, followed by those of the rest, are the
/// frames of all of them.
proof fn lemma_encode_frames_split(payloads: Seq<Seq<u8>>, c: int)
    requires
        0 <= c <= payloads.len(),
    ensures
        spec_encode_frames(payloads) == spec_encode_frames(payloads.take(c)) + spec_encode_frames(
            payloads.skip(c),
        ),
    decreases c,
{
    if c == 0 {
        assert(payloads.take(0).len() == 0);
        assert(payloads.skip(0) =~= payloads);
        assert(spec_encode_frames(payloads.take(0)) + spec_encode_frames(payloads) =~= spec_encode_frames(payloads));
    } else {
        let tail = payloads.drop_first();
        lemma_encode_frames_split(tail, c - 1);
        assert(payloads.take(c)[0] == payloads[0]);
        assert(payloads.take(c).drop_first() =~= tail.take(c - 1));
        assert(tail.skip(c - 1) =~= payloads.skip(c));
        assert(spec_encode_frames(payloads.take(c)) == spec_encode_frame(payloads[0])
            + spec_encode_frames(tail.take(c - 1)));
        assert(spec_encode_frames(payloads) =~= spec_encode_frames(payloads.take(c)) + spec_encode_frames(
            payloads.skip(c),
        ));
    }
}

/// Draining after a whole accepted frame: its payload comes first, then what
/// draining the bytes after it gives.
proof fn lemma_drain_after_frame(max: nat, payload: Seq<u8>, rest: Seq<u8>)
    requires
        payload.len() <= max,
        max <= u32::MAX,
    ensures
        spec_drain(max, spec_encode_frame(payload) + rest) == (
            seq![payload] + spec_drain(max, rest).0,
            spec_drain(max, rest).1,
            spec_drain(max, rest).2,
        ),
{
    lemma_decode_encoded_frame(max, payload, rest);
}

/// The first `c + 1` payloads are the first one followed by the first `c` of the
/// others, and so are their frames.
proof fn lemma_take_one_more(payloads: Seq<Seq<u8>>, c: int)
    requires
        0 <= c < payloads.len(),
    ensures
        payloads.take(c + 1) == seq![payloads[0]] + payloads.drop_first().take(c),
        spec_encode_frames(payloads.take(c + 1)) == spec_encode_frame(payloads[0])
            + spec_encode_frames(payloads.drop_first().take(c)),
{
    assert(payloads.take(c + 1) =~= seq![payloads[0]] + payloads.drop_first().take(c));
    assert(payloads.take(c + 1)[0] == payloads[0]);
    assert(payloads.take(c + 1).drop_first() =~= payloads.drop_first().take(c));
}

/// Draining a buffer that holds the start of a stream of frames takes the first
/// `c` payloads, refuses nothing, and leaves a strict prefix of frame `c` (or
/// nothing, once every frame is taken).
proof fn lemma_drain_stream_prefix(max: nat, payloads: Seq<Seq<u8>>, buf: Seq<u8>) -> (c: int)
    requires
        max <= u32::MAX,
        forall|j: int| 0 <= j < payloads.len() ==> (#[trigger] payloads[j]).len() <= max,
        buf.len() <= spec_encode_frames(payloads).len(),
        buf == spec_encode_frames(payloads).take(buf.len() as int),
    ensures
        0 <= c <= payloads.len(),
        spec_drain(max, buf).0 == payloads.take(c),
        !spec_drain(max, buf).2,
        buf == spec_encode_frames(payloads.take(c)) + spec_drain(max, buf).1,
        c < payloads.len() ==> spec_drain(max, buf).1.len() < spec_encode_frame(payloads[c]).len(),
        c == payloads.len() ==> spec_drain(max, buf).1.len() == 0,
    decreases payloads.len(),
{
    let stream = spec_encode_frames(payloads);
    if payloads.len() == 0 {
        assert(buf.len() == 0);
        assert(payloads.take(0).len() == 0);
        assert(buf =~= spec_encode_frames(payloads.take(0)) + buf);
        0
    } else {
        let first = spec_encode_frame(payloads[0]);
        let tail = payloads.drop_first();
        assert(stream == first + spec_encode_frames(tail));
        if buf.len() < first.len() {
            assert(buf =~= first.take(buf.len() as int));
            lemma_partial_frame_incomplete(max, payloads[0], buf.len());
            assert(payloads.take(0).len() == 0);
            assert(spec_drain(max, buf).0 =~= payloads.take(0));
            assert(buf =~= spec_encode_frames(payloads.take(0)) + buf);
            0
        } else {
            let rest = buf.skip(first.len() as int);
            assert(buf =~= first + rest);
            assert(rest =~= spec_encode_frames(tail).take(rest.len() as int));
            lemma_drain_after_frame(max, payloads[0], rest);
            assert forall|j: int| 0 <= j < tail.len() implies (#[trigger] tail[j]).len() <= max by {
                assert(tail[j] == payloads[j + 1]);
            }
            let c1 = lemma_drain_stream_prefix(max, tail, rest);
            lemma_take_one_more(payloads, c1);
            assert(buf =~= spec_encode_frames(payloads.take(c1 + 1)) + spec_drain(max, buf).1);
            if c1 < tail.len() {
                assert(tail[c1] == payloads[c1 + 1]);
            }
            c1 + 1
        }
    }
}

/// One read: what feeding `chunks` gives, in terms of draining the first read and
/// feeding the others.
proof fn lemma_feed_step(max: nat, buf: Seq<u8>, chunks: Seq<Seq<u8>>)
    requires
        chunks.len() > 0,
        !spec_drain(max, buf + chunks[0]).2,
    ensures
        spec_feed(max, buf, chunks) == ({
            let d = spec_drain(max, buf + chunks[0]);
            let f = spec_feed(max, d.1, chunks.drop_first());
            (d.0 + f.0, f.1, f.2)
        }),
{
}

/// Feeding, from a buffer that holds a strict prefix of the first remaining
/// frame, reads that together complete the remaining frames yields exactly their
/// payloads, refuses nothing and ends with an empty buffer.
proof fn lemma_feed_stream(max: nat, payloads: Seq<Seq<u8>>, buf: Seq<u8>, chunks: Seq<Seq<u8>>)
    requires
        max <= u32::MAX,
        forall|j: int| 0 <= j < payloads.len() ==> (#[trigger] payloads[j]).len() <= max,
        buf + chunks.flatten() == spec_encode_frames(payloads),
        payloads.len() > 0 ==> buf.len() < spec_encode_frame(payloads[0]).len(),
        payloads.len() == 0 ==> buf.len() == 0,
    ensures
        spec_feed(max, buf, chunks) == (payloads, Seq::<u8>::empty(), false),
    decreases chunks.len(),
{
    if chunks.len() == 0 {
        assert(buf =~= spec_encode_frames(payloads));
        if payloads.len() > 0 {
            assert(spec_encode_frames(payloads) == spec_encode_frame(payloads[0])
                + spec_encode_frames(payloads.drop_first()));
        }
        assert(payloads =~= Seq::<Seq<u8>>::empty());
        assert(buf =~= Seq::<u8>::empty());
    } else {
        let now = buf + chunks[0];
        let later = chunks.drop_first().flatten();
        assert(chunks.flatten() == chunks[0] + later);
        assert(now + later =~= spec_encode_frames(payloads));
        assert(now =~= spec_encode_frames(payloads).take(now.len() as int));
        let c = lemma_drain_stream_prefix(max, payloads, now);
        let left = spec_drain(max, now).1;
        let rest = lemma_rest_of_stream(max, payloads, now, later, c);
        lemma_feed_stream(max, rest, left, chunks.drop_first());
        lemma_feed_step(max, buf, chunks);
        assert(payloads.take(c) + rest =~= payloads);
    }
}

/// After a drain has taken the first `c` payloads, the bytes left in the buffer
/// and the reads still to come are the frames of the remaining payloads.
proof fn lemma_rest_of_stream(
    max: nat,
    payloads: Seq<Seq<u8>>,
    now: Seq<u8>,
    later: Seq<u8>,
    c: int,
) -> (rest: Seq<Seq<u8>>)
    requires
        max <= u32::MAX,
        forall|j: int| 0 <= j < payloads.len() ==> (#[trigger] payloads[j]).len() <= max,
        now + later == spec_encode_frames(payloads),
        0 <= c <= payloads.len(),
        now == spec_encode_frames(payloads.take(c)) + spec_drain(max, now).1,
        c < payloads.len() ==> spec_drain(max, now).1.len() < spec_encode_frame(payloads[c]).len(),
        c == payloads.len() ==> spec_drain(max, now).1.len() == 0,
    ensures
        rest == payloads.skip(c),
        forall|j: int| 0 <= j < rest.len() ==> (#[trigger] rest[j]).len() <= max,
        spec_drain(max, now).1 + later == spec_encode_frames(rest),
        rest.len() > 0 ==> spec_drain(max, now).1.len() < spec_encode_frame(rest[0]).len(),
        rest.len() == 0 ==> spec_drain(max, now).1.len() == 0,
{
    let left = spec_drain(max, now).1;
    lemma_encode_frames_split(payloads, c);
    let rest = payloads.skip(c);
    let head = spec_encode_frames(payloads.take(c));
    assert(head + (left + later) =~= head + spec_encode_frames(rest));
    assert((head + (left + later)).skip(head.len() as int) =~= left + later);
    assert((head + spec_encode_frames(rest)).skip(head.len() as int) =~= spec_encode_frames(rest));
    assert forall|j: int| 0 <= j < rest.len() implies (#[trigger] rest[j]).len() <= max by {
        assert(rest[j] == payloads[j + c]);
    }
    if c < payloads.len() {
        assert(rest[0] == payloads[c]);
    }
    rest
}

/// Fragmentation does not matter: however a stream of accepted frames is cut
/// into reads, a reader that starts empty, appends each read and decodes until
/// no whole frame is left takes exactly the payloads, in order, refuses none,
/// and ends with an empty buffer.
pub proof fn lemma_any_fragmentation_yields_the_payloads(
    max: nat,
    payloads: Seq<Seq<u8>>,
    chunks: Seq<Seq<u8>>,
)
    requires
        max <= u32::MAX,
        forall|j: int| 0 <= j < payloads.len() ==> (#[trigger] payloads[j]).len() <= max,
        chunks.flatten() == spec_encode_frames(payloads),
    ensures
        spec_feed(max, Seq::empty(), chunks) == (payloads, Seq::<u8>::empty(), false),
{
    assert(Seq::<u8>::empty() + chunks.flatten() =~= chunks.flatten());
    if payloads.len() > 0 {
        assert(spec_encode_frame(payloads[0]).len() >= 4);
    }
    lemma_feed_stream(max, payloads, Seq::empty(), chunks);
}

} // verus!
