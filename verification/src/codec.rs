//! The length-prefixed frame codec.
//!
//! Wire format: a 4-byte big-endian `u32` payload length, followed by exactly
//! that many payload bytes (see [`crate::wire`]).

use bytes::{Bytes, BytesMut};
use vstd::prelude::*;

use crate::buffers::{
    bytes_as_slice, bytes_len, bytes_mut_advance, bytes_mut_as_slice, bytes_mut_freeze,
    bytes_mut_len, bytes_mut_put_slice, bytes_mut_put_u32, bytes_mut_reserve, bytes_mut_split_to,
    bytes_mut_view, bytes_view,
};
use crate::wire::{
    pending_frame_fits, read_be_u32, spec_decode, spec_encode_frame, LENGTH_PREFIX_LEN,
};

verus! {

/// Default maximum payload size: 8 MiB. Frames larger than this are rejected
/// rather than buffered/allocated.
pub const DEFAULT_MAX_FRAME_LEN: usize = 8 * 1024 * 1024;

/// The transport's error type.
#[verifier::external_type_specification]
#[verifier::external_body]
pub struct ExIoError(std::io::Error);

/// Errors produced while encoding or decoding frames.
#[derive(Debug)]
pub enum FrameError {
    /// A frame declared (or was asked to encode) a payload larger than the
    /// configured maximum. Carries the offending length and the limit.
    FrameTooLarge { len: usize, max: usize },
    /// An error from the underlying transport.
    Io(std::io::Error),
}

/// Transport errors flow into `FrameError` without hand-wrapping.
impl From<std::io::Error> for FrameError {
    fn from(e: std::io::Error) -> (r: Self) {
        FrameError::Io(e)
    }
}

impl vstd::std_specs::convert::FromSpecImpl<std::io::Error> for FrameError {
    open spec fn obeys_from_spec() -> bool {
        true
    }

    open spec fn from_spec(e: std::io::Error) -> Self {
        FrameError::Io(e)
    }
}

/// The decimal digit for `d < 10`.
pub open spec fn decimal_digit(d: nat) -> char {
    (d + 48) as char
}

/// The decimal numeral of `n`, without leading zeros (`0` is `"0"`).
pub open spec fn decimal(n: nat) -> Seq<char>
    decreases n,
{
    if n < 10 {
        seq![decimal_digit(n)]
    } else {
        decimal(n / 10).push(decimal_digit(n % 10))
    }
}

/// `String::push`: appends the character `c`.
#[verifier::external_body]
fn string_push(s: &mut String, c: char)
    ensures
        final(s)@ == old(s)@.push(c),
{
    s.push(c)
}

/// Appends the decimal numeral of `n` to `s`.
fn push_decimal(s: &mut String, n: usize)
    ensures
        final(s)@ == old(s)@ + decimal(n as nat),
    decreases n,
{
    if n >= 10 {
        push_decimal(s, n / 10);
    }
    let digit: u8 = (n % 10) as u8;
    string_push(s, (digit + 48) as char);
    proof {
        if n < 10 {
            assert(old(s)@.push(decimal_digit(n as nat)) =~= old(s)@ + decimal(n as nat));
        } else {
            assert(old(s)@ + decimal(n as nat / 10) + seq![decimal_digit(n as nat % 10)]
                =~= old(s)@ + decimal(n as nat));
        }
    }
}

impl FrameError {
    /// The error's message: `frame of LEN bytes exceeds maximum of MAX bytes`,
    /// or `i/o error: ` followed by the transport error's own message.
    pub fn message(&self) -> (s: String)
        ensures
            self matches FrameError::FrameTooLarge { len, max } ==> s@ == "frame of "@ + decimal(
                len as nat,
            ) + " bytes exceeds maximum of "@ + decimal(max as nat) + " bytes"@,
            self matches FrameError::Io(e) ==> exists|text: String|
                vstd::string::to_string_from_display_ensures::<std::io::Error>(&e, text) && s@ == "i/o error: "@
                    + text@,
    {
        match self {
            FrameError::FrameTooLarge { len, max } => {
                let mut s = String::from_str("frame of ");
                push_decimal(&mut s, *len);
                s.append(" bytes exceeds maximum of ");
                push_decimal(&mut s, *max);
                s.append(" bytes");
                s
            },
            FrameError::Io(e) => {
                let text = e.to_string();
                let mut s = String::from_str("i/o error: ");
                s.append(text.as_str());
                s
            },
        }
    }
}

/// A length-prefixed frame codec with a configurable maximum frame size.
#[derive(Debug)]
pub struct FrameCodec {
    max_frame_len: usize,
}

impl FrameCodec {
    /// The maximum is never more than a `u32` prefix can declare.
    #[verifier::type_invariant]
    spec fn limit_fits_prefix(self) -> bool {
        self.max_frame_len <= u32::MAX
    }

    /// The configured maximum payload length, in bytes.
    pub closed spec fn limit(self) -> nat {
        self.max_frame_len as nat
    }

    /// A codec using [`DEFAULT_MAX_FRAME_LEN`].
    pub fn new() -> (codec: Self)
        ensures
            codec.limit() == DEFAULT_MAX_FRAME_LEN,
    {
        Self { max_frame_len: DEFAULT_MAX_FRAME_LEN }
    }

    /// A codec with an explicit maximum payload length.
    ///
    /// The maximum is capped at `u32::MAX` because the wire prefix is a `u32`;
    /// larger values would be unrepresentable on the wire.
    pub fn with_max_frame_len(max_frame_len: usize) -> (codec: Self)
        ensures
            codec.limit() == (if max_frame_len <= u32::MAX {
                max_frame_len as nat
            } else {
                u32::MAX as nat
            }),
    {
        let cap: usize = u32::MAX as usize;
        Self { max_frame_len: if max_frame_len <= cap { max_frame_len } else { cap } }
    }

    /// The configured maximum payload length, in bytes.
    pub fn max_frame_len(&self) -> (n: usize)
        ensures
            n == self.limit(),
            n <= u32::MAX,
    {
        proof {
            use_type_invariant(self);
        }
        self.max_frame_len
    }

    /// Takes one frame off the front of `src`, if a whole one is buffered.
    ///
    /// - Fewer bytes than a whole frame: `Ok(None)`, with `src` left as it was
    ///   (room for the missing bytes is reserved).
    /// - A prefix declaring more than the maximum: `FrameTooLarge`, before any
    ///   payload is reserved, with `src` left as it was.
    /// - Otherwise: the payload, and `src` holds what followed the frame.
    pub fn decode(&mut self, src: &mut BytesMut) -> (res: Result<Option<Bytes>, FrameError>)
        requires
            pending_frame_fits(old(self).limit(), bytes_mut_view(*old(src))),
        ensures
            *final(self) == *old(self),
            match spec_decode(old(self).limit(), bytes_mut_view(*old(src))) {
                Ok(None) => {
                    &&& res matches Ok(None)
                    &&& bytes_mut_view(*final(src)) == bytes_mut_view(*old(src))
                },
                Ok(Some((payload, rest))) => {
                    &&& res matches Ok(Some(frame)) && bytes_view(frame) == payload
                    &&& bytes_mut_view(*final(src)) == rest
                },
                Err(n) => {
                    &&& res matches Err(FrameError::FrameTooLarge { len, max }) && len == n
                        && max == old(self).limit()
                    &&& bytes_mut_view(*final(src)) == bytes_mut_view(*old(src))
                },
            },
    {
        proof {
            use_type_invariant(&*self);
        }
        let ghost buf = bytes_mut_view(*src);
        let len = bytes_mut_len(src);
        // The length prefix is not complete yet: keep what is buffered.
        if len < LENGTH_PREFIX_LEN {
            bytes_mut_reserve(src, LENGTH_PREFIX_LEN - len);
            return Ok(None);
        }
        // Peek at the prefix without consuming it.
        let payload_len = read_be_u32(bytes_mut_as_slice(src)) as usize;

        // Reject oversized frames before reserving anything for them.
        if payload_len > self.max_frame_len {
            return Err(FrameError::FrameTooLarge { len: payload_len, max: self.max_frame_len });
        }
        // The payload is still arriving: reserve room for the rest of the frame.
        // (Comparing against `len - 4` keeps the sum `4 + payload_len` out of the
        // complete case, where it cannot exceed `len` anyway.)
        if len - LENGTH_PREFIX_LEN < payload_len {
            let frame_len = LENGTH_PREFIX_LEN + payload_len;
            bytes_mut_reserve(src, frame_len - len);
            return Ok(None);
        }
        // The whole frame is buffered: drop the prefix and hand out the payload.
        bytes_mut_advance(src, LENGTH_PREFIX_LEN);
        let payload = bytes_mut_freeze(bytes_mut_split_to(src, payload_len));
        proof {
            assert(buf.skip(4).take(payload_len as int) =~= buf.subrange(4, 4 + payload_len));
            assert(buf.skip(4).skip(payload_len as int) =~= buf.skip(4 + payload_len));
        }
        Ok(Some(payload))
    }

    /// Whether `decode` may be called on `src`: a frame that is accepted but not yet
    /// complete must fit in one allocation once it has fully arrived.
    pub fn pending_frame_fits(&self, src: &BytesMut) -> (fits: bool)
        ensures
            fits == pending_frame_fits(self.limit(), bytes_mut_view(*src)),
    {
        proof {
            use_type_invariant(self);
        }
        let len = bytes_mut_len(src);
        if len < LENGTH_PREFIX_LEN {
            return true;
        }
        let payload_len = read_be_u32(bytes_mut_as_slice(src)) as usize;
        if payload_len > self.max_frame_len || len - LENGTH_PREFIX_LEN >= payload_len {
            return true;
        }
        payload_len <= (isize::MAX as usize) - LENGTH_PREFIX_LEN
    }

    /// Whether `encode` may be called with `item` and `dst`: a frame that is
    /// accepted must fit, with what `dst` already holds, in one allocation.
    pub fn encoded_frame_fits(&self, item: &Bytes, dst: &BytesMut) -> (fits: bool)
        ensures
            fits == (bytes_view(*item).len() <= self.limit() ==> bytes_mut_view(*dst).len() + 4
                + bytes_view(*item).len() <= isize::MAX),
    {
        proof {
            use_type_invariant(self);
        }
        let payload_len = bytes_len(item);
        if payload_len > self.max_frame_len {
            return true;
        }
        let limit = (isize::MAX as usize) - LENGTH_PREFIX_LEN;
        if payload_len > limit {
            return false;
        }
        bytes_mut_len(dst) <= limit - payload_len
    }

    /// Appends the frame carrying `item` to `dst`: the 4-byte big-endian length,
    /// then the payload. A payload over the maximum is refused with
    /// `FrameTooLarge` and `dst` is left as it was.
    pub fn encode(&mut self, item: Bytes, dst: &mut BytesMut) -> (res: Result<(), FrameError>)
        requires
            bytes_view(item).len() <= old(self).limit() ==> bytes_mut_view(*old(dst)).len() + 4
                + bytes_view(item).len() <= isize::MAX,
        ensures
            *final(self) == *old(self),
            bytes_view(item).len() > old(self).limit() ==> {
                &&& res matches Err(FrameError::FrameTooLarge { len, max }) && len == bytes_view(
                    item,
                ).len() && max == old(self).limit()
                &&& bytes_mut_view(*final(dst)) == bytes_mut_view(*old(dst))
            },
            bytes_view(item).len() <= old(self).limit() ==> {
                &&& res is Ok
                &&& bytes_mut_view(*final(dst)) == bytes_mut_view(*old(dst)) + spec_encode_frame(
                    bytes_view(item),
                )
            },
    {
        proof {
            use_type_invariant(&*self);
        }
        let payload_len = bytes_len(&item);
        if payload_len > self.max_frame_len {
            return Err(FrameError::FrameTooLarge { len: payload_len, max: self.max_frame_len });
        }
        // Reserve once for prefix + payload to avoid repeated buffer growth.
        bytes_mut_reserve(dst, LENGTH_PREFIX_LEN + payload_len);
        // The cast keeps the value: `payload_len <= max_frame_len <= u32::MAX`.
        bytes_mut_put_u32(dst, payload_len as u32);
        bytes_mut_put_slice(dst, bytes_as_slice(&item));
        Ok(())
    }
}

impl Clone for FrameCodec {
    fn clone(&self) -> (codec: Self)
        ensures
            codec == *self,
    {
        proof {
            use_type_invariant(self);
        }
        Self { max_frame_len: self.max_frame_len }
    }
}

impl Default for FrameCodec {
    fn default() -> (codec: Self)
        ensures
            codec.limit() == DEFAULT_MAX_FRAME_LEN,
    {
        Self::new()
    }
}

} // verus!
