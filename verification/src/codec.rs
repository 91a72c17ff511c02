//! Frame encoding and decoding for the streaming `ush exec` protocol.
//!
//! Two framings are supported: JSON, where each serialized frame is followed
//! by a newline, and MessagePack, where each serialized frame is preceded by
//! its length as a 4-byte big-endian unsigned integer. The serialization of a
//! frame into its payload bytes happens outside this module; the encoder and
//! decoder here own the framing of those payloads on the byte stream.
use vstd::prelude::*;
use crate::text;

verus! {

/// The largest payload, in bytes, that the decoder accepts.
pub const MAX_FRAME_SIZE: usize = 16777216;

/// The framing of an output stream.
#[derive(Clone, Copy, Debug, PartialEq, Eq, Structural)]
pub enum Format {
    Json,
    Msgpack,
}

/// The four big-endian bytes of `n`.
pub open spec fn be_bytes(n: u32) -> Seq<u8> {
    seq![
        (n / 0x1000000) as u8,
        (n / 0x10000 % 0x100) as u8,
        (n / 0x100 % 0x100) as u8,
        (n % 0x100) as u8,
    ]
}

/// The number whose big-endian representation is the first four bytes of `b`.
pub open spec fn be_value(b: Seq<u8>) -> nat
    recommends
        b.len() >= 4,
{
    (b[0] as nat) * 0x1000000 + (b[1] as nat) * 0x10000 + (b[2] as nat) * 0x100 + (b[3] as nat)
}

/// The length prefix written for a payload of `len` bytes: `len` reduced to 32 bits.
pub open spec fn length_prefix(len: nat) -> u32 {
    (len % 0x100000000) as u32
}

/// The bytes that frame one payload in the given format.
pub open spec fn frame_bytes(format: Format, payload: Seq<u8>) -> Seq<u8> {
    match format {
        Format::Json => payload.push(10u8),
        Format::Msgpack => be_bytes(length_prefix(payload.len())) + payload,
    }
}

/// The bytes of a stream holding the given payloads, framed one after another.
pub open spec fn frame_stream(format: Format, payloads: Seq<Seq<u8>>) -> Seq<u8>
    decreases payloads.len(),
{
    if payloads.len() == 0 {
        seq![]
    } else {
        frame_stream(format, payloads.drop_last()) + frame_bytes(format, payloads.last())
    }
}

/// Encodes frames into an output buffer that the caller drains with [`Encoder::flush`].
pub struct Encoder {
    pending: Vec<u8>,
    format: Format,
}

impl Encoder {
    /// The format this encoder frames with.
    pub closed spec fn spec_format(&self) -> Format {
        self.format
    }

    /// The bytes written and not yet flushed.
    pub closed spec fn pending(&self) -> Seq<u8> {
        self.pending@
    }

    pub fn new(format: Format) -> (e: Encoder)
        ensures
            e.spec_format() == format,
            e.pending() == Seq::<u8>::empty(),
    {
        Encoder { pending: Vec::new(), format }
    }

    /// The format this encoder frames with.
    pub fn format(&self) -> (f: Format)
        ensures
            f == self.spec_format(),
    {
        self.format
    }

    fn write_framed(&mut self, payload: &[u8])
        ensures
            final(self).spec_format() == old(self).spec_format(),
            final(self).pending() == old(self).pending() + frame_bytes(
                old(self).spec_format(),
                payload@,
            ),
    {
        let ghost start = self.pending@;
        match self.format {
            Format::Json => {
                append_bytes(&mut self.pending, payload);
                self.pending.push(10u8);
                assert(self.pending@ == start + payload@.push(10u8));
            },
            Format::Msgpack => {
                let len = length_of(payload.len());
                let header = be_bytes_of(len);
                append_bytes(&mut self.pending, &header);
                append_bytes(&mut self.pending, payload);
                assert(self.pending@ == start + (be_bytes(length_prefix(payload@.len())) + payload@));
            },
        }
    }

    /// Frames a serialized streaming frame onto the output.
    pub fn write_frame(&mut self, payload: &[u8])
        ensures
            final(self).spec_format() == old(self).spec_format(),
            final(self).pending() == old(self).pending() + frame_bytes(
                old(self).spec_format(),
                payload@,
            ),
    {
        self.write_framed(payload);
    }

    /// Frames a serialized legacy result onto the output.
    pub fn write_legacy(&mut self, payload: &[u8])
        ensures
            final(self).spec_format() == old(self).spec_format(),
            final(self).pending() == old(self).pending() + frame_bytes(
                old(self).spec_format(),
                payload@,
            ),
    {
        self.write_framed(payload);
    }

    /// Hands out every byte written since the last flush, leaving none pending.
    pub fn flush(&mut self) -> (out: Vec<u8>)
        ensures
            out@ == old(self).pending(),
            final(self).pending() == Seq::<u8>::empty(),
            final(self).spec_format() == old(self).spec_format(),
    {
        let mut out = Vec::new();
        std::mem::swap(&mut out, &mut self.pending);
        out
    }
}

fn append_bytes(v: &mut Vec<u8>, b: &[u8])
    ensures
        final(v)@ == old(v)@ + b@,
{
    let ghost start = v@;
    let mut i: usize = 0;
    while i < b.len()
        invariant
            i <= b.len(),
            v@ == start + b@.take(i as int),
        decreases b.len() - i,
    {
        v.push(b[i]);
        i = i + 1;
        assert(b@.take(i as int) == b@.take(i - 1).push(b@[i - 1]));
    }
    assert(b@.take(b.len() as int) == b@);
}

fn length_of(len: usize) -> (n: u32)
    ensures
        n == length_prefix(len as nat),
{
    ((len as u64) % 0x100000000) as u32
}

fn be_bytes_of(n: u32) -> (b: [u8; 4])
    ensures
        b@ == be_bytes(n),
{
    let b = [
        (n / 0x1000000) as u8,
        (n / 0x10000 % 0x100) as u8,
        (n / 0x100 % 0x100) as u8,
        (n % 0x100) as u8,
    ];
    assert(b@ =~= be_bytes(n));
    b
}

/// Why the decoder could not produce a frame.
#[derive(Clone, Copy, Debug, PartialEq, Eq, Structural)]
pub enum DecodeError {
    /// The length prefix announced more than [`MAX_FRAME_SIZE`] bytes.
    FrameTooLarge(usize),
    /// The stream ended inside a frame's payload.
    Truncated,
}

/// The message that describes a [`DecodeError`]: the refused length and the limit,
/// or, for a stream that ends inside a payload, the text std gives `read_exact`'s
/// unexpected end.
pub open spec fn decode_error_text(e: DecodeError) -> Seq<char> {
    match e {
        DecodeError::FrameTooLarge(n) => "frame length "@ + text::decimal(n as nat) + " exceeds maximum 16777216"@,
        DecodeError::Truncated => "failed to fill whole buffer"@,
    }
}

impl DecodeError {
    /// The message that describes this error.
    pub fn message(&self) -> (s: String)
        ensures
            s@ == decode_error_text(*self),
    {
        match self {
            DecodeError::FrameTooLarge(n) => {
                let mut s = text::string_from("frame length ");
                text::push_decimal(&mut s, *n as u128);
                text::push_str(&mut s, " exceeds maximum 16777216");
                s
            },
            DecodeError::Truncated => text::string_from("failed to fill whole buffer"),
        }
    }
}

/// The outcome of decoding at the front of a byte stream.
pub enum DecodeStep {
    /// Fewer than four bytes remain: the stream has ended.
    End,
    /// A frame with this payload, followed by this many bytes of the stream.
    Frame(Seq<u8>, nat),
    /// The length prefix exceeds the limit.
    TooLarge(nat),
    /// The payload runs past the end of the stream.
    Truncated,
}

/// What the decoder reads from the front of `rest`.
pub open spec fn decode_step(rest: Seq<u8>) -> DecodeStep {
    if rest.len() < 4 {
        DecodeStep::End
    } else {
        let len = be_value(rest);
        if len > MAX_FRAME_SIZE {
            DecodeStep::TooLarge(len)
        } else if rest.len() - 4 < len {
            DecodeStep::Truncated
        } else {
            DecodeStep::Frame(rest.subrange(4, 4 + len as int), (rest.len() - 4 - len) as nat)
        }
    }
}

/// The payloads read one after another from `rest` until the stream ends or
/// a read fails, and whether it ended cleanly.
pub open spec fn decode_all(rest: Seq<u8>) -> (Seq<Seq<u8>>, bool)
    decreases rest.len(),
{
    match decode_step(rest) {
        DecodeStep::End => (seq![], true),
        DecodeStep::Frame(p, left) => {
            if left < rest.len() {
                let (more, clean) = decode_all(rest.skip(rest.len() - left));
                (seq![p] + more, clean)
            } else {
                (seq![p], false)
            }
        },
        _ => (seq![], false),
    }
}

/// Decodes length-prefixed frames from an input stream.
pub struct Decoder {
    input: Vec<u8>,
    pos: usize,
}

impl Decoder {
    /// The part of the input not yet consumed.
    pub closed spec fn remaining(&self) -> Seq<u8> {
        self.input@.skip(self.pos as int)
    }

    #[verifier::type_invariant]
    closed spec fn wf(&self) -> bool {
        self.pos <= self.input@.len()
    }

    pub fn new(inner: Vec<u8>) -> (d: Decoder)
        ensures
            d.remaining() == inner@,
    {
        let d = Decoder { input: inner, pos: 0 };
        assert(d.input@.skip(0) == d.input@);
        d
    }

    /// Reads the next frame's payload. Returns `Ok(None)` at the end of the stream.
    pub fn read_frame(&mut self) -> (r: Result<Option<Vec<u8>>, DecodeError>)
        ensures
            Self::read_matches(old(self).remaining(), final(self).remaining(), r),
    {
        self.read_payload()
    }

    /// Reads the next legacy result's payload. Returns `Ok(None)` at the end of the stream.
    pub fn read_legacy(&mut self) -> (r: Result<Option<Vec<u8>>, DecodeError>)
        ensures
            Self::read_matches(old(self).remaining(), final(self).remaining(), r),
    {
        self.read_payload()
    }

    /// How one read relates the stream before, the stream after and the result.
    pub open spec fn read_matches(
        before: Seq<u8>,
        after: Seq<u8>,
        r: Result<Option<Vec<u8>>, DecodeError>,
    ) -> bool {
        match decode_step(before) {
            DecodeStep::End => r == Ok::<Option<Vec<u8>>, DecodeError>(None) && after
                == Seq::<u8>::empty(),
            DecodeStep::Frame(p, left) => r matches Ok(Some(v)) && v@ == p && after == before.skip(
                before.len() - left,
            ),
            DecodeStep::TooLarge(len) => r == Err::<Option<Vec<u8>>, DecodeError>(
                DecodeError::FrameTooLarge(len as usize),
            ) && after == before.skip(4),
            DecodeStep::Truncated => r == Err::<Option<Vec<u8>>, DecodeError>(
                DecodeError::Truncated,
            ) && after == Seq::<u8>::empty(),
        }
    }

    fn read_payload(&mut self) -> (r: Result<Option<Vec<u8>>, DecodeError>)
        ensures
            Self::read_matches(old(self).remaining(), final(self).remaining(), r),
    {
        proof {
            use_type_invariant(&*self);
        }
        let ghost before = self.input@.skip(self.pos as int);
        let avail = self.input.len() - self.pos;
        if avail < 4 {
            self.pos = self.input.len();
            assert(self.input@.skip(self.pos as int) =~= Seq::<u8>::empty());
            return Ok(None);
        }
        let p = self.pos;
        let len: usize = (self.input[p] as usize) * 0x1000000 + (self.input[p + 1] as usize)
            * 0x10000 + (self.input[p + 2] as usize) * 0x100 + (self.input[p + 3] as usize);
        assert(len == be_value(before));
        if len > MAX_FRAME_SIZE {
            self.pos = p + 4;
            assert(self.input@.skip(self.pos as int) =~= before.skip(4));
            return Err(DecodeError::FrameTooLarge(len));
        }
        if avail - 4 < len {
            self.pos = self.input.len();
            assert(self.input@.skip(self.pos as int) =~= Seq::<u8>::empty());
            return Err(DecodeError::Truncated);
        }
        let mut payload: Vec<u8> = Vec::new();
        let mut i: usize = 0;
        while i < len
            invariant
                i <= len,
                p + 4 + len <= self.input.len(),
                before == self.input@.skip(p as int),
                payload@ == self.input@.subrange(p + 4, p + 4 + i),
            decreases len - i,
        {
            payload.push(self.input[p + 4 + i]);
            i = i + 1;
            assert(payload@ =~= self.input@.subrange(p + 4, p + 4 + i));
        }
        self.pos = p + 4 + len;
        assert(payload@ =~= before.subrange(4, 4 + len as int));
        assert(self.input@.skip(self.pos as int) =~= before.skip(before.len() - (before.len() - 4
            - len)));
        Ok(Some(payload))
    }
}

proof fn lemma_be_roundtrip(n: u32)
    ensures
        be_value(be_bytes(n)) == n,
{
    let b = be_bytes(n);
    assert(b[0] as nat == n / 0x1000000);
    assert(b[1] as nat == n / 0x10000 % 0x100);
    assert(b[2] as nat == n / 0x100 % 0x100);
    assert(b[3] as nat == n % 0x100);
    assert((n / 0x1000000) * 0x1000000 + (n / 0x10000 % 0x100) * 0x10000 + (n / 0x100 % 0x100)
        * 0x100 + n % 0x100 == n) by (nonlinear_arith);
}

/// A MessagePack frame is the payload's length as a 4-byte big-endian number
/// (most significant byte first, weights 2^24, 2^16, 2^8, 1), then the payload.
pub proof fn lemma_msgpack_prefix(payload: Seq<u8>)
    requires
        payload.len() < 0x1_0000_0000,
    ensures
        ({
            let f = frame_bytes(Format::Msgpack, payload);
            &&& f.len() == 4 + payload.len()
            &&& (f[0] as nat) * 16777216 + (f[1] as nat) * 65536 + (f[2] as nat) * 256 + (f[3] as nat)
                == payload.len()
            &&& f.subrange(4, f.len() as int) == payload
        }),
{
    let n = length_prefix(payload.len());
    assert(n == payload.len());
    lemma_be_roundtrip(n);
    let f = frame_bytes(Format::Msgpack, payload);
    assert(f.subrange(4, f.len() as int) =~= payload);
}

/// The decoder reads the first four bytes as a big-endian length (weights 2^24,
/// 2^16, 2^8, 1): a length over the limit is refused, a payload running past the
/// end is truncated, and otherwise the frame is the next that many bytes.
pub proof fn lemma_decode_reads_big_endian(rest: Seq<u8>)
    requires
        rest.len() >= 4,
    ensures
        ({
            let len = (rest[0] as nat) * 16777216 + (rest[1] as nat) * 65536 + (rest[2] as nat) * 256
                + (rest[3] as nat);
            &&& len > MAX_FRAME_SIZE ==> decode_step(rest) == DecodeStep::TooLarge(len)
            &&& len <= MAX_FRAME_SIZE && rest.len() - 4 < len ==> decode_step(rest) == DecodeStep::Truncated
            &&& len <= MAX_FRAME_SIZE && rest.len() - 4 >= len ==> decode_step(rest) == DecodeStep::Frame(
                rest.subrange(4, 4 + len as int),
                (rest.len() - 4 - len) as nat,
            )
        }),
{
}

/// Fewer than four bytes left is the end of the stream.
pub proof fn lemma_decode_end(rest: Seq<u8>)
    requires
        rest.len() < 4,
    ensures
        decode_step(rest) == DecodeStep::End,
{
}

/// Reading a MessagePack-framed payload that fits the limit gives back that
/// payload and leaves exactly the bytes that followed it.
pub proof fn lemma_decode_frame(payload: Seq<u8>, rest: Seq<u8>)
    requires
        payload.len() <= MAX_FRAME_SIZE,
    ensures
        decode_step(frame_bytes(Format::Msgpack, payload) + rest) == DecodeStep::Frame(
            payload,
            rest.len(),
        ),
{
    let s = frame_bytes(Format::Msgpack, payload) + rest;
    let n = length_prefix(payload.len());
    assert(n == payload.len());
    lemma_be_roundtrip(n);
    assert(s.subrange(0, 4) =~= be_bytes(n));
    assert(be_value(s) == be_value(be_bytes(n)));
    assert(s.subrange(4, 4 + payload.len() as int) =~= payload);
}

/// Decoding a MessagePack stream written by the encoder gives back every
/// payload, in order, and then ends cleanly, provided each payload fits the
/// decoder's limit.
pub proof fn lemma_msgpack_roundtrip(payloads: Seq<Seq<u8>>)
    requires
        forall|i: int| 0 <= i < payloads.len() ==> (#[trigger] payloads[i]).len() <= MAX_FRAME_SIZE,
    ensures
        decode_all(frame_stream(Format::Msgpack, payloads)) == (payloads, true),
{
    lemma_frame_stream_front(Format::Msgpack, payloads);
    lemma_frames_from(payloads);
}

/// The stream framing `payloads`, built from the first payload onward.
pub open spec fn frames_from(format: Format, payloads: Seq<Seq<u8>>) -> Seq<u8>
    decreases payloads.len(),
{
    if payloads.len() == 0 {
        seq![]
    } else {
        frame_bytes(format, payloads[0]) + frames_from(format, payloads.drop_first())
    }
}

proof fn lemma_frame_stream_front(format: Format, payloads: Seq<Seq<u8>>)
    ensures
        frame_stream(format, payloads) == frames_from(format, payloads),
    decreases payloads.len(),
{
    if payloads.len() > 0 {
        lemma_frame_stream_front(format, payloads.drop_last());
        if payloads.len() == 1 {
            assert(payloads.drop_last() =~= Seq::<Seq<u8>>::empty());
            assert(payloads.drop_first() =~= Seq::<Seq<u8>>::empty());
            assert(frames_from(format, payloads) =~= frame_bytes(format, payloads[0]));
        } else {
            lemma_frame_stream_front(format, payloads.drop_first());
            lemma_frame_stream_front(format, payloads.drop_first().drop_last());
            assert(payloads.drop_last().drop_first() =~= payloads.drop_first().drop_last());
            assert(payloads.drop_last()[0] == payloads[0]);
            assert(payloads.drop_first().last() == payloads.last());
            assert(frames_from(format, payloads.drop_last()) == frame_bytes(format, payloads[0])
                + frames_from(format, payloads.drop_last().drop_first()));
            assert(frames_from(format, payloads.drop_first()) == frame_stream(
                format,
                payloads.drop_first().drop_last(),
            ) + frame_bytes(format, payloads.last()));
            assert(frames_from(format, payloads) =~= frame_stream(format, payloads));
        }
    }
}

proof fn lemma_frames_from(payloads: Seq<Seq<u8>>)
    requires
        forall|i: int| 0 <= i < payloads.len() ==> (#[trigger] payloads[i]).len() <= MAX_FRAME_SIZE,
    ensures
        decode_all(frames_from(Format::Msgpack, payloads)) == (payloads, true),
    decreases payloads.len(),
{
    if payloads.len() == 0 {
        assert(decode_step(Seq::<u8>::empty()) == DecodeStep::End);
        assert(payloads =~= Seq::<Seq<u8>>::empty());
    } else {
        let p = payloads[0];
        let rest = frames_from(Format::Msgpack, payloads.drop_first());
        assert forall|i: int| 0 <= i < payloads.drop_first().len() implies (
        #[trigger] payloads.drop_first()[i]).len() <= MAX_FRAME_SIZE by {
            assert(payloads.drop_first()[i] == payloads[i + 1]);
        }
        lemma_frames_from(payloads.drop_first());
        lemma_decode_frame(p, rest);
        let s = frames_from(Format::Msgpack, payloads);
        assert(s == frame_bytes(Format::Msgpack, p) + rest);
        let fb = frame_bytes(Format::Msgpack, p);
        assert(fb.len() == 4 + p.len());
        assert(s.skip(s.len() - rest.len()) =~= rest);
        assert(seq![p] + payloads.drop_first() =~= payloads);
    }
}

/// The position of the first newline byte of `s`, if any.
pub open spec fn first_newline(s: Seq<u8>) -> Option<nat>
    decreases s.len(),
{
    if s.len() == 0 {
        None
    } else if s[0] == 10 {
        Some(0)
    } else {
        match first_newline(s.drop_first()) {
            Some(k) => Some(k + 1),
            None => None,
        }
    }
}

/// The newline-terminated lines of `s`, without their newlines; an unterminated
/// tail is not a line.
pub open spec fn json_lines(s: Seq<u8>) -> Seq<Seq<u8>>
    decreases s.len(),
{
    match first_newline(s) {
        None => seq![],
        Some(k) => {
            if k < s.len() {
                seq![s.take(k as int)] + json_lines(s.skip(k + 1int))
            } else {
                seq![]
            }
        },
    }
}

proof fn lemma_first_newline_after(p: Seq<u8>, rest: Seq<u8>)
    requires
        !p.contains(10u8),
    ensures
        first_newline(p.push(10u8) + rest) == Some(p.len()),
    decreases p.len(),
{
    let s = p.push(10u8) + rest;
    if p.len() > 0 {
        assert(s[0] == p[0]);
        assert(s.drop_first() =~= p.drop_first().push(10u8) + rest);
        assert(!p.drop_first().contains(10u8)) by {
            if p.drop_first().contains(10u8) {
                let k = choose|k: int| 0 <= k < p.drop_first().len() && p.drop_first()[k] == 10u8;
                assert(p[k + 1] == 10u8);
            }
        }
        assert(p[0] != 10u8) by {
            if p[0] == 10u8 {
                assert(p.contains(10u8));
            }
        }
        lemma_first_newline_after(p.drop_first(), rest);
    } else {
        assert(s[0] == 10u8);
    }
}

/// Splitting a JSON stream written by the encoder at its newlines gives back every
/// payload, in order, provided no payload holds a newline byte (serialized JSON
/// holds none).
pub proof fn lemma_json_lines_roundtrip(payloads: Seq<Seq<u8>>)
    requires
        forall|i: int| 0 <= i < payloads.len() ==> !(#[trigger] payloads[i]).contains(10u8),
    ensures
        json_lines(frame_stream(Format::Json, payloads)) == payloads,
{
    lemma_frame_stream_front(Format::Json, payloads);
    lemma_json_lines_from(payloads);
}

proof fn lemma_json_lines_from(payloads: Seq<Seq<u8>>)
    requires
        forall|i: int| 0 <= i < payloads.len() ==> !(#[trigger] payloads[i]).contains(10u8),
    ensures
        json_lines(frames_from(Format::Json, payloads)) == payloads,
    decreases payloads.len(),
{
    if payloads.len() == 0 {
        assert(first_newline(Seq::<u8>::empty()) is None);
        assert(payloads =~= Seq::<Seq<u8>>::empty());
    } else {
        let p = payloads[0];
        let rest = frames_from(Format::Json, payloads.drop_first());
        assert forall|i: int| 0 <= i < payloads.drop_first().len() implies !(
        #[trigger] payloads.drop_first()[i]).contains(10u8) by {
            assert(payloads.drop_first()[i] == payloads[i + 1]);
        }
        lemma_json_lines_from(payloads.drop_first());
        lemma_first_newline_after(p, rest);
        let s = frames_from(Format::Json, payloads);
        assert(s == p.push(10u8) + rest);
        assert(s.take(p.len() as int) =~= p);
        assert(s.skip(p.len() + 1int) =~= rest);
        assert(seq![p] + payloads.drop_first() =~= payloads);
    }
}

} // verus!
