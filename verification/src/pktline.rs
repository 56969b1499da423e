//! The pkt-line framing of Git's long-running filter protocol.
//!
//! A pkt-line is a 4-byte lowercase-hex length prefix (counting the 4 prefix
//! bytes themselves) followed by that many bytes of payload; the length `0000`
//! is a flush packet, a delimiter between sections. Readers take a byte slice
//! and advance it past what they consumed; writers append to a byte vector.

use vstd::prelude::*;
use vstd::utf8::encode_utf8;
use crate::text::{append_bytes, hex_digit};
use crate::Error;

verus! {

/// Largest payload Git accepts in a single pkt-line (65520 total minus the
/// 4-byte length prefix).
pub const MAX_PAYLOAD: usize = 65516;

/// One frame read from the wire.
#[derive(Debug, PartialEq, Eq)]
pub enum Packet {
    /// A data packet and its payload (newline included, if any).
    Data(Vec<u8>),
    /// A flush packet (`0000`): the delimiter between sections.
    Flush,
}

// ─── Specification ───────────────────────────────────────────────────────────

/// The value of a lowercase hexadecimal digit.
pub open spec fn hex_value(b: u8) -> Option<nat> {
    if 48 <= b <= 57 {
        Some((b - 48) as nat)
    } else if 97 <= b <= 102 {
        Some((b - 87) as nat)
    } else {
        None
    }
}

/// The value of a string of hexadecimal digits, most significant first.
pub open spec fn digits_value(s: Seq<u8>) -> Option<nat>
    decreases s.len(),
{
    if s.len() == 0 {
        Some(0)
    } else {
        match (digits_value(s.drop_last()), hex_value(s.last())) {
            (Some(v), Some(d)) => Some(v * 16 + d),
            _ => None,
        }
    }
}

/// The length that a 4-byte prefix denotes: its lowercase hex digits; none
/// when any byte is not one.
pub open spec fn prefix_value(b: Seq<u8>) -> Option<nat> {
    if b.len() > 0 {
        digits_value(b)
    } else {
        None
    }
}

/// What reading one packet from `s` yields.
pub enum PacketRead {
    /// The stream was empty.
    Eof,
    /// The stream does not begin with a well-formed packet; the reader reports
    /// it as an I/O error of this kind.
    Invalid(IoKind),
    /// A flush packet.
    Flush,
    /// A data packet with this payload.
    Data(Seq<u8>),
}

/// The packet at the front of `s`.
pub open spec fn packet_at(s: Seq<u8>) -> PacketRead {
    if s.len() == 0 {
        PacketRead::Eof
    } else if s.len() < 4 {
        PacketRead::Invalid(IoKind::InvalidData)
    } else {
        match prefix_value(s.take(4)) {
            None => PacketRead::Invalid(IoKind::InvalidData),
            Some(n) => if n == 0 {
                PacketRead::Flush
            } else if n < 4 {
                PacketRead::Invalid(IoKind::InvalidData)
            } else if n <= s.len() {
                PacketRead::Data(s.subrange(4, n as int))
            } else {
                PacketRead::Invalid(IoKind::UnexpectedEof)
            },
        }
    }
}

/// What is left of `s` after reading one packet (the reader consumes what it
/// read, up to the point of failure).
pub open spec fn after_packet(s: Seq<u8>) -> Seq<u8> {
    if s.len() == 0 {
        s
    } else if s.len() < 4 {
        Seq::empty()
    } else {
        match prefix_value(s.take(4)) {
            Some(n) => if n >= 4 && n <= s.len() {
                s.skip(n as int)
            } else if n >= 4 {
                Seq::empty()
            } else {
                s.skip(4)
            },
            None => s.skip(4),
        }
    }
}

/// What reading a section (data packets up to a flush) yields.
pub enum SectionRead {
    /// The stream ended before any packet.
    Eof,
    /// A malformed packet, or the stream ended inside the section; the reader
    /// reports it as an I/O error of this kind.
    Invalid(IoKind),
    /// The concatenated payloads, and what follows the flush.
    Done(Seq<u8>, Seq<u8>),
}

/// The section at the front of `s`; `saw_any` tells whether a data packet of
/// the section was already read.
pub open spec fn section_at(s: Seq<u8>, saw_any: bool) -> SectionRead
    decreases s.len(),
{
    match packet_at(s) {
        PacketRead::Eof => if saw_any {
            SectionRead::Invalid(IoKind::InvalidData)
        } else {
            SectionRead::Eof
        },
        PacketRead::Invalid(k) => SectionRead::Invalid(k),
        PacketRead::Flush => SectionRead::Done(Seq::empty(), after_packet(s)),
        PacketRead::Data(p) => match section_at(after_packet(s), true) {
            SectionRead::Done(d, rest) => SectionRead::Done(p + d, rest),
            other => other,
        },
    }
}

/// `n` as four lowercase hex digits (`{:04x}` for `n < 0x10000`).
pub open spec fn hex4(n: nat) -> Seq<u8> {
    seq![
        hex_digit((((n / 16) / 16) / 16 % 16) as u64),
        hex_digit(((n / 16) / 16 % 16) as u64),
        hex_digit((n / 16 % 16) as u64),
        hex_digit((n % 16) as u64),
    ]
}

/// The flush packet.
pub open spec fn flush() -> Seq<u8> {
    seq![48u8, 48u8, 48u8, 48u8]
}

/// A data packet carrying `payload`.
pub open spec fn frame(payload: Seq<u8>) -> Seq<u8> {
    hex4(payload.len() + 4) + payload
}

/// `content` as consecutive data packets of at most [`MAX_PAYLOAD`] bytes.
pub open spec fn frames(content: Seq<u8>) -> Seq<u8>
    decreases content.len(),
{
    if content.len() == 0 {
        Seq::empty()
    } else if content.len() <= MAX_PAYLOAD {
        frame(content)
    } else {
        frame(content.take(MAX_PAYLOAD as int)) + frames(content.skip(MAX_PAYLOAD as int))
    }
}

// ─── Laws ────────────────────────────────────────────────────────────────────

proof fn lemma_hex_value_digit(d: u64)
    requires
        d < 16,
    ensures
        hex_value(hex_digit(d)) == Some(d as nat),
{
}

proof fn lemma_digits_push(s: Seq<u8>, b: u8)
    ensures
        digits_value(s.push(b)) == match (digits_value(s), hex_value(b)) {
            (Some(v), Some(d)) => Some(v * 16 + d),
            _ => None,
        },
{
    assert(s.push(b).drop_last() =~= s);
}

proof fn lemma_prefix_hex4(n: nat)
    requires
        n < 0x10000,
    ensures
        prefix_value(hex4(n)) == Some(n),
{
    let h = hex4(n);
    let a = n % 16;
    let q1 = n / 16;
    let b = q1 % 16;
    let q2 = q1 / 16;
    let c = q2 % 16;
    let q3 = q2 / 16;
    let d = q3 % 16;
    lemma_hex_value_digit(a as u64);
    lemma_hex_value_digit(b as u64);
    lemma_hex_value_digit(c as u64);
    lemma_hex_value_digit(d as u64);
    assert(q3 < 16);
    let e = Seq::<u8>::empty();
    assert(digits_value(e) == Some(0nat));
    lemma_digits_push(e, h[0]);
    lemma_digits_push(e.push(h[0]), h[1]);
    lemma_digits_push(e.push(h[0]).push(h[1]), h[2]);
    lemma_digits_push(e.push(h[0]).push(h[1]).push(h[2]), h[3]);
    assert(e.push(h[0]).push(h[1]).push(h[2]).push(h[3]) =~= h);
    assert(h[0] != 43u8);
}

/// Reading a data packet back from what [`write_packet`] wrote yields the same
/// payload and leaves exactly what followed it.
pub proof fn lemma_packet_roundtrip(payload: Seq<u8>, rest: Seq<u8>)
    requires
        payload.len() <= MAX_PAYLOAD,
    ensures
        packet_at(frame(payload) + rest) == PacketRead::Data(payload),
        after_packet(frame(payload) + rest) == rest,
{
    let s = frame(payload) + rest;
    lemma_prefix_hex4(payload.len() + 4);
    assert(s.take(4) =~= hex4(payload.len() + 4));
    assert(s.subrange(4, payload.len() + 4 as int) =~= payload);
    assert(s.skip(payload.len() + 4 as int) =~= rest);
}

/// Reading a flush packet back from what [`write_flush`] wrote yields a flush
/// and leaves exactly what followed it.
pub proof fn lemma_flush_roundtrip(rest: Seq<u8>)
    ensures
        packet_at(flush() + rest) == PacketRead::Flush,
        after_packet(flush() + rest) == rest,
{
    let s = flush() + rest;
    assert(s.take(4) =~= flush());
    let e = Seq::<u8>::empty();
    let z = 48u8;
    lemma_digits_push(e, z);
    lemma_digits_push(e.push(z), z);
    lemma_digits_push(e.push(z).push(z), z);
    lemma_digits_push(e.push(z).push(z).push(z), z);
    assert(e.push(z).push(z).push(z).push(z) =~= flush());
    assert(s.skip(4) =~= rest);
}

/// Reading a section back from what [`write_content`] wrote yields the same
/// content, of any size, and leaves exactly what followed the flush.
pub proof fn lemma_content_roundtrip(content: Seq<u8>, rest: Seq<u8>, saw_any: bool)
    ensures
        section_at(frames(content) + flush() + rest, saw_any) == SectionRead::Done(content, rest),
    decreases content.len(),
{
    let e = Seq::<u8>::empty();
    if content.len() == 0 {
        assert(frames(content) + flush() + rest =~= flush() + rest);
        lemma_flush_roundtrip(rest);
        assert(section_at(flush() + rest, saw_any) == SectionRead::Done(e, rest));
        assert(content =~= e);
    } else if content.len() <= MAX_PAYLOAD {
        let s = frames(content) + flush() + rest;
        assert(s =~= frame(content) + (flush() + rest));
        lemma_packet_roundtrip(content, flush() + rest);
        lemma_flush_roundtrip(rest);
        assert(section_at(flush() + rest, true) == SectionRead::Done(e, rest));
        assert(content + e =~= content);
        assert(section_at(s, saw_any) == SectionRead::Done(content + e, rest));
    } else {
        let head = content.take(MAX_PAYLOAD as int);
        let tail = content.skip(MAX_PAYLOAD as int);
        let s = frames(content) + flush() + rest;
        let t = frames(tail) + flush() + rest;
        assert(s =~= frame(head) + t);
        lemma_packet_roundtrip(head, t);
        lemma_content_roundtrip(tail, rest, true);
        assert(section_at(t, true) == SectionRead::Done(tail, rest));
        assert(head + tail =~= content);
        assert(section_at(s, saw_any) == SectionRead::Done(head + tail, rest));
    }
}

// ─── Reading ─────────────────────────────────────────────────────────────────

/// The kinds of I/O error that the reader reports for a malformed stream.
#[derive(Debug, Clone, Copy, PartialEq, Eq, Structural)]
pub enum IoKind {
    /// `std::io::ErrorKind::InvalidData`: a malformed frame, or a section that
    /// the stream ends inside of.
    InvalidData,
    /// `std::io::ErrorKind::UnexpectedEof`: the stream ends inside a payload.
    UnexpectedEof,
}

/// Whether `e.kind()` (`std::io::Error::kind`) is the `std::io::ErrorKind`
/// that `kind` stands for.
pub uninterp spec fn io_kind_is(e: std::io::Error, kind: IoKind) -> bool;

/// The error for malformed input: `std::io::Error::new` with the
/// `std::io::ErrorKind` that `kind` stands for. Its contract claims what the
/// documentation of `new` and `kind` says: the error reports the kind it was
/// built with.
#[verifier::external_body]
fn io_error(kind: IoKind, msg: &str) -> (r: std::io::Error)
    ensures
        io_kind_is(r, kind),
{
    let k = match kind {
        IoKind::InvalidData => std::io::ErrorKind::InvalidData,
        IoKind::UnexpectedEof => std::io::ErrorKind::UnexpectedEof,
    };
    std::io::Error::new(k, msg.to_string())
}

fn hex_value_exec(b: u8) -> (r: Option<usize>)
    ensures
        match hex_value(b) {
            Some(v) => r == Some(v as usize),
            None => r is None,
        },
{
    if 48 <= b && b <= 57 {
        Some((b - 48) as usize)
    } else if 97 <= b && b <= 102 {
        Some((b - 87) as usize)
    } else {
        None
    }
}

/// Parses a 4-byte length prefix ([`prefix_value`]).
pub fn parse_hex4(b: &[u8]) -> (r: Option<usize>)
    requires
        b@.len() == 4,
    ensures
        match prefix_value(b@) {
            Some(v) => r matches Some(x) && x as nat == v,
            None => r is None,
        },
{
    let start: usize = 0;
    let mut v: usize = 0;
    let mut i: usize = start;
    let ghost digits = b@.subrange(start as int, 4);
    proof {
        assert(b@ =~= digits);
        assert(prefix_value(b@) == digits_value(digits));
        assert(digits.subrange(0, 0) =~= Seq::<u8>::empty());
    }
    while i < 4
        invariant
            b@.len() == 4,
            start <= i <= 4,
            start <= 1,
            digits == b@.subrange(start as int, 4),
            prefix_value(b@) == digits_value(digits),
            digits_value(digits.subrange(0, i - start)) == Some(v as nat),
            v < 0x10000 * 16,
            i - start <= 4,
            v < pow16_bound(i - start),
        decreases 4 - i,
    {
        match hex_value_exec(b[i]) {
            Some(d) => {
                proof {
                    assert(digits.subrange(0, i - start + 1) =~= digits.subrange(0, i - start).push(b@[i as int]));
                    lemma_digits_push(digits.subrange(0, i - start), b@[i as int]);
                }
                v = v * 16 + d;
            },
            None => {
                proof {
                    assert(digits.subrange(0, i - start + 1) =~= digits.subrange(0, i - start).push(b@[i as int]));
                    lemma_digits_push(digits.subrange(0, i - start), b@[i as int]);
                    assert(digits_value(digits.subrange(0, i - start + 1)) is None);
                    lemma_digits_none_extends(digits, i - start + 1);
                    assert(digits.subrange(0, digits.len() as int) =~= digits);
                }
                return None;
            },
        }
        i += 1;
    }
    proof {
        assert(digits.subrange(0, 4 - start) =~= digits);
    }
    Some(v)
}

/// `16^k` for the digit counts of a prefix.
pub open spec fn pow16_bound(k: int) -> int {
    if k <= 0 {
        1
    } else if k == 1 {
        16
    } else if k == 2 {
        256
    } else if k == 3 {
        4096
    } else {
        65536
    }
}

proof fn lemma_digits_none_extends(s: Seq<u8>, k: int)
    requires
        0 < k <= s.len(),
        digits_value(s.subrange(0, k)) is None,
    ensures
        digits_value(s.subrange(0, s.len() as int)) is None,
    decreases s.len() - k,
{
    if k < s.len() {
        assert(s.subrange(0, k + 1).drop_last() =~= s.subrange(0, k));
        lemma_digits_none_extends(s, k + 1);
    }
}

/// What a 4-byte length prefix announces.
#[derive(Debug, PartialEq, Eq)]
pub enum FrameHead {
    /// A flush packet: the section ends here.
    Flush,
    /// A data packet with this many payload bytes after the prefix.
    Data(usize),
    /// Not a valid prefix.
    Invalid,
}

/// Reads a 4-byte length prefix: a flush, the length of the payload that
/// follows, or invalid ([`prefix_value`]), so that a reader of a stream knows
/// how many bytes the packet takes before it has them.
pub fn frame_head(header: &[u8]) -> (r: FrameHead)
    requires
        header@.len() == 4,
    ensures
        match prefix_value(header@) {
            None => r is Invalid,
            Some(n) => if n == 0 {
                r is Flush
            } else if n < 4 {
                r is Invalid
            } else {
                r == FrameHead::Data((n - 4) as usize)
            },
        },
{
    match parse_hex4(header) {
        None => FrameHead::Invalid,
        Some(0) => FrameHead::Flush,
        Some(n) => if n < 4 {
            FrameHead::Invalid
        } else {
            FrameHead::Data(n - 4)
        },
    }
}

/// A section must end with a flush packet: one that the stream ends in the
/// middle of is invalid.
pub proof fn lemma_section_needs_flush(payload: Seq<u8>)
    requires
        payload.len() <= MAX_PAYLOAD,
    ensures
        section_at(frame(payload), false) is Invalid,
{
    let f = frame(payload);
    let e = Seq::<u8>::empty();
    lemma_packet_roundtrip(payload, e);
    assert(f + e =~= f);
    assert(packet_at(f) == PacketRead::Data(payload));
    assert(after_packet(f) == e);
    assert(packet_at(e) is Eof);
    assert(section_at(e, true) is Invalid);
}

/// Reads a single pkt-line frame, advancing `reader` past what it consumed.
///
/// Returns `Ok(None)` only at clean end of stream.
pub fn read_packet(reader: &mut &[u8]) -> (r: Result<Option<Packet>, Error>)
    ensures
        match packet_at(old(reader)@) {
            PacketRead::Eof => r matches Ok(None),
            PacketRead::Invalid(k) => r matches Err(Error::Io(e)) && io_kind_is(e, k),
            PacketRead::Flush => r matches Ok(Some(Packet::Flush)),
            PacketRead::Data(p) => r matches Ok(Some(Packet::Data(v))) && v@ == p,
        },
        final(reader)@ == after_packet(old(reader)@),
{
    let s: &[u8] = *reader;
    if s.len() == 0 {
        return Ok(None);
    }
    if s.len() < 4 {
        *reader = vstd::slice::slice_subrange(s, s.len(), s.len());
        proof {
            assert(reader@ =~= Seq::<u8>::empty());
        }
        return Err(Error::Io(io_error(IoKind::InvalidData, "EOF in middle of pkt-line length")));
    }
    let prefix = vstd::slice::slice_subrange(s, 0, 4);
    proof {
        assert(prefix@ =~= s@.take(4));
    }
    let len = match parse_hex4(prefix) {
        Some(n) => n,
        None => {
            *reader = vstd::slice::slice_subrange(s, 4, s.len());
            return Err(Error::Io(io_error(IoKind::InvalidData, "bad pkt-line length")));
        },
    };
    if len == 0 {
        *reader = vstd::slice::slice_subrange(s, 4, s.len());
        return Ok(Some(Packet::Flush));
    }
    if len < 4 {
        *reader = vstd::slice::slice_subrange(s, 4, s.len());
        return Err(Error::Io(io_error(IoKind::InvalidData, "pkt-line length < 4")));
    }
    if len > s.len() {
        *reader = vstd::slice::slice_subrange(s, s.len(), s.len());
        proof {
            assert(reader@ =~= Seq::<u8>::empty());
        }
        return Err(Error::Io(io_error(IoKind::UnexpectedEof, "failed to fill whole buffer")));
    }
    let payload = vstd::slice::slice_to_vec(vstd::slice::slice_subrange(s, 4, len));
    *reader = vstd::slice::slice_subrange(s, len, s.len());
    Ok(Some(Packet::Data(payload)))
}

/// Reads a section of data packets up to the next flush, concatenating their
/// payloads, and advances `reader` past the flush.
///
/// Returns `Ok(None)` at end of stream before any packet.
pub fn read_until_flush(reader: &mut &[u8]) -> (r: Result<Option<Vec<u8>>, Error>)
    ensures
        match section_at(old(reader)@, false) {
            SectionRead::Eof => r matches Ok(None) && final(reader)@ == old(reader)@,
            SectionRead::Invalid(k) => r matches Err(Error::Io(e)) && io_kind_is(e, k),
            SectionRead::Done(d, rest) => r matches Ok(Some(v)) && v@ == d && final(reader)@ == rest,
        },
{
    let ghost start = reader@;
    let mut buf: Vec<u8> = Vec::new();
    let mut saw_any = false;
    loop
        invariant
            section_at(start, false) == match section_at(reader@, saw_any) {
                SectionRead::Done(d, rest) => SectionRead::Done(buf@ + d, rest),
                other => other,
            },
            !saw_any ==> reader@ == start && buf@ == Seq::<u8>::empty(),
            start == old(reader)@,
        decreases reader@.len(),
    {
        let ghost before = reader@;
        let got = read_packet(reader);
        proof {
            match packet_at(before) {
                PacketRead::Eof => {
                    assert(before.len() == 0);
                    assert(section_at(before, saw_any) == if saw_any {
                        SectionRead::Invalid(IoKind::InvalidData)
                    } else {
                        SectionRead::Eof
                    });
                },
                PacketRead::Invalid(k) => {
                    assert(section_at(before, saw_any) == SectionRead::Invalid(k));
                },
                PacketRead::Flush => {
                    assert(section_at(before, saw_any) == SectionRead::Done(Seq::<u8>::empty(), reader@));
                },
                PacketRead::Data(p) => {},
            }
        }
        match got {
            Err(e) => return Err(e),
            Ok(None) => {
                if saw_any {
                    return Err(Error::Io(io_error(IoKind::InvalidData, "unexpected EOF before flush")));
                }
                return Ok(None);
            },
            Ok(Some(Packet::Flush)) => {
                proof {
                    assert(buf@ + Seq::<u8>::empty() =~= buf@);
                }
                return Ok(Some(buf));
            },
            Ok(Some(Packet::Data(d))) => {
                proof {
                    let p = d@;
                    match section_at(reader@, true) {
                        SectionRead::Done(x, rest) => {
                            assert(buf@ + (p + x) =~= (buf@ + p) + x);
                        },
                        _ => {},
                    }
                }
                append_bytes(&mut buf, d.as_slice());
                saw_any = true;
            },
        }
    }
}

// ─── Writing ─────────────────────────────────────────────────────────────────

fn hex4_bytes(n: usize) -> (r: Vec<u8>)
    requires
        n < 0x10000,
    ensures
        r@ == hex4(n as nat),
{
    let mut r: Vec<u8> = Vec::new();
    let d0 = (((n / 16) / 16) / 16 % 16) as u8;
    let d1 = ((n / 16) / 16 % 16) as u8;
    let d2 = (n / 16 % 16) as u8;
    let d3 = (n % 16) as u8;
    r.push(if d0 < 10 { 48 + d0 } else { 87 + d0 });
    r.push(if d1 < 10 { 48 + d1 } else { 87 + d1 });
    r.push(if d2 < 10 { 48 + d2 } else { 87 + d2 });
    r.push(if d3 < 10 { 48 + d3 } else { 87 + d3 });
    proof {
        assert(r@ =~= hex4(n as nat));
    }
    r
}

/// Writes a single data packet. `payload` must be at most [`MAX_PAYLOAD`]
/// bytes.
pub fn write_packet(writer: &mut Vec<u8>, payload: &[u8]) -> (r: Result<(), Error>)
    requires
        payload@.len() <= MAX_PAYLOAD,
    ensures
        r is Ok,
        final(writer)@ == old(writer)@ + frame(payload@),
{
    let len = payload.len() + 4;
    let prefix = hex4_bytes(len);
    append_bytes(writer, prefix.as_slice());
    append_bytes(writer, payload);
    Ok(())
}

/// Writes a `key=value` text packet (a trailing newline is appended, as Git
/// expects for metadata lines).
pub fn write_text_packet(writer: &mut Vec<u8>, line: &str) -> (r: Result<(), Error>)
    requires
        encode_utf8(line@).len() + 1 <= MAX_PAYLOAD,
    ensures
        r is Ok,
        final(writer)@ == old(writer)@ + frame(encode_utf8(line@).push(10u8)),
{
    let mut payload = vstd::slice::slice_to_vec(line.as_bytes());
    payload.push(10u8);
    write_packet(writer, payload.as_slice())
}

/// Writes a flush packet (`0000`).
pub fn write_flush(writer: &mut Vec<u8>) -> (r: Result<(), Error>)
    ensures
        r is Ok,
        final(writer)@ == old(writer)@ + flush(),
{
    writer.push(48u8);
    writer.push(48u8);
    writer.push(48u8);
    writer.push(48u8);
    proof {
        assert(final(writer)@ =~= old(writer)@ + flush());
    }
    Ok(())
}

/// Writes a payload of any size as a sequence of data packets of at most
/// [`MAX_PAYLOAD`] bytes, followed by a flush.
pub fn write_content(writer: &mut Vec<u8>, content: &[u8]) -> (r: Result<(), Error>)
    ensures
        r is Ok,
        final(writer)@ == old(writer)@ + frames(content@) + flush(),
{
    let ghost before = writer@;
    let mut pos: usize = 0;
    proof {
        assert(content@.skip(0) =~= content@);
    }
    while pos < content.len()
        invariant
            pos <= content.len(),
            before + frames(content@) == writer@ + frames(content@.skip(pos as int)),
        decreases content.len() - pos,
    {
        let remaining = content.len() - pos;
        let take = if remaining < MAX_PAYLOAD { remaining } else { MAX_PAYLOAD };
        let chunk = vstd::slice::slice_subrange(content, pos, pos + take);
        proof {
            let t = content@.skip(pos as int);
            assert(chunk@ =~= t.take(take as int));
            assert(t.skip(take as int) =~= content@.skip(pos + take));
            if t.len() <= MAX_PAYLOAD {
                assert(t.take(take as int) =~= t);
                assert(frames(t.skip(take as int)) =~= Seq::<u8>::empty());
            }
        }
        let _ = write_packet(writer, chunk);
        pos += take;
    }
    proof {
        assert(frames(content@.skip(pos as int)) =~= Seq::<u8>::empty());
    }
    write_flush(writer)
}

} // verus!
