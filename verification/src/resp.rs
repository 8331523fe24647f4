//! The wire-protocol frame codec: parsing raw bytes into typed frames and
//! serializing typed frames back to bytes.
//!
//! The wire format is tag-dispatched. `+line` is a simple string, `-line`
//! an error string, `:n` an integer, `$-1` a null, `$len` a bulk string of
//! exactly `len` bytes, and `*count` an array of `count` nested frames;
//! every line ends with CRLF.
use vstd::prelude::*;

use crate::text::dec_rep;
use crate::text::dec_rep_signed;
use crate::text::spec_parse_i64;

verus! {

broadcast use vstd::std_specs::vec::group_vec_axioms;

/// One wire-protocol value.
///
/// Textual payloads are held as raw bytes; parsing guarantees that the
/// payload of a `Simple` or `Error` frame it produces is valid UTF-8,
/// while a `Bulk` payload may hold arbitrary bytes.
#[derive(Debug, PartialEq, Eq)]
pub enum Frame {
    Simple(Vec<u8>),
    Error(Vec<u8>),
    Integer(i64),
    Null,
    Bulk(Vec<u8>),
    Array(Vec<Frame>),
}

/// The mathematical shape of a [`Frame`]: the same tree over `Seq<u8>`.
#[verifier::ext_equal]
pub enum FrameV {
    Simple(Seq<u8>),
    Error(Seq<u8>),
    Integer(i64),
    Null,
    Bulk(Seq<u8>),
    Array(Seq<FrameV>),
}

/// The abstraction of one frame.
pub open spec fn frame_view(f: Frame) -> FrameV
    decreases f,
{
    match f {
        Frame::Simple(s) => FrameV::Simple(s@),
        Frame::Error(s) => FrameV::Error(s@),
        Frame::Integer(i) => FrameV::Integer(i),
        Frame::Null => FrameV::Null,
        Frame::Bulk(p) => FrameV::Bulk(p@),
        Frame::Array(elems) => FrameV::Array(frames_view(elems@)),
    }
}

/// The abstraction of a run of frames, elementwise.
pub open spec fn frames_view(s: Seq<Frame>) -> Seq<FrameV>
    decreases s,
{
    if s.len() == 0 {
        Seq::empty()
    } else {
        seq![frame_view(s[0])] + frames_view(s.drop_first())
    }
}

impl View for Frame {
    type V = FrameV;

    open spec fn view(&self) -> FrameV {
        frame_view(*self)
    }
}

/// The elementwise abstraction keeps length and indices.
pub proof fn lemma_frames_view(s: Seq<Frame>)
    ensures
        frames_view(s).len() == s.len(),
        forall|i: int| 0 <= i < s.len() ==> #[trigger] frames_view(s)[i] == frame_view(s[i]),
    decreases s,
{
    if s.len() > 0 {
        lemma_frames_view(s.drop_first());
    }
}

/// Appending a frame appends its abstraction.
pub proof fn lemma_frames_view_push(s: Seq<Frame>, f: Frame)
    ensures
        frames_view(s.push(f)) == frames_view(s).push(frame_view(f)),
    decreases s,
{
    if s.len() == 0 {
        let sp = s.push(f);
        assert(sp.len() == 1);
        assert(sp[0] == f);
        assert(sp.drop_first() =~= Seq::<Frame>::empty());
        assert(frames_view(Seq::<Frame>::empty()) == Seq::<FrameV>::empty());
        assert(frames_view(sp) == seq![frame_view(f)] + Seq::<FrameV>::empty());
        assert(seq![frame_view(f)] + Seq::<FrameV>::empty() =~= frames_view(s).push(
            frame_view(f),
        ));
    } else {
        assert(s.push(f)[0] == s[0]);
        assert(s.push(f).drop_first() =~= s.drop_first().push(f));
        lemma_frames_view_push(s.drop_first(), f);
        assert(frames_view(s.push(f)) =~= frames_view(s).push(frame_view(f)));
    }
}

/// Why a byte cursor failed to yield a frame.
#[derive(Debug, Clone, Copy, PartialEq, Eq, Structural)]
pub enum ParseError {
    /// The cursor ran out of bytes before the frame was complete.
    NoMoreBytes,
    /// No CRLF terminator before the end of the buffer.
    MissingDelimiter,
    /// A textual line was not valid UTF-8.
    InvalidUtf8,
    /// A length or integer line was not a decimal numeral in range.
    InvalidInteger,
    /// A `$` header starting with `-` that is not exactly `-1`, or a bulk
    /// payload not terminated by CRLF.
    InvalidBulk,
    /// A leading byte that names no frame type.
    UnknownTag,
}

// ---------------------------------------------------------------------------
// Cursor primitives
// ---------------------------------------------------------------------------

/// What [`get_u8`] yields: the byte under the cursor, advancing past it.
pub open spec fn spec_get_u8(b: Seq<u8>, pos: int) -> Result<(u8, int), ParseError> {
    if 0 <= pos < b.len() {
        Ok((b[pos], pos + 1))
    } else {
        Err(ParseError::NoMoreBytes)
    }
}

/// What [`peek_u8`] yields: the byte under the cursor, without advancing.
pub open spec fn spec_peek_u8(b: Seq<u8>, pos: int) -> Result<u8, ParseError> {
    if 0 <= pos < b.len() {
        Ok(b[pos])
    } else {
        Err(ParseError::NoMoreBytes)
    }
}

/// The first position `j >= pos` where `b[j], b[j + 1]` is CRLF, or `-1`
/// when no such pair starts before the last byte.
pub open spec fn spec_find_crlf(b: Seq<u8>, pos: int) -> int
    decreases b.len() - pos,
{
    if pos + 1 >= b.len() {
        -1
    } else if b[pos] == 13 && b[pos + 1] == 10 {
        pos
    } else {
        spec_find_crlf(b, pos + 1)
    }
}

/// A CRLF pair with no earlier pair after `pos` is exactly what
/// [`spec_find_crlf`] finds.
pub proof fn lemma_find_crlf_at(b: Seq<u8>, pos: int, j: int)
    requires
        0 <= pos <= j,
        j + 1 < b.len(),
        b[j] == 13,
        b[j + 1] == 10,
        forall|k: int| pos <= k < j ==> !(#[trigger] b[k] == 13 && b[k + 1] == 10),
    ensures
        spec_find_crlf(b, pos) == j,
    decreases j - pos,
{
    if pos < j {
        lemma_find_crlf_at(b, pos + 1, j);
    }
}

/// What [`get_line`] yields: the bytes strictly before the first CRLF,
/// advancing past the LF.
pub open spec fn spec_get_line(b: Seq<u8>, pos: int) -> Result<(Seq<u8>, int), ParseError> {
    let j = spec_find_crlf(b, pos);
    if j < 0 {
        Err(ParseError::MissingDelimiter)
    } else {
        Ok((b.subrange(pos, j), j + 2))
    }
}

/// What [`get_decimal`] yields: a whole line read as a signed decimal
/// numeral.
pub open spec fn spec_get_decimal(b: Seq<u8>, pos: int) -> Result<(i64, int), ParseError> {
    match spec_get_line(b, pos) {
        Err(e) => Err(e),
        Ok((line, p2)) => match spec_parse_i64(line) {
            None => Err(ParseError::InvalidInteger),
            Some(v) => Ok((v, p2)),
        },
    }
}

/// What [`skip`] yields: the cursor moved forward `n` bytes, when that
/// many remain.
pub open spec fn spec_skip(b: Seq<u8>, pos: int, n: int) -> Result<int, ParseError> {
    if 0 <= pos && pos + n <= b.len() {
        Ok(pos + n)
    } else {
        Err(ParseError::NoMoreBytes)
    }
}

/// Reads the byte under the cursor and advances past it; fails when no
/// bytes remain.
pub fn get_u8(src: &Vec<u8>, pos: &mut usize) -> (r: Result<u8, ParseError>)
    ensures
        match r {
            Ok(v) => spec_get_u8(src@, *old(pos) as int) == Ok::<(u8, int), ParseError>(
                (v, *final(pos) as int),
            ) && *final(pos) == *old(pos) + 1,
            Err(e) => spec_get_u8(src@, *old(pos) as int) == Err::<(u8, int), ParseError>(e)
                && *final(pos) == *old(pos),
        },
{
    if *pos < src.len() {
        let v = src[*pos];
        *pos = *pos + 1;
        Ok(v)
    } else {
        Err(ParseError::NoMoreBytes)
    }
}

/// Reads the byte under the cursor without advancing; fails when no bytes
/// remain.
pub fn peek_u8(src: &Vec<u8>, pos: usize) -> (r: Result<u8, ParseError>)
    ensures
        match r {
            Ok(v) => spec_peek_u8(src@, pos as int) == Ok::<u8, ParseError>(v),
            Err(e) => spec_peek_u8(src@, pos as int) == Err::<u8, ParseError>(e),
        },
{
    if pos < src.len() {
        Ok(src[pos])
    } else {
        Err(ParseError::NoMoreBytes)
    }
}

/// Moves the cursor forward `n` bytes; fails, without moving, when fewer
/// remain.
pub fn skip(src: &Vec<u8>, pos: &mut usize, n: usize) -> (r: Result<(), ParseError>)
    ensures
        match r {
            Ok(_) => spec_skip(src@, *old(pos) as int, n as int) == Ok::<int, ParseError>(
                *final(pos) as int,
            ) && *final(pos) == *old(pos) + n,
            Err(e) => spec_skip(src@, *old(pos) as int, n as int) == Err::<int, ParseError>(e)
                && *final(pos) == *old(pos),
        },
{
    if *pos <= src.len() && n <= src.len() - *pos {
        *pos = *pos + n;
        Ok(())
    } else {
        Err(ParseError::NoMoreBytes)
    }
}

/// Scans for the first CRLF pair and returns a copy of the bytes strictly
/// before it, advancing the cursor past the LF; fails, without moving,
/// when no terminator starts before the end of the buffer.
pub fn get_line(src: &Vec<u8>, pos: &mut usize) -> (r: Result<Vec<u8>, ParseError>)
    ensures
        match r {
            Ok(line) => spec_get_line(src@, *old(pos) as int) == Ok::<(Seq<u8>, int), ParseError>(
                (line@, *final(pos) as int),
            ) && *old(pos) <= *final(pos) <= src@.len(),
            Err(e) => spec_get_line(src@, *old(pos) as int) == Err::<(Seq<u8>, int), ParseError>(e)
                && *final(pos) == *old(pos),
        },
{
    let ghost pos0 = *pos as int;
    let n = src.len();
    let mut i: usize = *pos;
    if n < 2 || i > n - 2 {
        return Err(ParseError::MissingDelimiter);
    }
    while i <= n - 2 && !(src[i] == 13 && src[i + 1] == 10)
        invariant
            *pos <= i <= n - 1,
            2 <= n == src@.len(),
            spec_find_crlf(src@, pos0) == spec_find_crlf(src@, i as int),
            pos0 == *pos as int,
        decreases n - i,
    {
        i = i + 1;
    }
    if i > n - 2 {
        return Err(ParseError::MissingDelimiter);
    }
    let ghost j = spec_find_crlf(src@, pos0);
    proof {
        assert(j == i as int);
    }
    let mut line: Vec<u8> = Vec::new();
    let mut k: usize = *pos;
    while k < i
        invariant
            *pos <= k <= i,
            i + 1 < n,
            n == src@.len(),
            pos0 == *pos as int,
            line@ == src@.subrange(pos0, k as int),
        decreases i - k,
    {
        let b = src[k];
        proof {
            assert(src@.subrange(pos0, k + 1) =~= src@.subrange(pos0, k as int).push(src@[k as int]));
        }
        line.push(b);
        k = k + 1;
    }
    *pos = i + 2;
    Ok(line)
}

/// Reads a whole line as a signed decimal numeral; fails on a missing
/// terminator or a line that is not a numeral in `i64`'s range.
pub fn get_decimal(src: &Vec<u8>, pos: &mut usize) -> (r: Result<i64, ParseError>)
    requires
        *old(pos) <= src@.len(),
    ensures
        match r {
            Ok(v) => spec_get_decimal(src@, *old(pos) as int) == Ok::<(i64, int), ParseError>(
                (v, *final(pos) as int),
            ) && *old(pos) <= *final(pos) <= src@.len(),
            Err(e) => spec_get_decimal(src@, *old(pos) as int) == Err::<(i64, int), ParseError>(e)
                && *old(pos) <= *final(pos) <= src@.len(),
        },
{
    let line = match get_line(src, pos) {
        Ok(line) => line,
        Err(e) => {
            return Err(e);
        },
    };
    match crate::text::parse_i64(&line) {
        Some(v) => Ok(v),
        None => Err(ParseError::InvalidInteger),
    }
}

// ---------------------------------------------------------------------------
// Parsing
// ---------------------------------------------------------------------------

/// Guards the termination measure of the mutually recursive parse
/// definition. Every continuation position a successful step yields
/// already lies in `[lo, b.len()]`, so on reachable values the clamp is
/// the identity; it only convinces the termination checker that the
/// cursor never moves backwards.
pub open spec fn clamp_pos(b: Seq<u8>, lo: int, p: int) -> int {
    if p < lo || b.len() < lo {
        lo
    } else if p > b.len() {
        b.len() as int
    } else {
        p
    }
}

/// What [`Frame::parse`] yields from `b` at `pos`: one whole frame and
/// the position just past it, or the first failure.
pub open spec fn spec_parse(b: Seq<u8>, pos: int) -> Result<(FrameV, int), ParseError>
    decreases b.len() - pos, 0int, 0int,
{
    match spec_get_u8(b, pos) {
        Err(e) => Err(e),
        Ok((tag, p1)) => {
            if tag == 43 {
                match spec_get_line(b, p1) {
                    Err(e) => Err(e),
                    Ok((line, p2)) => if vstd::utf8::valid_utf8(line) {
                        Ok((FrameV::Simple(line), p2))
                    } else {
                        Err(ParseError::InvalidUtf8)
                    },
                }
            } else if tag == 45 {
                match spec_get_line(b, p1) {
                    Err(e) => Err(e),
                    Ok((line, p2)) => if vstd::utf8::valid_utf8(line) {
                        Ok((FrameV::Error(line), p2))
                    } else {
                        Err(ParseError::InvalidUtf8)
                    },
                }
            } else if tag == 58 {
                match spec_get_decimal(b, p1) {
                    Err(e) => Err(e),
                    Ok((v, p2)) => Ok((FrameV::Integer(v), p2)),
                }
            } else if tag == 36 {
                match spec_peek_u8(b, p1) {
                    Err(e) => Err(e),
                    Ok(first) => if first == 45 {
                        match spec_get_line(b, p1) {
                            Err(e) => Err(e),
                            Ok((line, p2)) => if line == seq![45u8, 49u8] {
                                Ok((FrameV::Null, p2))
                            } else {
                                Err(ParseError::InvalidBulk)
                            },
                        }
                    } else {
                        match spec_get_decimal(b, p1) {
                            Err(e) => Err(e),
                            Ok((len, p2)) => if len < 0 {
                                // Never taken: a length line that does not
                                // start with `-` denotes a value >= 0.
                                Err(ParseError::InvalidBulk)
                            } else if p2 + len + 2 <= b.len() {
                                if b[p2 + len] == 13 && b[p2 + len + 1] == 10 {
                                    Ok((FrameV::Bulk(b.subrange(p2, p2 + len)), p2 + len + 2))
                                } else {
                                    Err(ParseError::InvalidBulk)
                                }
                            } else {
                                Err(ParseError::NoMoreBytes)
                            },
                        }
                    },
                }
            } else if tag == 42 {
                match spec_get_decimal(b, p1) {
                    Err(e) => Err(e),
                    Ok((count, p2)) => {
                        let n: nat = if count > 0 {
                            count as nat
                        } else {
                            0
                        };
                        match spec_parse_n(b, clamp_pos(b, pos + 1, p2), n) {
                            Err(e) => Err(e),
                            Ok((elems, p3)) => Ok((FrameV::Array(elems), p3)),
                        }
                    },
                }
            } else {
                Err(ParseError::UnknownTag)
            }
        },
    }
}

/// Parses `n` consecutive frames, in order.
pub open spec fn spec_parse_n(b: Seq<u8>, pos: int, n: nat) -> Result<
    (Seq<FrameV>, int),
    ParseError,
>
    decreases b.len() - pos, 1int, n,
{
    if n == 0 {
        Ok((Seq::empty(), pos))
    } else {
        match spec_parse(b, pos) {
            Err(e) => Err(e),
            Ok((f, p2)) => match spec_parse_n(b, clamp_pos(b, pos, p2), (n - 1) as nat) {
                Err(e) => Err(e),
                Ok((rest, p3)) => Ok((seq![f] + rest, p3)),
            },
        }
    }
}

impl Frame {
    /// Parses exactly one frame from the cursor, advancing past it.
    ///
    /// Succeeds and fails exactly as [`spec_parse`] says: an unknown tag
    /// byte, bytes exhausted mid-frame, a declared length that disagrees
    /// with the available bytes, a missing CRLF terminator, or a textual
    /// line that is not valid UTF-8 are reported as errors; keeping
    /// partial input around for a later retry is the caller's business.
    #[verifier::loop_isolation(false)]
    #[verifier::rlimit(100)]
    pub fn parse(src: &Vec<u8>, pos: &mut usize) -> (r: Result<Frame, ParseError>)
        requires
            *old(pos) <= src@.len(),
        ensures
            match r {
                Ok(f) => spec_parse(src@, *old(pos) as int) == Ok::<(FrameV, int), ParseError>(
                    (f@, *final(pos) as int),
                ) && *old(pos) < *final(pos) <= src@.len(),
                Err(e) => spec_parse(src@, *old(pos) as int) == Err::<(FrameV, int), ParseError>(e)
                    && *final(pos) <= src@.len(),
            },
        decreases src@.len() - *old(pos),
    {
        let ghost b = src@;
        let ghost pos0 = *old(pos) as int;
        let tag = match get_u8(src, pos) {
            Ok(t) => t,
            Err(e) => {
                return Err(e);
            },
        };
        let ghost p1 = *pos as int;
        if tag == 43 {
            let line = match get_line(src, pos) {
                Ok(l) => l,
                Err(e) => {
                    return Err(e);
                },
            };
            if crate::text::is_valid_utf8(&line) {
                Ok(Frame::Simple(line))
            } else {
                Err(ParseError::InvalidUtf8)
            }
        } else if tag == 45 {
            let line = match get_line(src, pos) {
                Ok(l) => l,
                Err(e) => {
                    return Err(e);
                },
            };
            if crate::text::is_valid_utf8(&line) {
                Ok(Frame::Error(line))
            } else {
                Err(ParseError::InvalidUtf8)
            }
        } else if tag == 58 {
            match get_decimal(src, pos) {
                Ok(v) => Ok(Frame::Integer(v)),
                Err(e) => Err(e),
            }
        } else if tag == 36 {
            let first = match peek_u8(src, *pos) {
                Ok(c) => c,
                Err(e) => {
                    return Err(e);
                },
            };
            if first == 45 {
                let line = match get_line(src, pos) {
                    Ok(l) => l,
                    Err(e) => {
                        return Err(e);
                    },
                };
                if line.len() == 2 && line[0] == 45 && line[1] == 49 {
                    proof {
                        assert(line@ =~= seq![45u8, 49u8]);
                    }
                    Ok(Frame::Null)
                } else {
                    proof {
                        assert(line@ != seq![45u8, 49u8]);
                    }
                    Err(ParseError::InvalidBulk)
                }
            } else {
                let len_i = match get_decimal(src, pos) {
                    Ok(v) => v,
                    Err(e) => {
                        return Err(e);
                    },
                };
                if len_i < 0 {
                    // Never reached: the length line does not start with
                    // `-`, so it denotes a value >= 0.
                    return Err(ParseError::InvalidBulk);
                }
                let remaining = src.len() - *pos;
                if remaining < 2 || (len_i as u64) > ((remaining - 2) as u64) {
                    return Err(ParseError::NoMoreBytes);
                }
                let len_us = len_i as usize;
                if !(src[*pos + len_us] == 13 && src[*pos + len_us + 1] == 10) {
                    return Err(ParseError::InvalidBulk);
                }
                let mut payload: Vec<u8> = Vec::new();
                let start = *pos;
                let mut k: usize = start;
                while k < start + len_us
                    invariant
                        start <= k <= start + len_us,
                        payload@ == b.subrange(start as int, k as int),
                    decreases start + len_us - k,
                {
                    proof {
                        assert(b.subrange(start as int, k + 1) =~= b.subrange(
                            start as int,
                            k as int,
                        ).push(b[k as int]));
                    }
                    payload.push(src[k]);
                    k = k + 1;
                }
                match skip(src, pos, len_us + 2) {
                    Ok(_) => {},
                    Err(e) => {
                        return Err(e);
                    },
                };
                Ok(Frame::Bulk(payload))
            }
        } else if tag == 42 {
            let count = match get_decimal(src, pos) {
                Ok(v) => v,
                Err(e) => {
                    return Err(e);
                },
            };
            let ghost p2 = *pos as int;
            let ghost ntotal: nat = if count > 0 {
                count as nat
            } else {
                0
            };
            proof {
                assert(clamp_pos(b, pos0 + 1, p2) == p2);
            }
            let mut elems: Vec<Frame> = Vec::new();
            let mut k: i64 = 0;
            while k < count
                invariant
                    0 <= k,
                    count > 0 ==> k <= count,
                    count <= 0 ==> k == 0,
                    k == elems@.len(),
                    p2 <= *pos as int <= b.len(),
                    pos0 < *pos as int,
                    ({
                        let rest_r = spec_parse_n(b, *pos as int, (ntotal - k) as nat);
                        spec_parse_n(b, p2, ntotal) == match rest_r {
                            Ok((rest, p)) => Ok::<(Seq<FrameV>, int), ParseError>(
                                (frames_view(elems@) + rest, p),
                            ),
                            Err(e) => Err::<(Seq<FrameV>, int), ParseError>(e),
                        }
                    }),
                decreases count - k,
            {
                let ghost cur0 = *pos as int;
                let ghost m = (ntotal - k) as nat;
                let ghost elems_before = elems@;
                let f = match Frame::parse(src, pos) {
                    Ok(f) => f,
                    Err(e) => {
                        proof {
                            assert(spec_parse_n(b, cur0, m) == Err::<
                                (Seq<FrameV>, int),
                                ParseError,
                            >(e));
                            assert(spec_parse_n(b, p2, ntotal) == Err::<
                                (Seq<FrameV>, int),
                                ParseError,
                            >(e));
                            assert(spec_parse(b, pos0) == Err::<(FrameV, int), ParseError>(e));
                        }
                        return Err(e);
                    },
                };
                let ghost cur1 = *pos as int;
                proof {
                    assert(clamp_pos(b, cur0, cur1) == cur1);
                    let r2 = spec_parse_n(b, cur1, (m - 1) as nat);
                    lemma_frames_view_push(elems_before, f);
                    match r2 {
                        Ok((rest, p)) => {
                            assert(frames_view(elems_before) + (seq![f@] + rest) =~= frames_view(
                                elems_before.push(f),
                            ) + rest);
                        },
                        Err(_) => {},
                    }
                }
                elems.push(f);
                k = k + 1;
            }
            proof {
                let rest_r = spec_parse_n(b, *pos as int, (ntotal - k) as nat);
                assert(ntotal - k == 0);
                assert(rest_r == Ok::<(Seq<FrameV>, int), ParseError>(
                    (Seq::empty(), *pos as int),
                ));
                assert(frames_view(elems@) + Seq::<FrameV>::empty() =~= frames_view(elems@));
            }
            Ok(Frame::Array(elems))
        } else {
            Err(ParseError::UnknownTag)
        }
    }
}

// ---------------------------------------------------------------------------
// Serialization
// ---------------------------------------------------------------------------

/// Why a frame could not be rendered to bytes.
#[derive(Debug, Clone, Copy, PartialEq, Eq, Structural)]
pub enum SerializeError {
    /// A bulk payload that is not valid UTF-8 has no textual rendering.
    InvalidUtf8,
}

/// The two-byte CRLF line terminator.
pub open spec fn crlf() -> Seq<u8> {
    seq![13u8, 10u8]
}

/// The wire rendering of one frame.
pub open spec fn spec_ser(f: FrameV) -> Seq<u8>
    decreases f,
{
    match f {
        FrameV::Simple(s) => seq![43u8] + s + crlf(),
        FrameV::Error(s) => seq![45u8] + s + crlf(),
        FrameV::Integer(i) => seq![58u8] + dec_rep_signed(i as int) + crlf(),
        FrameV::Null => seq![36u8, 45u8, 49u8, 13u8, 10u8],
        FrameV::Bulk(p) => seq![36u8] + dec_rep(p.len()) + crlf() + p + crlf(),
        FrameV::Array(elems) => seq![42u8] + dec_rep(elems.len()) + crlf() + spec_ser_seq(elems),
    }
}

/// The wire rendering of a run of frames, concatenated in order.
pub open spec fn spec_ser_seq(elems: Seq<FrameV>) -> Seq<u8>
    decreases elems,
{
    if elems.len() == 0 {
        Seq::empty()
    } else {
        spec_ser(elems[0]) + spec_ser_seq(elems.drop_first())
    }
}

/// True when every bulk payload in the frame is valid UTF-8 — exactly the
/// frames whose textual rendering exists.
pub open spec fn bulks_utf8(f: FrameV) -> bool
    decreases f,
{
    match f {
        FrameV::Bulk(p) => vstd::utf8::valid_utf8(p),
        FrameV::Array(elems) => seq_bulks_utf8(elems),
        _ => true,
    }
}

/// [`bulks_utf8`], over a run of frames.
pub open spec fn seq_bulks_utf8(elems: Seq<FrameV>) -> bool
    decreases elems,
{
    if elems.len() == 0 {
        true
    } else {
        bulks_utf8(elems[0]) && seq_bulks_utf8(elems.drop_first())
    }
}

/// The elementwise reading of [`seq_bulks_utf8`].
pub proof fn lemma_seq_bulks_utf8(elems: Seq<FrameV>)
    ensures
        seq_bulks_utf8(elems) <==> (forall|i: int|
            0 <= i < elems.len() ==> bulks_utf8(#[trigger] elems[i])),
    decreases elems,
{
    if elems.len() > 0 {
        let d = elems.drop_first();
        lemma_seq_bulks_utf8(d);
        assert(seq_bulks_utf8(elems) ==> (forall|i: int|
            0 <= i < elems.len() ==> bulks_utf8(#[trigger] elems[i]))) by {
            if seq_bulks_utf8(elems) {
                assert forall|i: int| 0 <= i < elems.len() implies bulks_utf8(
                    #[trigger] elems[i],
                ) by {
                    if i > 0 {
                        assert(elems[i] == d[i - 1]);
                    }
                }
            }
        }
        assert((forall|i: int| 0 <= i < elems.len() ==> bulks_utf8(#[trigger] elems[i]))
            ==> seq_bulks_utf8(elems)) by {
            if forall|i: int| 0 <= i < elems.len() ==> bulks_utf8(#[trigger] elems[i]) {
                assert(bulks_utf8(elems[0]));
                assert forall|i: int| 0 <= i < d.len() implies bulks_utf8(#[trigger] d[i]) by {
                    assert(d[i] == elems[i + 1]);
                }
            }
        }
    }
}

/// Rendering one more frame appends its rendering.
proof fn lemma_ser_seq_take_succ(s: Seq<FrameV>, j: int)
    requires
        0 <= j < s.len(),
    ensures
        spec_ser_seq(s.take(j + 1)) == spec_ser_seq(s.take(j)) + spec_ser(s[j]),
    decreases j,
{
    if j == 0 {
        let t = s.take(1);
        assert(t[0] == s[0]);
        assert(t.drop_first() =~= Seq::<FrameV>::empty());
        assert(s.take(0) =~= Seq::<FrameV>::empty());
        assert(spec_ser_seq(t) == spec_ser(s[0]) + spec_ser_seq(Seq::<FrameV>::empty()));
        assert(spec_ser(s[0]) + Seq::<u8>::empty() =~= Seq::<u8>::empty() + spec_ser(s[0]));
    } else {
        let d = s.drop_first();
        lemma_ser_seq_take_succ(d, j - 1);
        assert(s.take(j + 1)[0] == s[0]);
        assert(s.take(j)[0] == s[0]);
        assert(s.take(j + 1).drop_first() =~= d.take(j));
        assert(s.take(j).drop_first() =~= d.take(j - 1));
        assert(d[j - 1] == s[j]);
        assert(spec_ser(s[0]) + (spec_ser_seq(d.take(j - 1)) + spec_ser(s[j])) =~= (spec_ser(s[0])
            + spec_ser_seq(d.take(j - 1))) + spec_ser(s[j]));
    }
}

impl Frame {
    /// Renders the frame to its wire bytes, total but for the one sharp
    /// edge of the textual rendering path: a bulk payload that is not
    /// valid UTF-8 (anywhere in an array) fails instead of rendering.
    #[verifier::loop_isolation(false)]
    pub fn serialize(&self) -> (r: Result<Vec<u8>, SerializeError>)
        ensures
            match r {
                Ok(bytes) => bulks_utf8(self@) && bytes@ == spec_ser(self@),
                Err(e) => !bulks_utf8(self@) && e == SerializeError::InvalidUtf8,
            },
        decreases *self,
    {
        match self {
            Frame::Simple(s) => {
                let mut out: Vec<u8> = Vec::new();
                out.push(43);
                push_all(&mut out, s);
                out.push(13);
                out.push(10);
                proof {
                    assert(out@ =~= seq![43u8] + s@ + crlf());
                }
                Ok(out)
            },
            Frame::Error(s) => {
                let mut out: Vec<u8> = Vec::new();
                out.push(45);
                push_all(&mut out, s);
                out.push(13);
                out.push(10);
                proof {
                    assert(out@ =~= seq![45u8] + s@ + crlf());
                }
                Ok(out)
            },
            Frame::Integer(i) => {
                let mut out: Vec<u8> = Vec::new();
                out.push(58);
                let digits = crate::text::fmt_i64(*i);
                push_all(&mut out, &digits);
                out.push(13);
                out.push(10);
                proof {
                    assert(out@ =~= seq![58u8] + dec_rep_signed(*i as int) + crlf());
                }
                Ok(out)
            },
            Frame::Null => {
                let mut out: Vec<u8> = Vec::new();
                out.push(36);
                out.push(45);
                out.push(49);
                out.push(13);
                out.push(10);
                proof {
                    assert(out@ =~= seq![36u8, 45u8, 49u8, 13u8, 10u8]);
                }
                Ok(out)
            },
            Frame::Bulk(p) => {
                if !crate::text::is_valid_utf8(p) {
                    return Err(SerializeError::InvalidUtf8);
                }
                let mut out: Vec<u8> = Vec::new();
                out.push(36);
                let digits = crate::text::fmt_u64(p.len() as u64);
                push_all(&mut out, &digits);
                out.push(13);
                out.push(10);
                push_all(&mut out, p);
                out.push(13);
                out.push(10);
                proof {
                    assert(out@ =~= seq![36u8] + dec_rep(p@.len()) + crlf() + p@ + crlf());
                }
                Ok(out)
            },
            Frame::Array(elems) => {
                let mut out: Vec<u8> = Vec::new();
                out.push(42);
                let digits = crate::text::fmt_u64(elems.len() as u64);
                push_all(&mut out, &digits);
                out.push(13);
                out.push(10);
                let ghost fvs = frames_view(elems@);
                let ghost hdr = seq![42u8] + dec_rep(fvs.len()) + crlf();
                proof {
                    lemma_frames_view(elems@);
                    assert(out@ =~= hdr);
                    assert(fvs.take(0) =~= Seq::<FrameV>::empty());
                    assert(out@ =~= hdr + spec_ser_seq(fvs.take(0)));
                }
                let n = elems.len();
                let mut j: usize = 0;
                while j < n
                    invariant
                        j <= n,
                        n == elems@.len(),
                        fvs == frames_view(elems@),
                        fvs.len() == n,
                        forall|i: int| 0 <= i < n ==> #[trigger] fvs[i] == frame_view(elems@[i]),
                        out@ == hdr + spec_ser_seq(fvs.take(j as int)),
                        forall|i: int| 0 <= i < j ==> bulks_utf8(#[trigger] fvs[i]),
                    decreases n - j,
                {
                    proof {
                        assert(decreases_to!(*self => *elems));
                        assert(decreases_to!(*elems => elems@[j as int]));
                    }
                    let sub = match elems[j].serialize() {
                        Ok(sv) => sv,
                        Err(e) => {
                            proof {
                                assert(!bulks_utf8(fvs[j as int]));
                                assert(self@ == FrameV::Array(fvs));
                                lemma_seq_bulks_utf8(fvs);
                            }
                            return Err(e);
                        },
                    };
                    proof {
                        lemma_ser_seq_take_succ(fvs, j as int);
                        assert((hdr + spec_ser_seq(fvs.take(j as int))) + sub@ =~= hdr + (
                        spec_ser_seq(fvs.take(j as int)) + spec_ser(fvs[j as int])));
                    }
                    push_all(&mut out, &sub);
                    j = j + 1;
                }
                proof {
                    assert(fvs.take(n as int) =~= fvs);
                    lemma_seq_bulks_utf8(fvs);
                }
                Ok(out)
            },
        }
    }
}

// ---------------------------------------------------------------------------
// The round-trip law
// ---------------------------------------------------------------------------

/// No CRLF pair starts anywhere in `s`: such a payload survives a line
/// read intact.
pub open spec fn crlf_free(s: Seq<u8>) -> bool {
    forall|k: int| 0 <= k < s.len() - 1 ==> !(#[trigger] s[k] == 13 && s[k + 1] == 10)
}

/// The frames the parser itself can produce: textual lines are valid
/// UTF-8 with no embedded CRLF, and every declared length fits the range
/// of a length line.
pub open spec fn frame_wf(f: FrameV) -> bool
    decreases f,
{
    match f {
        FrameV::Simple(s) => vstd::utf8::valid_utf8(s) && crlf_free(s),
        FrameV::Error(s) => vstd::utf8::valid_utf8(s) && crlf_free(s),
        FrameV::Integer(_) => true,
        FrameV::Null => true,
        FrameV::Bulk(p) => p.len() <= i64::MAX,
        FrameV::Array(elems) => elems.len() <= i64::MAX && seq_frames_wf(elems),
    }
}

/// [`frame_wf`], over a run of frames.
pub open spec fn seq_frames_wf(elems: Seq<FrameV>) -> bool
    decreases elems,
{
    if elems.len() == 0 {
        true
    } else {
        frame_wf(elems[0]) && seq_frames_wf(elems.drop_first())
    }
}

/// Every rendering starts with its tag byte, so none is empty.
proof fn lemma_spec_ser_nonempty(f: FrameV)
    ensures
        spec_ser(f).len() >= 1,
{
    match f {
        FrameV::Simple(s) => {},
        FrameV::Error(s) => {},
        FrameV::Integer(i) => {},
        FrameV::Null => {},
        FrameV::Bulk(p) => {},
        FrameV::Array(elems) => {},
    }
}

/// Reads each byte of an embedded slice through the enclosing buffer.
proof fn lemma_embedded_bytes(b: Seq<u8>, pos: int, s: Seq<u8>)
    requires
        0 <= pos,
        pos + s.len() <= b.len(),
        b.subrange(pos, pos + s.len() as int) == s,
    ensures
        forall|i: int| 0 <= i < s.len() ==> #[trigger] b[pos + i] == s[i],
{
    assert(forall|i: int|
        0 <= i < s.len() ==> s[i] == #[trigger] b.subrange(pos, pos + s.len() as int)[i]);
}

/// A sub-slice of an embedded slice is embedded at the shifted position.
proof fn lemma_slice_of_slice(b: Seq<u8>, pos: int, s: Seq<u8>, a: int, c: int)
    requires
        0 <= pos,
        pos + s.len() <= b.len(),
        b.subrange(pos, pos + s.len() as int) == s,
        0 <= a <= c <= s.len(),
    ensures
        b.subrange(pos + a, pos + c) == s.subrange(a, c),
{
    lemma_embedded_bytes(b, pos, s);
    assert(b.subrange(pos + a, pos + c) =~= s.subrange(a, c));
}

/// A byte run without 13 in it is CRLF-free.
proof fn lemma_no_cr_crlf_free(s: Seq<u8>)
    requires
        forall|i: int| 0 <= i < s.len() ==> #[trigger] s[i] != 13,
    ensures
        crlf_free(s),
{
}

/// The canonical numeral of a signed value contains no 13.
proof fn lemma_dec_rep_signed_bytes(v: i64)
    ensures
        crlf_free(dec_rep_signed(v as int)),
        dec_rep_signed(v as int).len() >= 1,
        dec_rep_signed(v as int)[0] == 45 <==> v < 0,
{
    if v < 0 {
        crate::text::lemma_dec_rep_digits((-(v as int)) as nat);
        let m = dec_rep((-(v as int)) as nat);
        let s = seq![45u8] + m;
        assert(s[0] == 45);
        assert forall|i: int| 0 <= i < s.len() implies #[trigger] s[i] != 13 by {
            if i > 0 {
                assert(s[i] == m[i - 1]);
                assert(crate::text::is_ascii_digit(m[i - 1]));
            }
        }
        lemma_no_cr_crlf_free(s);
    } else {
        crate::text::lemma_dec_rep_digits(v as nat);
        let s = dec_rep(v as nat);
        assert forall|i: int| 0 <= i < s.len() implies #[trigger] s[i] != 13 by {
            assert(crate::text::is_ascii_digit(s[i]));
        }
        lemma_no_cr_crlf_free(s);
        assert(crate::text::is_ascii_digit(s[0]));
    }
}

/// A CRLF-free line laid down at `pos` and terminated by CRLF is exactly
/// what the line reader returns.
proof fn lemma_get_line_of(b: Seq<u8>, pos: int, line: Seq<u8>)
    requires
        0 <= pos,
        crlf_free(line),
        pos + line.len() + 2 <= b.len(),
        b.subrange(pos, pos + line.len() as int) == line,
        b[pos + line.len()] == 13,
        b[pos + line.len() + 1] == 10,
    ensures
        spec_get_line(b, pos) == Ok::<(Seq<u8>, int), ParseError>((line, pos + line.len() + 2)),
{
    let j = pos + line.len() as int;
    lemma_embedded_bytes(b, pos, line);
    assert forall|k: int| pos <= k < j implies !(#[trigger] b[k] == 13 && b[k + 1] == 10) by {
        assert(b[k] == line[k - pos]);
        if k < j - 1 {
            assert(b[k + 1] == line[k - pos + 1]);
        } else {
            assert(b[k + 1] == 13);
        }
    }
    lemma_find_crlf_at(b, pos, j);
    assert(b.subrange(pos, j) =~= line);
}

/// A canonical numeral line laid down at `pos` is exactly what the
/// decimal reader returns.
proof fn lemma_get_decimal_of(b: Seq<u8>, pos: int, v: i64)
    requires
        0 <= pos,
        pos + dec_rep_signed(v as int).len() + 2 <= b.len(),
        b.subrange(pos, pos + dec_rep_signed(v as int).len() as int) == dec_rep_signed(v as int),
        b[pos + dec_rep_signed(v as int).len()] == 13,
        b[pos + dec_rep_signed(v as int).len() + 1] == 10,
    ensures
        spec_get_decimal(b, pos) == Ok::<(i64, int), ParseError>(
            (v, pos + dec_rep_signed(v as int).len() + 2),
        ),
{
    lemma_dec_rep_signed_bytes(v);
    lemma_get_line_of(b, pos, dec_rep_signed(v as int));
    crate::text::lemma_parse_i64_dec_rep(v);
}

/// Parsing inverts rendering: a well-formed frame laid down at `pos`
/// parses back to itself, consuming exactly its rendering.
pub proof fn lemma_parse_of_ser(f: FrameV, b: Seq<u8>, pos: int)
    requires
        frame_wf(f),
        bulks_utf8(f),
        0 <= pos,
        pos + spec_ser(f).len() <= b.len(),
        b.subrange(pos, pos + spec_ser(f).len() as int) == spec_ser(f),
    ensures
        spec_parse(b, pos) == Ok::<(FrameV, int), ParseError>((f, pos + spec_ser(f).len())),
    decreases f,
{
    let ser = spec_ser(f);
    lemma_embedded_bytes(b, pos, ser);
    match f {
        FrameV::Simple(s) => {
            assert(ser[0] == 43);
            assert(ser.subrange(1, 1 + s.len() as int) =~= s);
            lemma_slice_of_slice(b, pos, ser, 1, 1 + s.len() as int);
            assert(ser[1 + s.len() as int] == 13);
            assert(ser[1 + s.len() as int + 1] == 10);
            lemma_get_line_of(b, pos + 1, s);
        },
        FrameV::Error(s) => {
            assert(ser[0] == 45);
            assert(ser.subrange(1, 1 + s.len() as int) =~= s);
            lemma_slice_of_slice(b, pos, ser, 1, 1 + s.len() as int);
            assert(ser[1 + s.len() as int] == 13);
            assert(ser[1 + s.len() as int + 1] == 10);
            lemma_get_line_of(b, pos + 1, s);
        },
        FrameV::Integer(v) => {
            let rep = dec_rep_signed(v as int);
            assert(ser[0] == 58);
            assert(ser.subrange(1, 1 + rep.len() as int) =~= rep);
            lemma_slice_of_slice(b, pos, ser, 1, 1 + rep.len() as int);
            assert(ser[1 + rep.len() as int] == 13);
            assert(ser[1 + rep.len() as int + 1] == 10);
            lemma_get_decimal_of(b, pos + 1, v);
        },
        FrameV::Null => {
            assert(ser =~= seq![36u8, 45u8, 49u8, 13u8, 10u8]);
            assert(b[pos] == 36);
            assert(b[pos + 1] == 45);
            assert(b[pos + 2] == 49);
            assert(b[pos + 3] == 13);
            assert(b[pos + 4] == 10);
            let line = seq![45u8, 49u8];
            assert(line.len() == 2);
            assert(crlf_free(line));
            assert(b.subrange(pos + 1, pos + 3) =~= line);
            lemma_get_line_of(b, pos + 1, line);
        },
        FrameV::Bulk(p) => {
            let v: i64 = p.len() as i64;
            let rep = dec_rep_signed(v as int);
            assert(rep =~= dec_rep(p.len()));
            assert(ser[0] == 36);
            lemma_dec_rep_signed_bytes(v);
            assert(ser.subrange(1, 1 + rep.len() as int) =~= rep);
            lemma_slice_of_slice(b, pos, ser, 1, 1 + rep.len() as int);
            assert(ser[1 + rep.len() as int] == 13);
            assert(ser[1 + rep.len() as int + 1] == 10);
            lemma_get_decimal_of(b, pos + 1, v);
            // The peeked byte is the numeral's first digit, never `-`.
            assert(b[pos + 1] == rep[0]);
            crate::text::lemma_dec_rep_digits(p.len());
            let p2 = pos + 1 + rep.len() as int + 2;
            assert(ser.subrange(
                1 + rep.len() as int + 2,
                1 + rep.len() as int + 2 + p.len() as int,
            ) =~= p);
            lemma_slice_of_slice(
                b,
                pos,
                ser,
                1 + rep.len() as int + 2,
                1 + rep.len() as int + 2 + p.len() as int,
            );
            assert(b.subrange(p2, p2 + p.len() as int) == p);
            assert(ser[1 + rep.len() as int + 2 + p.len() as int] == 13);
            assert(ser[1 + rep.len() as int + 2 + p.len() as int + 1] == 10);
            assert(b[p2 + v] == 13);
            assert(b[p2 + v + 1] == 10);
        },
        FrameV::Array(elems) => {
            let v: i64 = elems.len() as i64;
            let rep = dec_rep_signed(v as int);
            assert(rep =~= dec_rep(elems.len()));
            assert(ser[0] == 42);
            lemma_dec_rep_signed_bytes(v);
            assert(ser.subrange(1, 1 + rep.len() as int) =~= rep);
            lemma_slice_of_slice(b, pos, ser, 1, 1 + rep.len() as int);
            assert(ser[1 + rep.len() as int] == 13);
            assert(ser[1 + rep.len() as int + 1] == 10);
            lemma_get_decimal_of(b, pos + 1, v);
            let p2 = pos + 1 + rep.len() as int + 2;
            let body = spec_ser_seq(elems);
            assert(ser.subrange(
                1 + rep.len() as int + 2,
                1 + rep.len() as int + 2 + body.len() as int,
            ) =~= body);
            lemma_slice_of_slice(
                b,
                pos,
                ser,
                1 + rep.len() as int + 2,
                1 + rep.len() as int + 2 + body.len() as int,
            );
            lemma_parse_n_of_ser(elems, b, p2);
            assert(clamp_pos(b, pos + 1, p2) == p2);
            let n: nat = if v > 0 {
                v as nat
            } else {
                0
            };
            assert(n == elems.len());
        },
    }
}

/// Parsing inverts rendering for a run of frames laid down end to end.
proof fn lemma_parse_n_of_ser(elems: Seq<FrameV>, b: Seq<u8>, pos: int)
    requires
        seq_frames_wf(elems),
        seq_bulks_utf8(elems),
        0 <= pos,
        pos + spec_ser_seq(elems).len() <= b.len(),
        b.subrange(pos, pos + spec_ser_seq(elems).len() as int) == spec_ser_seq(elems),
    ensures
        spec_parse_n(b, pos, elems.len()) == Ok::<(Seq<FrameV>, int), ParseError>(
            (elems, pos + spec_ser_seq(elems).len()),
        ),
    decreases elems,
{
    if elems.len() == 0 {
        assert(elems =~= Seq::<FrameV>::empty());
    } else {
        let head = elems[0];
        let rest = elems.drop_first();
        let l0 = spec_ser(head).len() as int;
        let lr = spec_ser_seq(rest).len() as int;
        assert(spec_ser_seq(elems) == spec_ser(head) + spec_ser_seq(rest));
        assert(spec_ser_seq(elems).subrange(0, l0) =~= spec_ser(head));
        assert(spec_ser_seq(elems).subrange(l0, l0 + lr) =~= spec_ser_seq(rest));
        lemma_slice_of_slice(b, pos, spec_ser_seq(elems), 0, l0);
        lemma_slice_of_slice(b, pos, spec_ser_seq(elems), l0, l0 + lr);
        assert(b.subrange(pos + 0, pos + l0) == spec_ser(head));
        lemma_parse_of_ser(head, b, pos);
        lemma_spec_ser_nonempty(head);
        assert(clamp_pos(b, pos, pos + l0) == pos + l0);
        lemma_parse_n_of_ser(rest, b, pos + l0);
        assert(seq![head] + rest =~= elems);
    }
}

/// Round-trip: a well-formed frame whose bulk payloads are valid UTF-8
/// parses back from its own rendering, consuming it exactly.
pub proof fn lemma_round_trip(f: FrameV)
    requires
        frame_wf(f),
        bulks_utf8(f),
    ensures
        spec_parse(spec_ser(f), 0) == Ok::<(FrameV, int), ParseError>(
            (f, spec_ser(f).len() as int),
        ),
{
    let ser = spec_ser(f);
    assert(ser.subrange(0, ser.len() as int) =~= ser);
    lemma_parse_of_ser(f, ser, 0);
}

/// Why a frame has no raw byte payload.
#[derive(Debug, Clone, Copy, PartialEq, Eq, Structural)]
pub enum IntoBytesError {
    /// An integer frame holds a number, not bytes.
    Integer,
    /// A null frame holds nothing.
    Null,
    /// An array frame holds nested frames, not bytes.
    Array,
}

/// What [`Frame::into_bytes`] yields: the raw payload of a textual or
/// bulk frame.
pub open spec fn spec_into_bytes(f: FrameV) -> Result<Seq<u8>, IntoBytesError> {
    match f {
        FrameV::Simple(s) => Ok(s),
        FrameV::Error(s) => Ok(s),
        FrameV::Integer(_) => Err(IntoBytesError::Integer),
        FrameV::Null => Err(IntoBytesError::Null),
        FrameV::Bulk(p) => Ok(p),
        FrameV::Array(_) => Err(IntoBytesError::Array),
    }
}

impl Frame {
    /// A copy of the raw byte payload of a textual or bulk frame;
    /// integers, nulls and arrays have none.
    pub fn into_bytes(&self) -> (r: Result<Vec<u8>, IntoBytesError>)
        ensures
            match r {
                Ok(p) => spec_into_bytes(self@) == Ok::<Seq<u8>, IntoBytesError>(p@),
                Err(e) => spec_into_bytes(self@) == Err::<Seq<u8>, IntoBytesError>(e),
            },
    {
        match self {
            Frame::Simple(s) => Ok(copy_bytes(s)),
            Frame::Error(s) => Ok(copy_bytes(s)),
            Frame::Integer(_) => Err(IntoBytesError::Integer),
            Frame::Null => Err(IntoBytesError::Null),
            Frame::Bulk(p) => Ok(copy_bytes(p)),
            Frame::Array(_) => Err(IntoBytesError::Array),
        }
    }
}

/// Copies a byte string.
pub(crate) fn copy_bytes(src: &Vec<u8>) -> (r: Vec<u8>)
    ensures
        r@ == src@,
{
    let mut r: Vec<u8> = Vec::new();
    let n = src.len();
    let mut i: usize = 0;
    while i < n
        invariant
            i <= n,
            n == src@.len(),
            r@ == src@.take(i as int),
        decreases n - i,
    {
        proof {
            assert(src@.take(i + 1) =~= src@.take(i as int).push(src@[i as int]));
        }
        r.push(src[i]);
        i = i + 1;
    }
    proof {
        assert(src@.take(n as int) =~= src@);
    }
    r
}

/// Appends a copy of `src` to `dst`.
pub(crate) fn push_all(dst: &mut Vec<u8>, src: &Vec<u8>)
    ensures
        final(dst)@ == old(dst)@ + src@,
{
    let n = src.len();
    let mut i: usize = 0;
    while i < n
        invariant
            i <= n,
            n == src@.len(),
            dst@ == old(dst)@ + src@.take(i as int),
        decreases n - i,
    {
        proof {
            assert(old(dst)@ + src@.take(i + 1) =~= (old(dst)@ + src@.take(i as int)).push(
                src@[i as int],
            ));
        }
        dst.push(src[i]);
        i = i + 1;
    }
    proof {
        assert(old(dst)@ + src@.take(n as int) =~= old(dst)@ + src@);
    }
}

} // verus!
