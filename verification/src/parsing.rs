//! Framing of Language Server Protocol messages: a frame is a block of
//! ASCII header lines terminated by a blank line, followed by exactly
//! `Content-Length` bytes of body.
//!
//! The decoder works on a byte buffer and reports, besides the decoded
//! body, the position where the next frame starts.

use vstd::prelude::*;
use crate::byteops::{is_ws, trimmed, trim_front, trim_back, lower, lower_byte, trim_bounds,
    lower_range, push_all};
use crate::numbers::{dec_value, dec_repr, digits_val, all_digits, is_digit, parse_dec_u64,
    u64_to_dec};
use crate::json_io::{json_parses, string_from_utf8, json_from_str};
use vstd::utf8::{valid_utf8, decode_utf8};
use serde_json::Value;

verus! {

/// A recognized message header.
#[derive(Debug, PartialEq, Eq, Clone, Copy)]
pub enum LspHeader {
    ContentType,
    ContentLength(usize),
}

/// The ways decoding a message can fail. `Io` stands for input that ends
/// before the frame is complete, `ParseInt` for an unusable
/// `Content-Length` value, `Utf8` for a body that is not UTF-8, `Json`
/// for a body that is not JSON, and `Unknown` for an unrecognized or
/// malformed header line or a missing `Content-Length` header.
#[derive(Debug, PartialEq, Eq, Clone, Copy)]
pub enum ParseError {
    Io,
    ParseInt,
    Utf8,
    Json,
    Unknown,
}

/// The lowercased header name `content-length`.
pub open spec fn cl_name() -> Seq<u8> {
    seq![99u8, 111, 110, 116, 101, 110, 116, 45, 108, 101, 110, 103, 116, 104]
}

/// The lowercased header name `content-type`.
pub open spec fn ct_name() -> Seq<u8> {
    seq![99u8, 111, 110, 116, 101, 110, 116, 45, 116, 121, 112, 101]
}

/// Whether the two bytes at `i` are the `": "` separator.
pub open spec fn sep_at(s: Seq<u8>, i: int) -> bool {
    0 <= i && i + 2 <= s.len() && s[i] == 58 && s[i + 1] == 32
}

/// The first index at or after `from` where the `": "` separator occurs,
/// or -1 if there is none.
pub open spec fn first_sep(s: Seq<u8>, from: int) -> int
    decreases s.len() - from,
        when 0 <= from <= s.len()
{
    if from + 2 > s.len() {
        -1
    } else if sep_at(s, from) {
        from
    } else {
        first_sep(s, from + 1)
    }
}

/// What parsing one header line yields: the line is split on a single
/// `": "`, name and value are trimmed and lowercased, and the name must
/// be `content-length` (whose value is read as a non-negative base-10
/// number) or `content-type` (whose value is ignored).
pub open spec fn parse_header_spec(s: Seq<u8>) -> Result<LspHeader, ParseError> {
    let i = first_sep(s, 0);
    if i == -1 || first_sep(s, i + 2) != -1 {
        Err(ParseError::Unknown)
    } else {
        let name = lower(trimmed(s.subrange(0, i)));
        let val = lower(trimmed(s.subrange(i + 2, s.len() as int)));
        if name == ct_name() {
            Ok(LspHeader::ContentType)
        } else if name == cl_name() {
            match dec_value(val) {
                Some(n) => if n <= usize::MAX {
                    Ok(LspHeader::ContentLength(n as usize))
                } else {
                    Err(ParseError::ParseInt)
                },
                None => Err(ParseError::ParseInt),
            }
        } else {
            Err(ParseError::Unknown)
        }
    }
}

/// Finds the first `": "` separator at or after `from`.
fn find_sep(s: &[u8], from: usize) -> (r: Option<usize>)
    requires
        from <= s@.len(),
    ensures
        match r {
            Some(j) => j == first_sep(s@, from as int) && sep_at(s@, j as int),
            None => first_sep(s@, from as int) == -1,
        },
{
    let n = s.len();
    let mut j = from;
    while j < n && j + 1 < n
        invariant
            from <= j,
            j <= n == s@.len(),
            first_sep(s@, from as int) == first_sep(s@, j as int),
        decreases n - j,
    {
        if s[j] == 58 && s[j + 1] == 32 {
            return Some(j);
        }
        j = j + 1;
    }
    None
}

/// Whether `v` is exactly the lowercased name `content-length`.
fn is_cl_name(v: &[u8]) -> (r: bool)
    ensures
        r == (v@ == cl_name()),
{
    let eq = v.len() == 14 && v[0] == 99 && v[1] == 111 && v[2] == 110 && v[3] == 116
        && v[4] == 101 && v[5] == 110 && v[6] == 116 && v[7] == 45 && v[8] == 108 && v[9] == 101
        && v[10] == 110 && v[11] == 103 && v[12] == 116 && v[13] == 104;
    proof {
        if eq {
            assert(v@ =~= cl_name());
        } else {
            assert(v@ != cl_name());
        }
    }
    eq
}

/// Whether `v` is exactly the lowercased name `content-type`.
fn is_ct_name(v: &[u8]) -> (r: bool)
    ensures
        r == (v@ == ct_name()),
{
    let eq = v.len() == 12 && v[0] == 99 && v[1] == 111 && v[2] == 110 && v[3] == 116
        && v[4] == 101 && v[5] == 110 && v[6] == 116 && v[7] == 45 && v[8] == 116 && v[9] == 121
        && v[10] == 112 && v[11] == 101;
    proof {
        if eq {
            assert(v@ =~= ct_name());
        } else {
            assert(v@ != ct_name());
        }
    }
    eq
}

/// Parses one header line: it must consist of a name and a value joined
/// by a single `": "`; both sides are trimmed and compared
/// case-insensitively.
pub fn parse_header(s: &[u8]) -> (r: Result<LspHeader, ParseError>)
    ensures
        r == parse_header_spec(s@),
{
    let i = match find_sep(s, 0) {
        Some(i) => i,
        None => {
            return Err(ParseError::Unknown);
        },
    };
    let n = s.len();
    proof {
        assert(i + 2 <= n);
    }
    match find_sep(s, i + 2) {
        Some(_) => {
            return Err(ParseError::Unknown);
        },
        None => {},
    }
    let p0 = &s[0..i];
    let (lo0, hi0) = trim_bounds(p0);
    let name = lower_range(p0, lo0, hi0);
    proof {
        assert(name@ == lower(trimmed(s@.subrange(0, i as int))));
    }
    let p1 = &s[i + 2..s.len()];
    let (lo1, hi1) = trim_bounds(p1);
    let val = lower_range(p1, lo1, hi1);
    proof {
        assert(val@ == lower(trimmed(s@.subrange(i + 2, s@.len() as int))));
    }
    if is_ct_name(name.as_slice()) {
        Ok(LspHeader::ContentType)
    } else if is_cl_name(name.as_slice()) {
        match parse_dec_u64(val.as_slice()) {
            Some(v) => {
                if v <= usize::MAX as u64 {
                    Ok(LspHeader::ContentLength(v as usize))
                } else {
                    Err(ParseError::ParseInt)
                }
            },
            None => Err(ParseError::ParseInt),
        }
    } else {
        Err(ParseError::Unknown)
    }
}

/// The index just past the first line feed at or after `from`, or the end
/// of the input if there is none.
pub open spec fn line_end(s: Seq<u8>, from: int) -> int
    decreases s.len() - from,
        when 0 <= from <= s.len()
{
    if from >= s.len() {
        from
    } else if s[from] == 10 {
        from + 1
    } else {
        line_end(s, from + 1)
    }
}

pub proof fn lemma_line_end_bounds(s: Seq<u8>, from: int)
    requires
        0 <= from <= s.len(),
    ensures
        from <= line_end(s, from) <= s.len(),
        from < s.len() ==> line_end(s, from) > from,
    decreases s.len() - from,
{
    if from < s.len() && s[from] != 10 {
        lemma_line_end_bounds(s, from + 1);
    }
}

/// Reading the header block: lines are consumed until a line that is
/// blank after trimming; each other line must parse as a header, and the
/// last `content-length` value seen is retained. An error carries the
/// position just past the offending line, where reading can resume.
pub open spec fn parse_headers(s: Seq<u8>, from: int, acc: Option<usize>) -> Result<
    (Option<usize>, int),
    (ParseError, int),
>
    decreases s.len() - from,
        when 0 <= from <= s.len()
        via parse_headers_decreases
{
    let e = line_end(s, from);
    let line = s.subrange(from, e);
    if trimmed(line).len() == 0 {
        Ok((acc, e))
    } else {
        match parse_header_spec(line) {
            Ok(LspHeader::ContentLength(n)) => parse_headers(s, e, Some(n)),
            Ok(LspHeader::ContentType) => parse_headers(s, e, acc),
            Err(err) => Err((err, e)),
        }
    }
}

#[via_fn]
proof fn parse_headers_decreases(s: Seq<u8>, from: int, acc: Option<usize>) {
    lemma_line_end_bounds(s, from);
    if line_end(s, from) == from {
        assert(s.subrange(from, from) =~= Seq::<u8>::empty());
        assert(trim_front(Seq::<u8>::empty()) =~= Seq::<u8>::empty());
        assert(trimmed(s.subrange(from, from)).len() == 0);
    }
}

/// What decoding one frame from position `start` yields: the body bytes
/// and the position just past them, or the error with the position where
/// decoding stopped. `Io` means the input ended before `content-length`
/// bytes of body were available: with more input, decoding is retried
/// from `start`. The other errors leave the position at a frame
/// boundary, so the next frame can still be decoded.
pub open spec fn decode_spec(s: Seq<u8>, start: int) -> Result<(Seq<u8>, int), (ParseError, int)> {
    match parse_headers(s, start, None) {
        Ok((opt, body_start)) => match opt {
            Some(n) => if body_start + n <= s.len() {
                Ok((s.subrange(body_start, body_start + n), body_start + n))
            } else {
                Err((ParseError::Io, body_start))
            },
            None => Err((ParseError::Unknown, body_start)),
        },
        Err(e) => Err(e),
    }
}

/// Finds the end of the line that starts at `from`.
fn find_line_end(s: &[u8], from: usize) -> (r: usize)
    requires
        from <= s@.len(),
    ensures
        r == line_end(s@, from as int),
        from <= r <= s@.len(),
        from < s@.len() ==> r > from,
{
    let n = s.len();
    let mut j = from;
    while j < n
        invariant
            from <= j,
            j <= n == s@.len(),
            line_end(s@, from as int) == line_end(s@, j as int),
        decreases n - j,
    {
        if s[j] == 10 {
            proof {
                lemma_line_end_bounds(s@, from as int);
            }
            return j + 1;
        }
        j = j + 1;
    }
    proof {
        lemma_line_end_bounds(s@, from as int);
    }
    n
}

/// Decodes one message from `input` at position `start`: reads header
/// lines until a blank line, requires a `content-length` header, takes
/// that many body bytes, and parses them as UTF-8 JSON. On success the
/// value is returned together with the position just past the frame; an
/// error comes with the position where decoding stopped, so that a bad
/// message need not end the stream.
pub fn read_message(input: &[u8], start: usize) -> (r: Result<
    (Value, usize),
    (ParseError, usize),
>)
    requires
        start <= input@.len(),
    ensures
        match decode_spec(input@, start as int) {
            Ok((body, next)) => match r {
                Ok((v, p)) => p == next && valid_utf8(body) && json_parses(decode_utf8(body)),
                Err((e, p)) => p == next && ((e == ParseError::Utf8 && !valid_utf8(body)) || (e
                    == ParseError::Json && valid_utf8(body) && !json_parses(decode_utf8(body)))),
            },
            Err((e, p)) => r matches Err((e2, p2)) && e2 == e && p2 == p,
        },
{
    let n = input.len();
    let mut pos = start;
    let mut content_length: Option<usize> = None;
    loop
        invariant_except_break
            start <= pos <= n,
            n == input@.len(),
            start <= input@.len(),
            parse_headers(input@, start as int, None) == parse_headers(
                input@,
                pos as int,
                content_length,
            ),
        ensures
            start <= pos <= n,
            n == input@.len(),
            parse_headers(input@, start as int, None) == Ok::<
                (Option<usize>, int),
                (ParseError, int),
            >((content_length, pos as int)),
        decreases n - pos,
    {
        let e = find_line_end(input, pos);
        let line = &input[pos..e];
        let (lo, hi) = trim_bounds(line);
        if lo == hi {
            proof {
                assert(trimmed(line@).len() == 0);
            }
            pos = e;
            break;
        }
        proof {
            assert(trimmed(line@).len() != 0);
        }
        match parse_header(line) {
            Ok(LspHeader::ContentLength(len)) => {
                content_length = Some(len);
            },
            Ok(LspHeader::ContentType) => {},
            Err(err) => {
                proof {
                    assert(parse_headers(input@, pos as int, content_length) == Err::<
                        (Option<usize>, int),
                        (ParseError, int),
                    >((err, e as int)));
                }
                return Err((err, e));
            },
        }
        pos = e;
    }
    let len = match content_length {
        Some(len) => len,
        None => {
            return Err((ParseError::Unknown, pos));
        },
    };
    if len > n - pos {
        return Err((ParseError::Io, pos));
    }
    let mut body: Vec<u8> = Vec::new();
    push_all(&mut body, &input[pos..pos + len]);
    proof {
        assert(body@ =~= input@.subrange(pos as int, pos + len));
    }
    let next = pos + len;
    let text = match string_from_utf8(body) {
        Ok(t) => t,
        Err(_) => {
            return Err((ParseError::Utf8, next));
        },
    };
    match json_from_str(text.as_str()) {
        Ok(v) => Ok((v, next)),
        Err(_) => Err((ParseError::Json, next)),
    }
}

/// The fixed `Content-Length: ` header prefix a produced frame begins
/// with.
pub open spec fn cl_prefix() -> Seq<u8> {
    seq![67u8, 111, 110, 116, 101, 110, 116, 45, 76, 101, 110, 103, 116, 104, 58, 32]
}

/// The wire form of a frame carrying `body`: the `Content-Length` header
/// with the exact byte count, a blank line, then the body itself.
pub open spec fn frame_bytes(body: Seq<u8>) -> Seq<u8> {
    cl_prefix() + dec_repr(body.len()) + seq![13u8, 10, 13, 10] + body
}

/// Wraps `body` in a frame: `Content-Length: {n}\r\n\r\n{body}`.
pub fn frame_payload(body: &[u8]) -> (r: Vec<u8>)
    ensures
        r@ == frame_bytes(body@),
{
    let mut r: Vec<u8> = Vec::new();
    r.push(67);
    r.push(111);
    r.push(110);
    r.push(116);
    r.push(101);
    r.push(110);
    r.push(116);
    r.push(45);
    r.push(76);
    r.push(101);
    r.push(110);
    r.push(103);
    r.push(116);
    r.push(104);
    r.push(58);
    r.push(32);
    let digits = u64_to_dec(body.len() as u64);
    push_all(&mut r, digits.as_slice());
    r.push(13);
    r.push(10);
    r.push(13);
    r.push(10);
    push_all(&mut r, body);
    proof {
        assert(r@ =~= frame_bytes(body@));
    }
    r
}

proof fn lemma_line_end_at(s: Seq<u8>, from: int, k: int)
    requires
        0 <= from <= k < s.len(),
        s[k] == 10,
        forall|i: int| from <= i < k ==> s[i] != 10,
    ensures
        line_end(s, from) == k + 1,
    decreases k - from,
{
    if from < k {
        lemma_line_end_at(s, from + 1, k);
    }
}

proof fn lemma_first_sep_at(s: Seq<u8>, from: int, k: int)
    requires
        0 <= from <= k,
        sep_at(s, k),
        forall|i: int| from <= i < k ==> s[i] != 58,
    ensures
        first_sep(s, from) == k,
    decreases k - from,
{
    if from < k {
        lemma_first_sep_at(s, from + 1, k);
    }
}

proof fn lemma_first_sep_none(s: Seq<u8>, from: int)
    requires
        0 <= from <= s.len(),
        forall|i: int| from <= i < s.len() ==> s[i] != 58,
    ensures
        first_sep(s, from) == -1,
    decreases s.len() - from,
{
    if from + 2 <= s.len() {
        lemma_first_sep_none(s, from + 1);
    }
}

proof fn lemma_lower_digits(s: Seq<u8>)
    requires
        all_digits(s),
    ensures
        lower(s) == s,
{
    assert(lower(s) =~= s);
}

proof fn lemma_trim_noop(s: Seq<u8>)
    requires
        s.len() > 0,
        !is_ws(s[0]),
        !is_ws(s.last()),
    ensures
        trimmed(s) == s,
{
}

/// Trimming removes a trailing line terminator, of either form, from a
/// line whose content does not end in whitespace.
proof fn lemma_trim_back_term(x: Seq<u8>, term: Seq<u8>)
    requires
        x.len() > 0,
        !is_ws(x.last()),
        term == seq![13u8, 10] || term == seq![10u8],
    ensures
        trim_back(x + term) == x,
{
    let a = x + term;
    if term == seq![13u8, 10] {
        assert(a.last() == 10);
        assert(a.drop_last() =~= x + seq![13u8]);
        let b = x + seq![13u8];
        assert(trim_back(a) == trim_back(b));
        assert(b.last() == 13);
        assert(b.drop_last() =~= x);
        assert(trim_back(b) == trim_back(x));
    } else {
        assert(a.last() == 10);
        assert(a.drop_last() =~= x);
        assert(trim_back(a) == trim_back(x));
    }
    assert(trim_back(x) == x);
}

/// A line terminator alone is a blank line.
proof fn lemma_trim_term_empty(term: Seq<u8>)
    requires
        term == seq![13u8, 10] || term == seq![10u8],
    ensures
        trimmed(term).len() == 0,
{
    if term == seq![13u8, 10] {
        assert(term.subrange(1, 2) =~= seq![10u8]);
        assert(trim_front(term) == trim_front(seq![10u8]));
    }
    assert(seq![10u8].subrange(1, 1) =~= Seq::<u8>::empty());
    assert(trim_front(seq![10u8]) == trim_front(Seq::<u8>::empty()));
    assert(trim_front(Seq::<u8>::empty()) == Seq::<u8>::empty());
    assert(trim_back(Seq::<u8>::empty()) == Seq::<u8>::empty());
}

/// A `Content-Length` header line with a digit value and either line
/// terminator parses to that value, and is not blank.
proof fn lemma_header_line(digits: Seq<u8>, term: Seq<u8>)
    requires
        all_digits(digits),
        digits.len() >= 1,
        digits_val(digits) <= usize::MAX,
        term == seq![13u8, 10] || term == seq![10u8],
    ensures
        ({
            let line = cl_prefix() + digits + term;
            &&& parse_header_spec(line) == Ok::<LspHeader, ParseError>(
                LspHeader::ContentLength(digits_val(digits) as usize),
            )
            &&& trimmed(line) == cl_prefix() + digits
        }),
{
    let line = cl_prefix() + digits + term;
    let dl = digits.len() as int;
    assert(forall|i: int| 0 <= i < 16 ==> line[i] == cl_prefix()[i]);
    assert(forall|j: int| 0 <= j < dl ==> line[16 + j] == digits[j]);
    assert(forall|j: int| 0 <= j < term.len() ==> line[16 + dl + j] == term[j]);

    // the one separator sits after the header name
    assert(sep_at(line, 14));
    assert(forall|i: int| 0 <= i < 14 ==> line[i] != 58);
    lemma_first_sep_at(line, 0, 14);
    assert(forall|i: int| 16 <= i < line.len() ==> line[i] != 58) by {
        assert(forall|j: int| 0 <= j < dl ==> is_digit(digits[j]));
    }
    lemma_first_sep_none(line, 16);

    // the name piece lowercases to `content-length`
    let name_raw = line.subrange(0, 14);
    assert(name_raw =~= cl_prefix().subrange(0, 14));
    lemma_trim_noop(name_raw);
    assert(lower(trimmed(name_raw)) =~= cl_name());
    assert(cl_name() != ct_name());

    // the value piece trims to the digits, which lowering keeps
    let val_raw = line.subrange(16, line.len() as int);
    assert(val_raw =~= digits + term);
    assert(!is_ws(digits.last()));
    assert(!is_ws((digits + term)[0]));
    assert(trim_front(digits + term) == digits + term);
    lemma_trim_back_term(digits, term);
    assert(trimmed(val_raw) == digits);
    lemma_lower_digits(digits);
    assert(dec_value(digits) == Some(digits_val(digits))) by {
        assert(digits[0] != 43);
    }

    // the whole line is not blank
    assert(trim_front(line) == line);
    assert(!is_ws((cl_prefix() + digits).last()));
    assert(cl_prefix() + digits + term =~= (cl_prefix() + digits) + term);
    lemma_trim_back_term(cl_prefix() + digits, term);
    assert(trimmed(line) == cl_prefix() + digits);
}

/// Law: decoding reverses framing, whichever accepted terminator ends
/// each header line, whatever the body bytes are, and whatever follows
/// the frame: exactly `content-length` bytes of body are taken.
pub proof fn lemma_decode_frame_forms(body: Seq<u8>, tail: Seq<u8>, t1: Seq<u8>, t2: Seq<u8>)
    requires
        body.len() <= usize::MAX,
        t1 == seq![13u8, 10] || t1 == seq![10u8],
        t2 == seq![13u8, 10] || t2 == seq![10u8],
    ensures
        ({
            let s = cl_prefix() + dec_repr(body.len()) + t1 + t2 + body + tail;
            let body_start = (16 + dec_repr(body.len()).len() + t1.len() + t2.len()) as int;
            decode_spec(s, 0) == Ok::<(Seq<u8>, int), (ParseError, int)>(
                (body, (body_start + body.len()) as int),
            )
        }),
{
    let d = dec_repr(body.len());
    let dl = d.len() as int;
    crate::numbers::lemma_dec_repr_digits(body.len());
    crate::numbers::lemma_digits_val_dec_repr(body.len());
    let s = cl_prefix() + d + t1 + t2 + body + tail;
    let e1 = 16 + dl + t1.len() as int;
    let e2 = e1 + t2.len() as int;

    assert(forall|i: int| 0 <= i < 16 ==> s[i] == cl_prefix()[i]);
    assert(forall|j: int| 0 <= j < dl ==> s[16 + j] == d[j]);
    assert(forall|j: int| 0 <= j < t1.len() ==> s[16 + dl + j] == t1[j]);
    assert(forall|j: int| 0 <= j < t2.len() ==> s[e1 + j] == t2[j]);
    assert(forall|j: int| 0 <= j < body.len() ==> s[e2 + j] == body[j]);

    // the first line runs to the end of the first terminator
    assert(s[e1 - 1] == 10);
    assert(forall|i: int| 0 <= i < e1 - 1 ==> s[i] != 10) by {
        assert(forall|j: int| 0 <= j < dl ==> is_digit(d[j]));
    }
    lemma_line_end_at(s, 0, e1 - 1);
    let line1 = s.subrange(0, e1);
    assert(line1 =~= cl_prefix() + d + t1);
    lemma_header_line(d, t1);
    assert(trimmed(line1).len() == 16 + dl);

    // the second line is the blank terminator
    assert(s[e2 - 1] == 10);
    assert(forall|i: int| e1 <= i < e2 - 1 ==> s[i] != 10);
    lemma_line_end_at(s, e1, e2 - 1);
    let line2 = s.subrange(e1, e2);
    assert(line2 =~= t2);
    lemma_trim_term_empty(t2);

    let n = body.len() as usize;
    assert(parse_headers(s, 0, None) == parse_headers(s, e1, Some(n)));
    assert(parse_headers(s, e1, Some(n)) == Ok::<(Option<usize>, int), (ParseError, int)>(
        (Some(n), e2),
    ));
    assert(e2 + n <= s.len());
    assert(s.subrange(e2, e2 + n) =~= body);
}

/// Law: a frame produced for any body decodes back to exactly that body,
/// wherever in the stream the next frame's bytes begin.
pub proof fn lemma_frame_round_trip(body: Seq<u8>, tail: Seq<u8>)
    requires
        body.len() <= usize::MAX,
    ensures
        decode_spec(frame_bytes(body) + tail, 0) == Ok::<(Seq<u8>, int), (ParseError, int)>(
            (body, frame_bytes(body).len() as int),
        ),
{
    lemma_decode_frame_forms(body, tail, seq![13u8, 10], seq![13u8, 10]);
    assert(frame_bytes(body) + tail =~= cl_prefix() + dec_repr(body.len()) + seq![13u8, 10]
        + seq![13u8, 10] + body + tail);
}

/// Law: a frame whose header lines end in bare line feeds decodes to the
/// same body as the canonical form.
pub proof fn lemma_decode_accepts_bare_lf(body: Seq<u8>, tail: Seq<u8>)
    requires
        body.len() <= usize::MAX,
    ensures
        ({
            let s = cl_prefix() + dec_repr(body.len()) + seq![10u8, 10] + body + tail;
            decode_spec(s, 0) == Ok::<(Seq<u8>, int), (ParseError, int)>(
                (body, (18 + dec_repr(body.len()).len() + body.len()) as int),
            )
        }),
{
    lemma_decode_frame_forms(body, tail, seq![10u8], seq![10u8]);
    assert(cl_prefix() + dec_repr(body.len()) + seq![10u8, 10] + body + tail =~= cl_prefix()
        + dec_repr(body.len()) + seq![10u8] + seq![10u8] + body + tail);
}

proof fn lemma_trim_front_lower(s: Seq<u8>)
    ensures
        trim_front(lower(s)) == lower(trim_front(s)),
    decreases s.len(),
{
    if s.len() > 0 {
        assert(lower(s)[0] == lower_byte(s[0]));
        if is_ws(s[0]) {
            assert(lower(s).subrange(1, lower(s).len() as int) =~= lower(
                s.subrange(1, s.len() as int),
            ));
            lemma_trim_front_lower(s.subrange(1, s.len() as int));
        }
    } else {
        assert(lower(s) =~= s);
    }
}

proof fn lemma_trim_back_lower(s: Seq<u8>)
    ensures
        trim_back(lower(s)) == lower(trim_back(s)),
    decreases s.len(),
{
    if s.len() > 0 {
        assert(lower(s).last() == lower_byte(s.last()));
        if is_ws(s.last()) {
            assert(lower(s).drop_last() =~= lower(s.drop_last()));
            lemma_trim_back_lower(s.drop_last());
        }
    } else {
        assert(lower(s) =~= s);
    }
}

proof fn lemma_lower_idempotent(s: Seq<u8>)
    ensures
        lower(lower(s)) == lower(s),
{
    assert(lower(lower(s)) =~= lower(s));
}

proof fn lemma_first_sep_lower(s: Seq<u8>, from: int)
    requires
        0 <= from <= s.len(),
    ensures
        first_sep(lower(s), from) == first_sep(s, from),
    decreases s.len() - from,
{
    if from + 2 <= s.len() {
        assert(lower(s)[from] == lower_byte(s[from]));
        assert(lower(s)[from + 1] == lower_byte(s[from + 1]));
        if !sep_at(s, from) {
            lemma_first_sep_lower(s, from + 1);
        }
    }
}

proof fn lemma_first_sep_found(s: Seq<u8>, from: int)
    requires
        0 <= from <= s.len(),
    ensures
        first_sep(s, from) == -1 || (from <= first_sep(s, from) && sep_at(
            s,
            first_sep(s, from),
        )),
    decreases s.len() - from,
{
    if from + 2 <= s.len() && !sep_at(s, from) {
        lemma_first_sep_found(s, from + 1);
    }
}

/// Law: header parsing is case-insensitive — lowercasing a whole header
/// line before parsing changes nothing, for the name, the literal tokens
/// it is compared against, and the value.
pub proof fn lemma_header_case_insensitive(line: Seq<u8>)
    ensures
        parse_header_spec(lower(line)) == parse_header_spec(line),
{
    lemma_first_sep_lower(line, 0);
    lemma_first_sep_found(line, 0);
    let i = first_sep(line, 0);
    if i != -1 {
        lemma_first_sep_lower(line, i + 2);
        if first_sep(line, i + 2) == -1 {
            let p0 = line.subrange(0, i);
            let p1 = line.subrange(i + 2, line.len() as int);
            assert(lower(line).subrange(0, i) =~= lower(p0));
            assert(lower(line).subrange(i + 2, lower(line).len() as int) =~= lower(p1));
            lemma_trim_front_lower(p0);
            lemma_trim_back_lower(trim_front(p0));
            lemma_lower_idempotent(trimmed(p0));
            lemma_trim_front_lower(p1);
            lemma_trim_back_lower(trim_front(p1));
            lemma_lower_idempotent(trimmed(p1));
        }
    }
}

} // verus!
