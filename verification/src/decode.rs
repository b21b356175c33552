//! The streaming frame decoder.
//!
//! `spec_parse` is the mathematical decoder: a total function from a byte
//! sequence to one of Complete (a frame and how many bytes it spans),
//! Incomplete (more bytes are needed), or Error (the prefix is malformed).
//! `RespParser` holds the growing buffer and decodes against it; its `parse`
//! method is proved to return exactly what `spec_parse` says, so decoding is
//! a pure function of the buffered bytes and retrying after feeding more
//! bytes behaves as if the earlier attempts never happened.

use vstd::prelude::*;

use crate::resp::{models_of, resp_model, RespModel, RespValue, CR, LF};

verus! {

/// Outcome of the mathematical decoder for one frame.
pub enum SpecParse {
    Complete(RespModel, int),
    Incomplete,
    Error,
}

/// Outcome of the mathematical decoder for a run of frames.
pub enum SpecParseList {
    Complete(Seq<RespModel>, int),
    Incomplete,
    Error,
}

/// ASCII decimal digit.
pub open spec fn is_digit(b: u8) -> bool {
    48 <= b <= 57
}

/// The terminator stands at offset `i` of `s`.
pub open spec fn crlf_at(s: Seq<u8>, i: int) -> bool {
    &&& 0 <= i
    &&& i + 1 < s.len()
    &&& s[i] == CR
    &&& s[i + 1] == LF
}

/// Offset of the first terminator in `s`, if any.
pub open spec fn find_crlf(s: Seq<u8>) -> Option<int>
    decreases s.len(),
{
    if s.len() < 2 {
        None
    } else if s[0] == CR && s[1] == LF {
        Some(0)
    } else {
        match find_crlf(s.drop_first()) {
            Some(i) => Some(i + 1),
            None => None,
        }
    }
}

/// `find_crlf` returns the first offset where the terminator stands, and
/// `None` exactly when it stands nowhere.
pub proof fn lemma_find_crlf(s: Seq<u8>)
    ensures
        match find_crlf(s) {
            Some(i) => crlf_at(s, i) && (forall|j: int| 0 <= j < i ==> !crlf_at(s, j)),
            None => forall|j: int| !crlf_at(s, j),
        },
    decreases s.len(),
{
    if s.len() < 2 {
    } else if s[0] == CR && s[1] == LF {
    } else {
        lemma_find_crlf(s.drop_first());
        assert forall|j: int| 1 <= j implies crlf_at(s, j) == crlf_at(s.drop_first(), j - 1) by {
            if crlf_at(s, j) || crlf_at(s.drop_first(), j - 1) {
                assert(s.drop_first()[j - 1] == s[j]);
                if j < s.len() - 1 {
                    assert(s.drop_first()[j] == s[j + 1]);
                }
            }
        }
    }
}

/// A first-and-only terminator offset determines `find_crlf`.
pub proof fn lemma_find_crlf_is(s: Seq<u8>, i: int)
    requires
        crlf_at(s, i),
        forall|j: int| 0 <= j < i ==> !crlf_at(s, j),
    ensures
        find_crlf(s) == Some(i),
{
    lemma_find_crlf(s);
    match find_crlf(s) {
        Some(k) => {
            if k < i {
                assert(!crlf_at(s, k));
            } else if i < k {
                assert(!crlf_at(s, i));
            }
        },
        None => {
            assert(!crlf_at(s, i));
        },
    }
}

/// Value of a run of decimal digits read left to right onto accumulator
/// `acc`; `None` on a non-digit, an empty continuation is fine, and `None`
/// where the value would not fit in 64 bits.
pub open spec fn parse_u64_digits(s: Seq<u8>, acc: u64) -> Option<u64>
    decreases s.len(),
{
    if s.len() == 0 {
        Some(acc)
    } else if !is_digit(s[0]) {
        None
    } else if acc > (u64::MAX - (s[0] - 48)) / 10 {
        None
    } else {
        parse_u64_digits(s.drop_first(), (10 * acc + (s[0] - 48)) as u64)
    }
}

/// A bulk-string or array header line: a decimal count, or a minus sign
/// followed by one, read as a signed number. The decoder itself rejects
/// anything below -1.
pub open spec fn parse_len_line(line: Seq<u8>) -> Option<int> {
    if line.len() == 0 {
        None
    } else if line[0] == 45 {
        if line.len() == 1 {
            None
        } else {
            match parse_u64_digits(line.drop_first(), 0) {
                Some(m) => Some(-(m as int)),
                None => None,
            }
        }
    } else {
        match parse_u64_digits(line, 0) {
            Some(m) => Some(m as int),
            None => None,
        }
    }
}

/// An integer frame line: like a header line but confined to `i64`.
pub open spec fn parse_int_line(line: Seq<u8>) -> Option<i64> {
    match parse_len_line(line) {
        Some(v) => if i64::MIN <= v <= i64::MAX {
            Some(v as i64)
        } else {
            None
        },
        None => None,
    }
}

/// The mathematical decoder for one frame at the front of `s`.
///
/// Complete carries the decoded frame and the exact number of bytes it
/// spans; the caller advances the buffer by that count. Incomplete says the
/// front of `s` is a proper prefix of some frame; nothing is consumed.
/// Error says the front can never grow into a frame.
pub open spec fn spec_parse(s: Seq<u8>) -> SpecParse
    decreases s.len(), 0int,
{
    if s.len() == 0 {
        SpecParse::Incomplete
    } else if s[0] == 43 || s[0] == 45 {
        // simple string or error frame: body runs to the terminator
        match find_crlf(s.drop_first()) {
            None => SpecParse::Incomplete,
            Some(i) => {
                let body = s.subrange(1, 1 + i);
                if s[0] == 43 {
                    SpecParse::Complete(RespModel::Simple(body), i + 3)
                } else {
                    SpecParse::Complete(RespModel::Error(body), i + 3)
                }
            },
        }
    } else if s[0] == 58 {
        // integer frame
        match find_crlf(s.drop_first()) {
            None => SpecParse::Incomplete,
            Some(i) => match parse_int_line(s.subrange(1, 1 + i)) {
                Some(v) => SpecParse::Complete(RespModel::Int(v), i + 3),
                None => SpecParse::Error,
            },
        }
    } else if s[0] == 36 {
        // bulk string frame
        match find_crlf(s.drop_first()) {
            None => SpecParse::Incomplete,
            Some(i) => match parse_len_line(s.subrange(1, 1 + i)) {
                None => SpecParse::Error,
                Some(n) => if n == -1 {
                    SpecParse::Complete(RespModel::Bulk(None), i + 3)
                } else if n < -1 {
                    SpecParse::Error
                } else if s.len() < i + 3 + n + 2 {
                    SpecParse::Incomplete
                } else if s[i + 3 + n] == CR && s[i + 3 + n + 1] == LF {
                    SpecParse::Complete(
                        RespModel::Bulk(Some(s.subrange(i + 3, i + 3 + n))),
                        i + 3 + n + 2,
                    )
                } else {
                    SpecParse::Error
                },
            },
        }
    } else if s[0] == 42 {
        // array frame
        match find_crlf(s.drop_first()) {
            None => SpecParse::Incomplete,
            Some(i) => match parse_len_line(s.subrange(1, 1 + i)) {
                None => SpecParse::Error,
                Some(m) => if m == -1 {
                    SpecParse::Complete(RespModel::Arr(None), i + 3)
                } else if m < -1 {
                    SpecParse::Error
                } else if 0 <= i && i + 3 <= s.len() {
                    match spec_parse_list(s.skip(i + 3), m) {
                        SpecParseList::Complete(vs, n) => SpecParse::Complete(
                            RespModel::Arr(Some(vs)),
                            i + 3 + n,
                        ),
                        SpecParseList::Incomplete => SpecParse::Incomplete,
                        SpecParseList::Error => SpecParse::Error,
                    }
                } else {
                    SpecParse::Error
                },
            },
        }
    } else {
        SpecParse::Error
    }
}

/// The mathematical decoder for `m` frames at the front of `s`.
pub open spec fn spec_parse_list(s: Seq<u8>, m: int) -> SpecParseList
    decreases s.len(), m,
{
    if m <= 0 {
        SpecParseList::Complete(Seq::empty(), 0)
    } else {
        match spec_parse(s) {
            SpecParse::Complete(v, n) => if 0 < n <= s.len() {
                match spec_parse_list(s.skip(n), m - 1) {
                    SpecParseList::Complete(vs, n2) => SpecParseList::Complete(
                        seq![v] + vs,
                        n + n2,
                    ),
                    SpecParseList::Incomplete => SpecParseList::Incomplete,
                    SpecParseList::Error => SpecParseList::Error,
                }
            } else {
                SpecParseList::Error
            },
            SpecParse::Incomplete => SpecParseList::Incomplete,
            SpecParse::Error => SpecParseList::Error,
        }
    }
}

/// What a complete parse consumes always fits the input and spans at least
/// the frame marker and terminator.
pub proof fn lemma_spec_parse_bounds(s: Seq<u8>)
    ensures
        spec_parse(s) matches SpecParse::Complete(v, n) ==> 3 <= n <= s.len(),
    decreases s.len(), 0int,
{
    if s.len() == 0 {
    } else if s[0] == 43 || s[0] == 45 || s[0] == 58 || s[0] == 36 {
        match find_crlf(s.drop_first()) {
            Some(i) => {
                lemma_find_crlf(s.drop_first());
            },
            None => {},
        }
    } else if s[0] == 42 {
        match find_crlf(s.drop_first()) {
            Some(i) => {
                lemma_find_crlf(s.drop_first());
                match parse_len_line(s.subrange(1, 1 + i)) {
                    Some(m) => {
                        if m >= 0 && 0 <= i && i + 3 <= s.len() {
                            lemma_spec_parse_list_bounds(s.skip(i + 3), m);
                        }
                    },
                    None => {},
                }
            },
            None => {},
        }
    } else {
    }
}

/// What a complete list parse consumes always fits the input.
pub proof fn lemma_spec_parse_list_bounds(s: Seq<u8>, m: int)
    ensures
        spec_parse_list(s, m) matches SpecParseList::Complete(vs, n) ==> 0 <= n <= s.len()
            && vs.len() == m || m <= 0,
    decreases s.len(), m,
{
    if m <= 0 {
    } else {
        lemma_spec_parse_bounds(s);
        match spec_parse(s) {
            SpecParse::Complete(v, n) => {
                if 0 < n <= s.len() {
                    lemma_spec_parse_list_bounds(s.skip(n), m - 1);
                }
            },
            _ => {},
        }
    }
}

/// Result of one decode attempt against the buffered bytes.
#[derive(Debug, PartialEq, Eq)]
pub enum ParseResult {
    /// A frame was decoded; it spans this many bytes at the buffer's front.
    Complete(RespValue, usize),
    /// More bytes are needed; the buffer was not touched.
    Incomplete,
    /// The buffer is malformed at or before the current prefix; the reply to
    /// write before closing the connection.
    Error(String),
}

/// The decode attempt `r` reports exactly the outcome `sp`.
pub open spec fn result_matches(r: ParseResult, sp: SpecParse) -> bool {
    match r {
        ParseResult::Complete(v, n) => sp == SpecParse::Complete(resp_model(v), n as int),
        ParseResult::Incomplete => sp is Incomplete,
        ParseResult::Error(_) => sp is Error,
    }
}

/// Result of decoding a counted run of frames.
enum ListResult {
    Complete(Vec<RespValue>, usize),
    Incomplete,
    Error,
}

/// The list decode attempt `r` reports exactly the outcome `sp`.
spec fn list_matches(r: ListResult, sp: SpecParseList) -> bool {
    match r {
        ListResult::Complete(vs, n) => sp == SpecParseList::Complete(models_of(vs@), n as int),
        ListResult::Incomplete => sp is Incomplete,
        ListResult::Error => sp is Error,
    }
}

/// Scans for the first terminator at or after `pos`, returning its offset
/// relative to `pos`.
#[verifier::loop_isolation(false)]
fn find_crlf_at(buf: &Vec<u8>, pos: usize) -> (r: Option<usize>)
    requires
        pos <= buf@.len(),
    ensures
        match r {
            Some(i) => find_crlf(buf@.skip(pos as int)) == Some(i as int) && pos + i + 1
                < buf@.len(),
            None => find_crlf(buf@.skip(pos as int)) is None,
        },
{
    let ghost s = buf@.skip(pos as int);
    let mut k: usize = pos;
    loop
        invariant
            pos <= k <= buf@.len(),
            forall|j: int| 0 <= j < k - pos ==> !crlf_at(s, j),
        decreases buf@.len() - k,
    {
        if buf.len() - k <= 1 {
            proof {
                lemma_find_crlf(s);
                if find_crlf(s) is Some {
                    let i = find_crlf(s)->Some_0;
                    assert(crlf_at(s, i));
                    assert(i + 1 < s.len());
                    assert(!crlf_at(s, i));
                }
            }
            return None;
        }
        if buf[k] == CR && buf[k + 1] == LF {
            proof {
                assert(s[k - pos] == buf@[k as int]);
                assert(s[k - pos + 1] == buf@[k as int + 1]);
                lemma_find_crlf_is(s, k - pos);
            }
            return Some(k - pos);
        }
        proof {
            assert(s[k - pos] == buf@[k as int]);
            assert(s[k - pos + 1] == buf@[k as int + 1]);
            assert(!crlf_at(s, k - pos));
        }
        k += 1;
    }
}

/// Reads the digits of `buf[from..to]` onto a 64-bit accumulator.
#[verifier::loop_isolation(false)]
fn parse_u64_range(buf: &Vec<u8>, from: usize, to: usize) -> (r: Option<u64>)
    requires
        from <= to <= buf@.len(),
    ensures
        r == parse_u64_digits(buf@.subrange(from as int, to as int), 0),
{
    let mut k: usize = from;
    let mut acc: u64 = 0;
    loop
        invariant
            from <= k <= to,
            parse_u64_digits(buf@.subrange(from as int, to as int), 0) == parse_u64_digits(
                buf@.subrange(k as int, to as int),
                acc,
            ),
        decreases to - k,
    {
        proof {
            assert(buf@.subrange(k as int, to as int).len() == to - k);
        }
        if k == to {
            return Some(acc);
        }
        let b = buf[k];
        proof {
            assert(buf@.subrange(k as int, to as int)[0] == buf@[k as int]);
        }
        if !(48 <= b && b <= 57) {
            return None;
        }
        let d: u64 = (b - 48) as u64;
        if acc > (u64::MAX - d) / 10 {
            return None;
        }
        proof {
            assert(buf@.subrange(k as int, to as int).drop_first() =~= buf@.subrange(
                k as int + 1,
                to as int,
            ));
        }
        acc = 10 * acc + d;
        k += 1;
    }
}

/// Reads a header line `buf[from..to]` as a sign flag and a magnitude.
fn parse_len_range(buf: &Vec<u8>, from: usize, to: usize) -> (r: Option<(bool, u64)>)
    requires
        from <= to <= buf@.len(),
    ensures
        match r {
            None => parse_len_line(buf@.subrange(from as int, to as int)) is None,
            Some(p) => parse_len_line(buf@.subrange(from as int, to as int)) == Some(
                if p.0 {
                    -(p.1 as int)
                } else {
                    p.1 as int
                },
            ),
        },
{
    let ghost line = buf@.subrange(from as int, to as int);
    if from == to {
        return None;
    }
    proof {
        assert(line[0] == buf@[from as int]);
    }
    if buf[from] == 45 {
        if from + 1 == to {
            return None;
        }
        proof {
            assert(line.drop_first() =~= buf@.subrange(from as int + 1, to as int));
        }
        match parse_u64_range(buf, from + 1, to) {
            Some(m) => Some((true, m)),
            None => None,
        }
    } else {
        match parse_u64_range(buf, from, to) {
            Some(m) => Some((false, m)),
            None => None,
        }
    }
}

/// Copies `buf[from..to]` out as an owned byte vector.
#[verifier::loop_isolation(false)]
fn copy_range(buf: &Vec<u8>, from: usize, to: usize) -> (r: Vec<u8>)
    requires
        from <= to <= buf@.len(),
    ensures
        r@ == buf@.subrange(from as int, to as int),
{
    let mut out: Vec<u8> = Vec::new();
    let mut k: usize = from;
    while k < to
        invariant
            from <= k <= to,
            out@ == buf@.subrange(from as int, k as int),
        decreases to - k,
    {
        out.push(buf[k]);
        proof {
            assert(out@ =~= buf@.subrange(from as int, k as int + 1));
        }
        k += 1;
    }
    out
}

/// Decodes one frame starting at `pos`, reporting exactly what the
/// mathematical decoder says about `buf[pos..]`.
fn parse_value(buf: &Vec<u8>, pos: usize) -> (r: ParseResult)
    requires
        pos <= buf@.len(),
    ensures
        result_matches(r, spec_parse(buf@.skip(pos as int))),
    decreases buf@.len() - pos, 2int,
{
    let ghost s = buf@.skip(pos as int);
    if pos == buf.len() {
        return ParseResult::Incomplete;
    }
    let t = buf[pos];
    proof {
        assert(s[0] == buf@[pos as int]);
        assert(s.drop_first() =~= buf@.skip(pos as int + 1));
    }
    if t == 43 || t == 45 {
        match find_crlf_at(buf, pos + 1) {
            None => ParseResult::Incomplete,
            Some(i) => {
                let body = copy_range(buf, pos + 1, pos + 1 + i);
                proof {
                    assert(body@ =~= s.subrange(1, 1 + i as int));
                }
                if t == 43 {
                    ParseResult::Complete(RespValue::SimpleString(body), i + 3)
                } else {
                    ParseResult::Complete(RespValue::Error(body), i + 3)
                }
            },
        }
    } else if t == 58 {
        match find_crlf_at(buf, pos + 1) {
            None => ParseResult::Incomplete,
            Some(i) => {
                proof {
                    assert(buf@.subrange(pos as int + 1, pos as int + 1 + i as int) =~= s.subrange(
                        1,
                        1 + i as int,
                    ));
                }
                match parse_len_range(buf, pos + 1, pos + 1 + i) {
                    None => ParseResult::Error("-ERR Protocol error: invalid integer\r\n".to_owned()),
                    Some((neg, m)) => {
                        if neg {
                            if m <= 9223372036854775808u64 {
                                let v: i64 = if m == 9223372036854775808u64 {
                                    i64::MIN
                                } else {
                                    -(m as i64)
                                };
                                ParseResult::Complete(RespValue::Integer(v), i + 3)
                            } else {
                                ParseResult::Error(
                                    "-ERR Protocol error: invalid integer\r\n".to_owned(),
                                )
                            }
                        } else {
                            if m <= i64::MAX as u64 {
                                ParseResult::Complete(RespValue::Integer(m as i64), i + 3)
                            } else {
                                ParseResult::Error(
                                    "-ERR Protocol error: invalid integer\r\n".to_owned(),
                                )
                            }
                        }
                    },
                }
            },
        }
    } else if t == 36 {
        match find_crlf_at(buf, pos + 1) {
            None => ParseResult::Incomplete,
            Some(i) => {
                proof {
                    assert(buf@.subrange(pos as int + 1, pos as int + 1 + i as int) =~= s.subrange(
                        1,
                        1 + i as int,
                    ));
                }
                match parse_len_range(buf, pos + 1, pos + 1 + i) {
                    None => ParseResult::Error("-ERR Protocol error: invalid bulk length\r\n".to_owned()),
                    Some((neg, m)) => {
                        if neg {
                            if m == 1 {
                                ParseResult::Complete(RespValue::BulkString(None), i + 3)
                            } else if m >= 2 {
                                ParseResult::Error(
                                    "-ERR Protocol error: invalid bulk length\r\n".to_owned(),
                                )
                            } else {
                                // a minus sign before zero names the empty body
                                bulk_body(buf, pos, i, 0)
                            }
                        } else {
                            bulk_body(buf, pos, i, m)
                        }
                    },
                }
            },
        }
    } else if t == 42 {
        match find_crlf_at(buf, pos + 1) {
            None => ParseResult::Incomplete,
            Some(i) => {
                proof {
                    assert(buf@.subrange(pos as int + 1, pos as int + 1 + i as int) =~= s.subrange(
                        1,
                        1 + i as int,
                    ));
                }
                match parse_len_range(buf, pos + 1, pos + 1 + i) {
                    None => ParseResult::Error("-ERR Protocol error: invalid multibulk length\r\n".to_owned()),
                    Some((neg, m)) => {
                        if neg {
                            if m == 1 {
                                ParseResult::Complete(RespValue::Array(None), i + 3)
                            } else if m >= 2 {
                                ParseResult::Error(
                                    "-ERR Protocol error: invalid multibulk length\r\n".to_owned(),
                                )
                            } else {
                                array_body(buf, pos, i, 0)
                            }
                        } else {
                            array_body(buf, pos, i, m)
                        }
                    },
                }
            },
        }
    } else {
        ParseResult::Error("-ERR Protocol error: unknown frame type\r\n".to_owned())
    }
}

/// Decodes the payload and trailing terminator of a bulk-string frame whose
/// header spans `i + 3` bytes and announces `m` payload bytes.
fn bulk_body(buf: &Vec<u8>, pos: usize, i: usize, m: u64) -> (r: ParseResult)
    requires
        pos <= buf@.len(),
        pos + i + 3 <= buf@.len(),
        ({
            let s = buf@.skip(pos as int);
            &&& s.len() > 0
            &&& s[0] == 36
            &&& find_crlf(s.drop_first()) == Some(i as int)
            &&& parse_len_line(s.subrange(1, 1 + i as int)) == Some(m as int)
        }),
    ensures
        result_matches(r, spec_parse(buf@.skip(pos as int))),
{
    let ghost s = buf@.skip(pos as int);
    let len = buf.len();
    let start = pos + i + 3;
    let avail = len - start;
    if m > avail as u64 {
        return ParseResult::Incomplete;
    }
    let nn = m as usize;
    if avail - nn < 2 {
        return ParseResult::Incomplete;
    }
    proof {
        assert(s[i + 3 + m] == buf@[start as int + nn as int]);
        assert(s[i + 3 + m + 1] == buf@[start as int + nn as int + 1]);
    }
    if buf[start + nn] == CR && buf[start + nn + 1] == LF {
        let body = copy_range(buf, start, start + nn);
        proof {
            assert(body@ =~= s.subrange(i as int + 3, i as int + 3 + m as int));
        }
        ParseResult::Complete(RespValue::BulkString(Some(body)), i + 3 + nn + 2)
    } else {
        ParseResult::Error("-ERR Protocol error: invalid bulk payload\r\n".to_owned())
    }
}

/// Decodes the `m` element frames of an array whose header spans `i + 3`
/// bytes.
fn array_body(buf: &Vec<u8>, pos: usize, i: usize, m: u64) -> (r: ParseResult)
    requires
        pos <= buf@.len(),
        pos + i + 3 <= buf@.len(),
        ({
            let s = buf@.skip(pos as int);
            &&& s.len() > 0
            &&& s[0] == 42
            &&& find_crlf(s.drop_first()) == Some(i as int)
            &&& parse_len_line(s.subrange(1, 1 + i as int)) == Some(m as int)
        }),
    ensures
        result_matches(r, spec_parse(buf@.skip(pos as int))),
    decreases buf@.len() - pos, 1int,
{
    let ghost s = buf@.skip(pos as int);
    let len = buf.len();
    let start = pos + i + 3;
    proof {
        assert(buf@.skip(start as int) =~= s.skip(i as int + 3));
    }
    match parse_list(buf, start, m) {
        ListResult::Complete(vs, n) => {
            proof {
                lemma_spec_parse_list_bounds(s.skip(i as int + 3), m as int);
            }
            ParseResult::Complete(RespValue::Array(Some(vs)), i + 3 + n)
        },
        ListResult::Incomplete => ParseResult::Incomplete,
        ListResult::Error => ParseResult::Error(
            "-ERR Protocol error: invalid array element\r\n".to_owned(),
        ),
    }
}

/// Decodes `m` consecutive frames starting at `pos`.
fn parse_list(buf: &Vec<u8>, pos: usize, m: u64) -> (r: ListResult)
    requires
        pos <= buf@.len(),
    ensures
        list_matches(r, spec_parse_list(buf@.skip(pos as int), m as int)),
    decreases buf@.len() - pos, 3int,
{
    let ghost s = buf@.skip(pos as int);
    if m == 0 {
        proof {
            assert(models_of(Seq::<RespValue>::empty()) =~= Seq::<RespModel>::empty());
        }
        return ListResult::Complete(Vec::new(), 0);
    }
    match parse_value(buf, pos) {
        ParseResult::Incomplete => ListResult::Incomplete,
        ParseResult::Error(_) => ListResult::Error,
        ParseResult::Complete(v, n) => {
            let len = buf.len();
            proof {
                lemma_spec_parse_bounds(s);
                assert(buf@.skip(pos as int + n as int) =~= s.skip(n as int));
            }
            match parse_list(buf, pos + n, m - 1) {
                ListResult::Complete(mut vs, n2) => {
                    let ghost vs0 = vs@;
                    vs.insert(0, v);
                    proof {
                        lemma_spec_parse_list_bounds(s.skip(n as int), m as int - 1);
                        assert(vs@ =~= seq![v] + vs0);
                        assert(vs@[0] == v);
                        assert(vs@.drop_first() =~= vs0);
                        assert(models_of(vs@) == seq![resp_model(v)] + models_of(vs0));
                    }
                    ListResult::Complete(vs, n + n2)
                },
                ListResult::Incomplete => ListResult::Incomplete,
                ListResult::Error => ListResult::Error,
            }
        },
    }
}

/// Reads a whole byte string as a signed 64-bit decimal.
pub fn parse_int_bytes(buf: &Vec<u8>) -> (r: Option<i64>)
    ensures
        r == parse_int_line(buf@),
{
    proof {
        assert(buf@.subrange(0, buf@.len() as int) =~= buf@);
    }
    match parse_len_range(buf, 0, buf.len()) {
        None => None,
        Some((neg, m)) => {
            if neg {
                if m <= 9223372036854775808u64 {
                    if m == 9223372036854775808u64 {
                        Some(i64::MIN)
                    } else {
                        Some(-(m as i64))
                    }
                } else {
                    None
                }
            } else {
                if m <= i64::MAX as u64 {
                    Some(m as i64)
                } else {
                    None
                }
            }
        },
    }
}

/// Reads `buf[from..to]` as an unsigned 64-bit decimal.
pub fn parse_u64_bytes(buf: &Vec<u8>, from: usize, to: usize) -> (r: Option<u64>)
    requires
        from <= to <= buf@.len(),
    ensures
        r == parse_u64_digits(buf@.subrange(from as int, to as int), 0),
{
    parse_u64_range(buf, from, to)
}

/// The incremental decoder: a growing buffer of bytes not yet consumed.
pub struct RespParser {
    buffer: Vec<u8>,
}

impl View for RespParser {
    type V = Seq<u8>;

    closed spec fn view(&self) -> Seq<u8> {
        self.buffer@
    }
}

impl RespParser {
    /// A decoder with an empty buffer.
    pub fn new() -> (r: RespParser)
        ensures
            r@ == Seq::<u8>::empty(),
    {
        RespParser { buffer: Vec::new() }
    }

    /// Appends freshly read bytes to the buffer.
    pub fn feed(&mut self, data: &[u8])
        ensures
            final(self)@ == old(self)@ + data@,
    {
        crate::resp::append_bytes(&mut self.buffer, data);
    }

    /// Tries to decode one frame from the front of the buffer. The buffer is
    /// never mutated, so feeding more bytes and retrying behaves as if this
    /// call never happened.
    pub fn parse(&self) -> (r: ParseResult)
        ensures
            result_matches(r, spec_parse(self@)),
            r matches ParseResult::Complete(v, n) ==> 3 <= n <= self@.len() && crate::resp::wf_resp(
                resp_model(v),
            ),
    {
        proof {
            assert(self.buffer@.skip(0) =~= self.buffer@);
            lemma_spec_parse_bounds(self.buffer@);
            crate::codec_laws::lemma_decoded_wf(self.buffer@);
        }
        parse_value(&self.buffer, 0)
    }

    /// Drops `n` consumed bytes from the front of the buffer.
    pub fn consume(&mut self, n: usize)
        requires
            n <= old(self)@.len(),
        ensures
            final(self)@ == old(self)@.skip(n as int),
    {
        let rest = copy_range(&self.buffer, n, self.buffer.len());
        proof {
            assert(self.buffer@.subrange(n as int, self.buffer@.len() as int) =~= self.buffer@.skip(
                n as int,
            ));
        }
        self.buffer = rest;
    }
}

} // verus!
