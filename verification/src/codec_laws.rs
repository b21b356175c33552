//! Laws tying the encoder to the decoder.
//!
//! `lemma_decode_encode` states that decoding the encoding of any
//! well-formed frame yields exactly that frame and consumes exactly its
//! bytes, whatever follows in the buffer. `lemma_prefix_incomplete` states
//! that every proper prefix of an encoding decodes to Incomplete, so a
//! frame fed one byte at a time stays Incomplete until its last byte.

use vstd::prelude::*;

use crate::decode::{
    crlf_at, find_crlf, is_digit, lemma_find_crlf, lemma_find_crlf_is, lemma_spec_parse_bounds,
    lemma_spec_parse_list_bounds, parse_int_line, parse_len_line, parse_u64_digits, spec_parse,
    spec_parse_list, SpecParse, SpecParseList,
};
use crate::resp::{
    crlf, crlf_free, dec_digits, encoded, encoded_elems, int_digits, wf_resp, RespModel, CR, LF,
};
use vstd::arithmetic::div_mod::{
    lemma_div_is_ordered, lemma_div_multiples_vanish, lemma_fundamental_div_mod,
};

verus! {

/// Decimal digit runs are nonempty and hold digit bytes only.
pub proof fn lemma_dec_digits_props(n: nat)
    ensures
        dec_digits(n).len() >= 1,
        forall|i: int| 0 <= i < dec_digits(n).len() ==> is_digit(#[trigger] dec_digits(n)[i]),
    decreases n,
{
    if n >= 10 {
        lemma_dec_digits_props(n / 10);
    }
}

/// The ASCII form of a signed integer holds only digits and the minus sign.
pub proof fn lemma_int_digits_free(i: int)
    ensures
        crlf_free(int_digits(i)),
        forall|j: int|
            0 <= j < int_digits(i).len() ==> is_digit(#[trigger] int_digits(i)[j]) || int_digits(
                i,
            )[j] == 45,
{
    if i >= 0 {
        lemma_dec_digits_props(i as nat);
    } else {
        lemma_dec_digits_props((-i) as nat);
        assert forall|j: int| 0 <= j < int_digits(i).len() implies is_digit(
            #[trigger] int_digits(i)[j],
        ) || int_digits(i)[j] == 45 by {
            if j > 0 {
                assert(int_digits(i)[j] == dec_digits((-i) as nat)[j - 1]);
            }
        }
    }
}

/// A terminator-free byte string holds no terminator anywhere, so scanning
/// it finds nothing.
pub proof fn lemma_find_none(q: Seq<u8>)
    requires
        crlf_free(q),
    ensures
        find_crlf(q) is None,
{
    lemma_find_crlf(q);
    if find_crlf(q) is Some {
        let i = find_crlf(q)->Some_0;
        assert(crlf_at(q, i));
        assert(!(q[i] == CR && q[i + 1] == LF));
    }
}

/// A byte string whose bytes are all digits or a minus sign is
/// terminator-free.
pub proof fn lemma_no_cr_free(q: Seq<u8>)
    requires
        forall|j: int| 0 <= j < q.len() ==> is_digit(#[trigger] q[j]) || q[j] == 45,
    ensures
        crlf_free(q),
{
}

/// Scanning a terminator-free line followed by the terminator finds the
/// terminator exactly at the line's end, whatever follows.
pub proof fn lemma_find_header(line: Seq<u8>, rest: Seq<u8>)
    requires
        crlf_free(line),
    ensures
        find_crlf(line + crlf() + rest) == Some(line.len() as int),
{
    let s = line + crlf() + rest;
    assert(s[line.len() as int] == CR);
    assert(s[line.len() as int + 1] == LF);
    assert(crlf_at(s, line.len() as int));
    assert forall|j: int| 0 <= j < line.len() implies !crlf_at(s, j) by {
        if j < line.len() - 1 {
            assert(s[j] == line[j]);
            assert(s[j + 1] == line[j + 1]);
        } else {
            assert(s[j + 1] == CR);
        }
    }
    lemma_find_crlf_is(s, line.len() as int);
}

/// A prefix that cuts a line-plus-terminator before the final byte is
/// terminator-free.
pub proof fn lemma_take_header_free(line: Seq<u8>, rest: Seq<u8>, k: int)
    requires
        crlf_free(line),
        0 <= k <= line.len() + 1,
    ensures
        crlf_free((line + crlf() + rest).take(k)),
{
    let q = (line + crlf() + rest).take(k);
    assert forall|j: int| 0 <= j < q.len() - 1 implies !(#[trigger] q[j] == CR && q[j + 1]
        == LF) by {
        if j + 1 < line.len() {
            assert(q[j] == line[j]);
            assert(q[j + 1] == line[j + 1]);
        } else {
            // then j + 1 == line.len() and q[j + 1] is the carriage return
            assert(q[j + 1] == CR);
        }
    }
}

/// Reading digits distributes over concatenation.
pub proof fn lemma_parse_u64_split(a: Seq<u8>, b: Seq<u8>, acc: u64)
    ensures
        parse_u64_digits(a + b, acc) == match parse_u64_digits(a, acc) {
            Some(x) => parse_u64_digits(b, x),
            None => None,
        },
    decreases a.len(),
{
    if a.len() == 0 {
        assert(a + b =~= b);
    } else {
        assert((a + b)[0] == a[0]);
        if is_digit(a[0]) && !(acc > (u64::MAX - (a[0] - 48)) / 10) {
            assert((a + b).drop_first() =~= a.drop_first() + b);
            lemma_parse_u64_split(a.drop_first(), b, (10 * acc + (a[0] - 48)) as u64);
        } else {
            assert((a + b).drop_first() =~= a.drop_first() + b);
        }
    }
}

/// Reading back the decimal form of a 64-bit number yields the number.
pub proof fn lemma_parse_dec(n: u64)
    ensures
        parse_u64_digits(dec_digits(n as nat), 0) == Some(n),
    decreases n,
{
    if n < 10 {
        assert(dec_digits(n as nat) == seq![(48 + n) as u8]);
        let s = seq![(48 + n) as u8];
        assert(is_digit(s[0]));
        assert(s.drop_first() =~= Seq::<u8>::empty());
        assert(((10 * 0 + (s[0] - 48)) as u64) == n);
        assert(parse_u64_digits(Seq::<u8>::empty(), n) == Some(n));
        assert(parse_u64_digits(s, 0) == Some(n));
    } else {
        lemma_parse_dec(n / 10);
        let q: u64 = n / 10;
        let d: u64 = n % 10;
        let tail = seq![(48 + d) as u8];
        assert(dec_digits(n as nat) =~= dec_digits(q as nat) + tail);
        lemma_parse_u64_split(dec_digits(q as nat), tail, 0);
        lemma_fundamental_div_mod(n as int, 10);
        // the guard in the final digit step cannot fire: 10 q + d == n <= u64::MAX
        assert(10 * (q as int) + d == n);
        lemma_div_multiples_vanish(q as int, 10);
        lemma_div_is_ordered(10 * (q as int), u64::MAX - d, 10);
        assert(q <= (u64::MAX - ((48 + d) as u8 - 48)) / 10);
        assert(is_digit(tail[0]));
        assert(tail.drop_first() =~= Seq::<u8>::empty());
        assert(((10 * q + (tail[0] - 48)) as u64) == n);
        assert(parse_u64_digits(Seq::<u8>::empty(), n) == Some(n));
        assert(parse_u64_digits(tail, q) == Some(n));
    }
}

/// Reading back the header form of a non-negative count yields the count.
pub proof fn lemma_parse_len_dec(n: u64)
    ensures
        parse_len_line(dec_digits(n as nat)) == Some(n as int),
{
    lemma_dec_digits_props(n as nat);
    assert(dec_digits(n as nat)[0] != 45);
    lemma_parse_dec(n);
}

/// Reading back the ASCII form of a signed 64-bit integer yields it.
pub proof fn lemma_parse_int_dec(i: i64)
    ensures
        parse_int_line(int_digits(i as int)) == Some(i),
{
    if i >= 0 {
        lemma_parse_len_dec(i as u64);
    } else {
        let m = (-(i as int)) as u64;
        let line = int_digits(i as int);
        assert(line[0] == 45);
        assert(line.len() >= 2) by {
            lemma_dec_digits_props(m as nat);
        }
        assert(line.drop_first() =~= dec_digits(m as nat));
        lemma_parse_dec(m);
        assert(parse_len_line(line) == Some(-(m as int)));
    }
}

/// Every encoding spans at least a frame marker and the terminator.
pub proof fn lemma_encoded_len(v: RespModel)
    ensures
        encoded(v).len() >= 3,
{
    match v {
        RespModel::Int(i) => {
            if i >= 0 {
                lemma_dec_digits_props(i as nat);
            } else {
                lemma_dec_digits_props((-i) as nat);
            }
        },
        RespModel::Bulk(Some(b)) => {
            lemma_dec_digits_props(b.len());
        },
        RespModel::Arr(Some(es)) => {
            lemma_dec_digits_props(es.len());
        },
        _ => {},
    }
}

/// Decoding the encoding of a well-formed frame, whatever bytes follow it,
/// yields exactly that frame and consumes exactly its encoding.
pub proof fn lemma_decode_encode(v: RespModel, rest: Seq<u8>)
    requires
        wf_resp(v),
    ensures
        spec_parse(encoded(v) + rest) == SpecParse::Complete(v, encoded(v).len() as int),
    decreases v,
{
    let s = encoded(v) + rest;
    match v {
        RespModel::Simple(b) => {
            assert(s[0] == 43);
            assert(s.drop_first() =~= b + crlf() + rest);
            lemma_find_header(b, rest);
            assert(s.subrange(1, 1 + b.len() as int) =~= b);
        },
        RespModel::Error(b) => {
            assert(s[0] == 45);
            assert(s.drop_first() =~= b + crlf() + rest);
            lemma_find_header(b, rest);
            assert(s.subrange(1, 1 + b.len() as int) =~= b);
        },
        RespModel::Int(i) => {
            let line = int_digits(i as int);
            lemma_int_digits_free(i as int);
            assert(s[0] == 58);
            assert(s.drop_first() =~= line + crlf() + rest);
            lemma_find_header(line, rest);
            assert(s.subrange(1, 1 + line.len() as int) =~= line);
            lemma_parse_int_dec(i);
        },
        RespModel::Bulk(None) => {
            let line = seq![45u8, 49u8];
            assert(s[0] == 36);
            assert(s.drop_first() =~= line + crlf() + rest);
            assert(crlf_free(line));
            lemma_find_header(line, rest);
            assert(s.subrange(1, 3) =~= line);
            assert(line.drop_first() =~= seq![49u8]);
            assert(seq![49u8].drop_first() =~= Seq::<u8>::empty());
            assert(parse_u64_digits(Seq::<u8>::empty(), 1u64) == Some(1u64));
            assert(parse_u64_digits(seq![49u8], 0) == Some(1u64));
            assert(parse_len_line(line) == Some(-1int));
        },
        RespModel::Bulk(Some(b)) => {
            let line = dec_digits(b.len());
            lemma_dec_digits_props(b.len());
            lemma_no_cr_free(line);
            let i = line.len() as int;
            assert(s[0] == 36);
            assert(s.drop_first() =~= line + crlf() + (b + crlf() + rest));
            lemma_find_header(line, b + crlf() + rest);
            assert(s.subrange(1, 1 + i) =~= line);
            assert((b.len() as u64) as nat == b.len());
            lemma_parse_len_dec(b.len() as u64);
            let n = b.len() as int;
            assert(s.len() == 1 + i + 2 + n + 2 + rest.len());
            assert(s.subrange(i + 3, i + 3 + n) =~= b);
            assert(s[i + 3 + n] == CR);
            assert(s[i + 3 + n + 1] == LF);
        },
        RespModel::Arr(None) => {
            let line = seq![45u8, 49u8];
            assert(s[0] == 42);
            assert(s.drop_first() =~= line + crlf() + rest);
            assert(crlf_free(line));
            lemma_find_header(line, rest);
            assert(s.subrange(1, 3) =~= line);
            assert(line.drop_first() =~= seq![49u8]);
            assert(seq![49u8].drop_first() =~= Seq::<u8>::empty());
            assert(parse_u64_digits(Seq::<u8>::empty(), 1u64) == Some(1u64));
            assert(parse_u64_digits(seq![49u8], 0) == Some(1u64));
            assert(parse_len_line(line) == Some(-1int));
        },
        RespModel::Arr(Some(es)) => {
            let line = dec_digits(es.len());
            lemma_dec_digits_props(es.len());
            lemma_no_cr_free(line);
            let i = line.len() as int;
            assert(s[0] == 42);
            assert(s.drop_first() =~= line + crlf() + (encoded_elems(es) + rest));
            lemma_find_header(line, encoded_elems(es) + rest);
            assert(s.subrange(1, 1 + i) =~= line);
            assert((es.len() as u64) as nat == es.len());
            lemma_parse_len_dec(es.len() as u64);
            assert(s.skip(i + 3) =~= encoded_elems(es) + rest);
            lemma_decode_encode_list(es, rest);
        },
    }
}

/// Decoding the concatenated encodings of a run of well-formed frames,
/// whatever follows, yields exactly those frames.
pub proof fn lemma_decode_encode_list(es: Seq<RespModel>, rest: Seq<u8>)
    requires
        forall|i: int| 0 <= i < es.len() ==> wf_resp(#[trigger] es[i]),
    ensures
        spec_parse_list(encoded_elems(es) + rest, es.len() as int) == SpecParseList::Complete(
            es,
            encoded_elems(es).len() as int,
        ),
    decreases es,
{
    if es.len() == 0 {
        assert(encoded_elems(es) + rest =~= rest);
        assert(spec_parse_list(rest, 0) == SpecParseList::Complete(Seq::<RespModel>::empty(), 0));
        assert(es =~= Seq::<RespModel>::empty());
    } else {
        let s = encoded_elems(es) + rest;
        let head = es[0];
        let n0 = encoded(head).len() as int;
        let tail_rest = encoded_elems(es.drop_first()) + rest;
        assert(s =~= encoded(head) + tail_rest);
        lemma_decode_encode(head, tail_rest);
        lemma_encoded_len(head);
        assert(spec_parse(s) == SpecParse::Complete(head, n0));
        assert(s.skip(n0) =~= tail_rest);
        lemma_decode_encode_list(es.drop_first(), rest);
        assert(seq![head] + es.drop_first() =~= es);
    }
}

/// A proper prefix of a well-formed frame's encoding decodes to Incomplete:
/// fed one byte at a time, the decoder reports Incomplete until the last
/// byte arrives, then Complete.
pub proof fn lemma_prefix_incomplete(v: RespModel, k: int)
    requires
        wf_resp(v),
        0 <= k < encoded(v).len(),
    ensures
        spec_parse(encoded(v).take(k)) == SpecParse::Incomplete,
    decreases v,
{
    let e = encoded(v);
    let p = e.take(k);
    if k == 0 {
        assert(p.len() == 0);
    } else {
        assert(p[0] == e[0]);
        match v {
            RespModel::Simple(b) => {
                assert(p.drop_first() =~= (b + crlf() + Seq::<u8>::empty()).take(k - 1));
                lemma_take_header_free(b, Seq::<u8>::empty(), k - 1);
                lemma_find_none(p.drop_first());
            },
            RespModel::Error(b) => {
                assert(p.drop_first() =~= (b + crlf() + Seq::<u8>::empty()).take(k - 1));
                lemma_take_header_free(b, Seq::<u8>::empty(), k - 1);
                lemma_find_none(p.drop_first());
            },
            RespModel::Int(i) => {
                let line = int_digits(i as int);
                lemma_int_digits_free(i as int);
                assert(p.drop_first() =~= (line + crlf() + Seq::<u8>::empty()).take(k - 1));
                lemma_take_header_free(line, Seq::<u8>::empty(), k - 1);
                lemma_find_none(p.drop_first());
            },
            RespModel::Bulk(None) => {
                let line = seq![45u8, 49u8];
                assert(crlf_free(line));
                assert(p.drop_first() =~= (line + crlf() + Seq::<u8>::empty()).take(k - 1));
                lemma_take_header_free(line, Seq::<u8>::empty(), k - 1);
                lemma_find_none(p.drop_first());
            },
            RespModel::Bulk(Some(b)) => {
                let line = dec_digits(b.len());
                lemma_dec_digits_props(b.len());
                lemma_no_cr_free(line);
                let i = line.len() as int;
                if k - 1 <= i + 1 {
                    assert(p.drop_first() =~= (line + crlf() + (b + crlf())).take(k - 1));
                    lemma_take_header_free(line, b + crlf(), k - 1);
                    lemma_find_none(p.drop_first());
                } else {
                    let cut = (b + crlf()).take(k - i - 3);
                    assert(p.drop_first() =~= line + crlf() + cut);
                    lemma_find_header(line, cut);
                    assert(p.subrange(1, 1 + i) =~= line);
                    assert((b.len() as u64) as nat == b.len());
                    lemma_parse_len_dec(b.len() as u64);
                    let n = b.len() as int;
                    assert(p.len() < i + 3 + n + 2);
                }
            },
            RespModel::Arr(None) => {
                let line = seq![45u8, 49u8];
                assert(crlf_free(line));
                assert(p.drop_first() =~= (line + crlf() + Seq::<u8>::empty()).take(k - 1));
                lemma_take_header_free(line, Seq::<u8>::empty(), k - 1);
                lemma_find_none(p.drop_first());
            },
            RespModel::Arr(Some(es)) => {
                let line = dec_digits(es.len());
                lemma_dec_digits_props(es.len());
                lemma_no_cr_free(line);
                let i = line.len() as int;
                if k - 1 <= i + 1 {
                    assert(p.drop_first() =~= (line + crlf() + encoded_elems(es)).take(k - 1));
                    lemma_take_header_free(line, encoded_elems(es), k - 1);
                    lemma_find_none(p.drop_first());
                } else {
                    let cut = encoded_elems(es).take(k - i - 3);
                    assert(p.drop_first() =~= line + crlf() + cut);
                    lemma_find_header(line, cut);
                    assert(p.subrange(1, 1 + i) =~= line);
                    assert((es.len() as u64) as nat == es.len());
                    lemma_parse_len_dec(es.len() as u64);
                    assert(p.skip(i + 3) =~= cut);
                    lemma_prefix_incomplete_list(es, k - i - 3);
                }
            },
        }
    }
}

/// A proper prefix of the concatenated encodings of a run of well-formed
/// frames decodes to Incomplete.
pub proof fn lemma_prefix_incomplete_list(es: Seq<RespModel>, k: int)
    requires
        forall|i: int| 0 <= i < es.len() ==> wf_resp(#[trigger] es[i]),
        0 <= k < encoded_elems(es).len(),
    ensures
        spec_parse_list(encoded_elems(es).take(k), es.len() as int) == SpecParseList::Incomplete,
    decreases es,
{
    let head = es[0];
    let n0 = encoded(head).len() as int;
    let p = encoded_elems(es).take(k);
    lemma_encoded_len(head);
    if k < n0 {
        assert(p =~= encoded(head).take(k));
        lemma_prefix_incomplete(head, k);
    } else {
        let cut = encoded_elems(es.drop_first()).take(k - n0);
        assert(p =~= encoded(head) + cut);
        lemma_decode_encode(head, cut);
        assert(p.skip(n0) =~= cut);
        lemma_prefix_incomplete_list(es.drop_first(), k - n0);
    }
}

/// A byte string that reads as a number holds digits only.
pub proof fn lemma_digits_of_parse(s: Seq<u8>)
    requires
        parse_u64_digits(s, 0) is Some || exists|a: u64| parse_u64_digits(s, a) is Some,
    ensures
        forall|j: int| 0 <= j < s.len() ==> is_digit(#[trigger] s[j]),
{
    let a = choose|a: u64| parse_u64_digits(s, a) is Some;
    if parse_u64_digits(s, 0) is Some {
        lemma_digits_of_parse_from(s, 0);
    } else {
        lemma_digits_of_parse_from(s, a);
    }
}

/// A byte string that reads as a number from any accumulator holds digits
/// only.
pub proof fn lemma_digits_of_parse_from(s: Seq<u8>, acc: u64)
    requires
        parse_u64_digits(s, acc) is Some,
    ensures
        forall|j: int| 0 <= j < s.len() ==> is_digit(#[trigger] s[j]),
    decreases s.len(),
{
    if s.len() > 0 {
        lemma_digits_of_parse_from(s.drop_first(), (10 * acc + (s[0] - 48)) as u64);
        assert(forall|j: int| 1 <= j < s.len() ==> s[j] == s.drop_first()[j - 1]);
    }
}

/// Every frame the decoder produces is well-formed, so every decoded
/// frame re-encodes to the exact bytes it was decoded from.
pub proof fn lemma_decoded_wf(s: Seq<u8>)
    ensures
        spec_parse(s) matches SpecParse::Complete(v, n) ==> wf_resp(v),
    decreases s.len(), 0int,
{
    if s.len() == 0 {
    } else if s[0] == 43 || s[0] == 45 {
        match find_crlf(s.drop_first()) {
            Some(i) => {
                lemma_find_crlf(s.drop_first());
                let body = s.subrange(1, 1 + i);
                assert forall|j: int| 0 <= j < body.len() - 1 implies !(#[trigger] body[j] == CR
                    && body[j + 1] == LF) by {
                    assert(body[j] == s.drop_first()[j]);
                    assert(body[j + 1] == s.drop_first()[j + 1]);
                    assert(!crlf_at(s.drop_first(), j));
                }
            },
            None => {},
        }
    } else if s[0] == 36 {
        match find_crlf(s.drop_first()) {
            Some(i) => {
                lemma_find_crlf(s.drop_first());
                match parse_len_line(s.subrange(1, 1 + i)) {
                    Some(m) => {
                        assert(m <= u64::MAX);
                        if m >= 0 && s.len() >= i + 3 + m + 2 {
                            assert(s.subrange(i + 3, i + 3 + m).len() == m);
                        }
                    },
                    None => {},
                }
            },
            None => {},
        }
    } else if s[0] == 42 {
        match find_crlf(s.drop_first()) {
            Some(i) => {
                match parse_len_line(s.subrange(1, 1 + i)) {
                    Some(m) => {
                        assert(m <= u64::MAX);
                        if m >= 0 && 0 <= i && i + 3 <= s.len() {
                            lemma_spec_parse_list_bounds(s.skip(i + 3), m);
                            lemma_decoded_wf_list(s.skip(i + 3), m);
                        }
                    },
                    None => {},
                }
            },
            None => {},
        }
    } else {
    }
}

/// Every frame in a decoded run is well-formed.
pub proof fn lemma_decoded_wf_list(s: Seq<u8>, m: int)
    ensures
        spec_parse_list(s, m) matches SpecParseList::Complete(vs, n) ==> forall|k: int|
            0 <= k < vs.len() ==> wf_resp(#[trigger] vs[k]),
    decreases s.len(), m,
{
    if m <= 0 {
    } else {
        lemma_decoded_wf(s);
        lemma_spec_parse_bounds(s);
        match spec_parse(s) {
            SpecParse::Complete(v, n) => {
                if 0 < n <= s.len() {
                    lemma_decoded_wf_list(s.skip(n), m - 1);
                    match spec_parse_list(s.skip(n), m - 1) {
                        SpecParseList::Complete(vs2, n2) => {
                            let vs = seq![v] + vs2;
                            assert forall|k: int| 0 <= k < vs.len() implies wf_resp(
                                #[trigger] vs[k],
                            ) by {
                                if k == 0 {
                                    assert(vs[0] == v);
                                } else {
                                    assert(vs[k] == vs2[k - 1]);
                                }
                            }
                        },
                        _ => {},
                    }
                }
            },
            _ => {},
        }
    }
}

} // verus!
