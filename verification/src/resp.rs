//! Wire values and the response encoder.
//!
//! A `RespValue` is one frame of the wire protocol. Its mathematical model is
//! `RespModel`, a ghost datatype over byte sequences; `encoded` gives the
//! exact bytes a frame serialises to, and `encode` produces them.

use vstd::prelude::*;

verus! {

/// Carriage return.
pub const CR: u8 = 13;

/// Line feed.
pub const LF: u8 = 10;

/// One decoded or to-be-encoded protocol frame.
#[derive(Debug, PartialEq, Eq)]
pub enum RespValue {
    SimpleString(Vec<u8>),
    Error(Vec<u8>),
    Integer(i64),
    BulkString(Option<Vec<u8>>),
    Array(Option<Vec<RespValue>>),
}

/// The mathematical model of a frame: the same shape over `Seq<u8>`.
pub enum RespModel {
    Simple(Seq<u8>),
    Error(Seq<u8>),
    Int(i64),
    Bulk(Option<Seq<u8>>),
    Arr(Option<Seq<RespModel>>),
}

/// The model of a frame value.
pub open spec fn resp_model(v: RespValue) -> RespModel
    decreases v,
{
    match v {
        RespValue::SimpleString(s) => RespModel::Simple(s@),
        RespValue::Error(s) => RespModel::Error(s@),
        RespValue::Integer(i) => RespModel::Int(i),
        RespValue::BulkString(None) => RespModel::Bulk(None),
        RespValue::BulkString(Some(b)) => RespModel::Bulk(Some(b@)),
        RespValue::Array(None) => RespModel::Arr(None),
        RespValue::Array(Some(es)) => RespModel::Arr(Some(models_of(es@))),
    }
}

/// The models of a sequence of frame values.
pub open spec fn models_of(es: Seq<RespValue>) -> Seq<RespModel>
    decreases es,
{
    if es.len() == 0 {
        Seq::empty()
    } else {
        seq![resp_model(es[0])] + models_of(es.drop_first())
    }
}

/// `models_of` maps `resp_model` over the sequence, element by element.
pub proof fn lemma_models_of(es: Seq<RespValue>)
    ensures
        models_of(es).len() == es.len(),
        forall|i: int| 0 <= i < es.len() ==> #[trigger] models_of(es)[i] == resp_model(es[i]),
    decreases es.len(),
{
    if es.len() > 0 {
        lemma_models_of(es.drop_first());
        assert forall|i: int| 0 <= i < es.len() implies #[trigger] models_of(es)[i] == resp_model(
            es[i],
        ) by {
            if i > 0 {
                assert(es.drop_first()[i - 1] == es[i]);
            }
        }
    }
}

impl View for RespValue {
    type V = RespModel;

    open spec fn view(&self) -> RespModel {
        resp_model(*self)
    }
}

/// The two-byte frame terminator.
pub open spec fn crlf() -> Seq<u8> {
    seq![CR, LF]
}

/// `s` holds the terminator nowhere: such a byte string may stand as the body
/// of a simple string or error frame without disturbing the framing.
pub open spec fn crlf_free(s: Seq<u8>) -> bool {
    forall|i: int| 0 <= i < s.len() - 1 ==> !(#[trigger] s[i] == CR && s[i + 1] == LF)
}

/// Decimal digits of `n`, most significant first, as ASCII bytes.
pub open spec fn dec_digits(n: nat) -> Seq<u8>
    decreases n,
{
    if n < 10 {
        seq![(48 + n) as u8]
    } else {
        dec_digits(n / 10).push((48 + n % 10) as u8)
    }
}

/// ASCII form of a signed integer: a minus sign where negative, then digits.
pub open spec fn int_digits(i: int) -> Seq<u8> {
    if i >= 0 {
        dec_digits(i as nat)
    } else {
        seq![45u8] + dec_digits((-i) as nat)
    }
}

/// The exact bytes a frame serialises to.
pub open spec fn encoded(v: RespModel) -> Seq<u8>
    decreases v,
{
    match v {
        RespModel::Simple(s) => seq![43u8] + s + crlf(),
        RespModel::Error(s) => seq![45u8] + s + crlf(),
        RespModel::Int(i) => seq![58u8] + int_digits(i as int) + crlf(),
        RespModel::Bulk(None) => seq![36u8, 45u8, 49u8, CR, LF],
        RespModel::Bulk(Some(b)) => seq![36u8] + dec_digits(b.len()) + crlf() + b + crlf(),
        RespModel::Arr(None) => seq![42u8, 45u8, 49u8, CR, LF],
        RespModel::Arr(Some(es)) => seq![42u8] + dec_digits(es.len()) + crlf() + encoded_elems(es),
    }
}

/// The concatenated encodings of a sequence of frames.
pub open spec fn encoded_elems(es: Seq<RespModel>) -> Seq<u8>
    decreases es,
{
    if es.len() == 0 {
        Seq::empty()
    } else {
        encoded(es[0]) + encoded_elems(es.drop_first())
    }
}

/// Well-formed frames: simple-string and error bodies never hold the
/// terminator, so their encodings frame exactly the body; payload lengths
/// and element counts fit the 64-bit decimal headers the decoder reads.
pub open spec fn wf_resp(v: RespModel) -> bool
    decreases v,
{
    match v {
        RespModel::Simple(s) => crlf_free(s),
        RespModel::Error(s) => crlf_free(s),
        RespModel::Int(_) => true,
        RespModel::Bulk(None) => true,
        RespModel::Bulk(Some(b)) => b.len() <= u64::MAX,
        RespModel::Arr(None) => true,
        RespModel::Arr(Some(es)) => es.len() <= u64::MAX && (forall|i: int|
            0 <= i < es.len() ==> wf_resp(#[trigger] es[i])),
    }
}

/// Appends a copy of `b` to `out`.
pub fn append_bytes(out: &mut Vec<u8>, b: &[u8])
    ensures
        final(out)@ == old(out)@ + b@,
{
    let mut i: usize = 0;
    while i < b.len()
        invariant
            i <= b@.len(),
            out@ == old(out)@ + b@.subrange(0, i as int),
        decreases b@.len() - i,
    {
        out.push(b[i]);
        i += 1;
        proof {
            assert(out@ == old(out)@ + b@.subrange(0, i as int));
        }
    }
    proof {
        assert(b@.subrange(0, b@.len() as int) == b@);
    }
}

/// Appends the decimal digits of `n`.
pub fn push_dec(n: u64, out: &mut Vec<u8>)
    ensures
        final(out)@ == old(out)@ + dec_digits(n as nat),
    decreases n,
{
    if n < 10 {
        out.push(48 + n as u8);
    } else {
        push_dec(n / 10, out);
        out.push(48 + (n % 10) as u8);
    }
}

/// Appends the ASCII form of `i`.
pub fn push_int(i: i64, out: &mut Vec<u8>)
    ensures
        final(out)@ == old(out)@ + int_digits(i as int),
{
    if i >= 0 {
        push_dec(i as u64, out);
    } else {
        out.push(45u8);
        let m: u64 = if i == i64::MIN {
            9223372036854775808u64
        } else {
            (-i) as u64
        };
        assert(m as nat == (-(i as int)) as nat);
        push_dec(m, out);
    }
}

/// Appends the encoding of `v` to `out`.
#[verifier::loop_isolation(false)]
pub fn encode_into(v: &RespValue, out: &mut Vec<u8>)
    ensures
        final(out)@ == old(out)@ + encoded(v@),
    decreases v,
{
    match v {
        RespValue::SimpleString(s) => {
            out.push(43u8);
            append_bytes(out, s.as_slice());
            out.push(CR);
            out.push(LF);
            proof {
                assert(out@ =~= old(out)@ + encoded(v@));
            }
        },
        RespValue::Error(s) => {
            out.push(45u8);
            append_bytes(out, s.as_slice());
            out.push(CR);
            out.push(LF);
            proof {
                assert(out@ =~= old(out)@ + encoded(v@));
            }
        },
        RespValue::Integer(i) => {
            out.push(58u8);
            push_int(*i, out);
            out.push(CR);
            out.push(LF);
            proof {
                assert(out@ =~= old(out)@ + encoded(v@));
            }
        },
        RespValue::BulkString(None) => {
            out.push(36u8);
            out.push(45u8);
            out.push(49u8);
            out.push(CR);
            out.push(LF);
            proof {
                assert(out@ =~= old(out)@ + encoded(v@));
            }
        },
        RespValue::BulkString(Some(b)) => {
            out.push(36u8);
            push_dec(b.len() as u64, out);
            out.push(CR);
            out.push(LF);
            append_bytes(out, b.as_slice());
            out.push(CR);
            out.push(LF);
            proof {
                assert(out@ =~= old(out)@ + encoded(v@));
            }
        },
        RespValue::Array(None) => {
            out.push(42u8);
            out.push(45u8);
            out.push(49u8);
            out.push(CR);
            out.push(LF);
            proof {
                assert(out@ =~= old(out)@ + encoded(v@));
            }
        },
        RespValue::Array(Some(es)) => {
            out.push(42u8);
            push_dec(es.len() as u64, out);
            out.push(CR);
            out.push(LF);
            let ghost mid = out@;
            let mut j: usize = 0;
            while j < es.len()
                invariant
                    j <= es@.len(),
                    out@ == mid + encoded_elems(models_of(es@.subrange(0, j as int))),
                decreases es@.len() - j,
            {
                proof {
                    broadcast use vstd::std_specs::vec::group_vec_axioms;

                    assert(decreases_to!(*v => *es));
                    assert(decreases_to!(*es => es@[j as int]));
                }
                encode_into(&es[j], out);
                proof {
                    lemma_models_of(es@.subrange(0, j as int));
                    lemma_encoded_elems_snoc(
                        models_of(es@.subrange(0, j as int)),
                        resp_model(es@[j as int]),
                    );
                    lemma_models_of(es@.subrange(0, j as int + 1));
                    lemma_models_of(es@);
                    assert(models_of(es@.subrange(0, j as int)).push(resp_model(es@[j as int]))
                        =~= models_of(es@.subrange(0, j as int + 1)));
                }
                j += 1;
            }
            proof {
                assert(es@.subrange(0, es@.len() as int) == es@);
                lemma_models_of(es@);
                assert(out@ =~= old(out)@ + encoded(v@));
            }
        },
    }
}

/// Appending one frame appends its encoding.
pub proof fn lemma_encoded_elems_snoc(ms: Seq<RespModel>, m: RespModel)
    ensures
        encoded_elems(ms.push(m)) == encoded_elems(ms) + encoded(m),
    decreases ms.len(),
{
    if ms.len() == 0 {
        assert(ms.push(m)[0] == m);
        assert(ms.push(m).drop_first() =~= Seq::<RespModel>::empty());
        assert(encoded_elems(Seq::<RespModel>::empty()) == Seq::<u8>::empty());
        assert(encoded_elems(ms.push(m)) == encoded(m) + Seq::<u8>::empty());
        assert(encoded(m) + Seq::<u8>::empty() =~= encoded(m));
        assert(encoded_elems(ms) + encoded(m) =~= encoded(m));
    } else {
        lemma_encoded_elems_snoc(ms.drop_first(), m);
        assert(ms.push(m).drop_first() =~= ms.drop_first().push(m));
        assert(ms.push(m)[0] == ms[0]);
        assert(encoded_elems(ms.push(m)) == encoded(ms[0]) + (encoded_elems(ms.drop_first())
            + encoded(m)));
        assert(encoded(ms[0]) + (encoded_elems(ms.drop_first()) + encoded(m)) =~= (encoded(ms[0])
            + encoded_elems(ms.drop_first())) + encoded(m));
    }
}

/// Serialises one frame. The encoder is total: it never fails.
pub fn encode(v: &RespValue) -> (r: Vec<u8>)
    ensures
        r@ == encoded(v@),
{
    let mut out: Vec<u8> = Vec::new();
    encode_into(v, &mut out);
    out
}

/// The bytes of an ASCII character sequence.
pub open spec fn ascii(s: Seq<char>) -> Seq<u8> {
    Seq::new(s.len(), |i: int| s[i] as u8)
}

/// ASCII uppercase folding of a byte string.
pub open spec fn upper(s: Seq<u8>) -> Seq<u8> {
    Seq::new(s.len(), |i: int| if 97 <= s[i] <= 122 {
        (s[i] - 32) as u8
    } else {
        s[i]
    })
}

/// The bytes of an ASCII string literal.
pub fn lit_bytes(s: &str) -> (r: Vec<u8>)
    requires
        vstd::string::is_ascii(s),
    ensures
        r@ == ascii(s@),
{
    let v = s.as_bytes_vec();
    proof {
        broadcast use vstd::string::is_ascii_spec_bytes;

        assert(v@ =~= ascii(s@));
    }
    v
}

/// ASCII uppercase folding of a byte string.
pub fn upper_bytes(b: &[u8]) -> (r: Vec<u8>)
    ensures
        r@ == upper(b@),
{
    let mut out: Vec<u8> = Vec::new();
    let mut i: usize = 0;
    while i < b.len()
        invariant
            i <= b@.len(),
            out@ =~= upper(b@).take(i as int),
        decreases b@.len() - i,
    {
        let c = b[i];
        if 97 <= c && c <= 122 {
            out.push(c - 32);
        } else {
            out.push(c);
        }
        proof {
            assert(out@ =~= upper(b@).take(i as int + 1));
        }
        i += 1;
    }
    proof {
        assert(upper(b@).take(b@.len() as int) =~= upper(b@));
    }
    out
}

} // verus!
