//! The command dispatcher.
//!
//! One decoded frame comes in; one reply — or the decision to park the
//! connection as a blocking-pop waiter — comes out, together with the
//! deliveries that a push owes to parked consumers. Command names match
//! ASCII case-insensitively. `dispatch_post` is the single statement of
//! what every command does; `handle_command` is proved against it.

use vstd::prelude::*;

use crate::decode::{parse_int_bytes, parse_int_line, parse_u64_bytes, parse_u64_digits};
use crate::resp::{
    ascii, dec_digits, encoded, lit_bytes, models_of, resp_model, upper, RespModel, RespValue,
};
use crate::storage::{
    as_stream, deadline_of, live, pairs_model, range_entries, range_of, touched, xadd_spec,
    xread_spec, DataModel, EntryModel, IdSpec, Storage, StoreError, StreamEntry, ValueModel,
};
use crate::waiters::{
    any_wrong_kind, deliveries_model, first_ready, list_push_spec, wake_all, Delivery,
    DeliveryModel, WaiterModel, WaiterQueue,
};

verus! {

/// The encoding of a simple-string reply.
pub open spec fn simple_reply(b: Seq<u8>) -> Seq<u8> {
    encoded(RespModel::Simple(b))
}

/// The encoding of an error reply.
pub open spec fn error_reply(b: Seq<u8>) -> Seq<u8> {
    encoded(RespModel::Error(b))
}

/// The encoding of an integer reply.
pub open spec fn int_reply(i: i64) -> Seq<u8> {
    encoded(RespModel::Int(i))
}

/// The encoding of a bulk-string reply.
pub open spec fn bulk_reply(b: Seq<u8>) -> Seq<u8> {
    encoded(RespModel::Bulk(Some(b)))
}

/// The encoding of the null bulk string.
pub open spec fn null_bulk_reply() -> Seq<u8> {
    encoded(RespModel::Bulk(None))
}

/// The encoding of the null array.
pub open spec fn null_array_reply() -> Seq<u8> {
    encoded(RespModel::Arr(None))
}

/// The frames of a run of byte strings, each a bulk string.
pub open spec fn bulk_frames(items: Seq<Seq<u8>>) -> Seq<RespModel> {
    items.map_values(|b: Seq<u8>| RespModel::Bulk(Some(b)))
}

/// The encoding of an array-of-bulk-strings reply.
pub open spec fn bulk_array_reply(items: Seq<Seq<u8>>) -> Seq<u8> {
    encoded(RespModel::Arr(Some(bulk_frames(items))))
}

/// Builds a simple-string reply.
pub fn reply_simple(b: Vec<u8>) -> (r: Vec<u8>)
    ensures
        r@ == simple_reply(b@),
{
    crate::resp::encode(&RespValue::SimpleString(b))
}

/// Builds an error reply.
pub fn reply_error(b: Vec<u8>) -> (r: Vec<u8>)
    ensures
        r@ == error_reply(b@),
{
    crate::resp::encode(&RespValue::Error(b))
}

/// Builds an integer reply.
pub fn reply_int(i: i64) -> (r: Vec<u8>)
    ensures
        r@ == int_reply(i),
{
    crate::resp::encode(&RespValue::Integer(i))
}

/// Builds a bulk-string reply.
pub fn reply_bulk(b: Vec<u8>) -> (r: Vec<u8>)
    ensures
        r@ == bulk_reply(b@),
{
    crate::resp::encode(&RespValue::BulkString(Some(b)))
}

/// Builds the null bulk-string reply.
pub fn reply_null_bulk() -> (r: Vec<u8>)
    ensures
        r@ == null_bulk_reply(),
{
    crate::resp::encode(&RespValue::BulkString(None))
}

/// Builds the null array reply.
pub fn reply_null_array() -> (r: Vec<u8>)
    ensures
        r@ == null_array_reply(),
{
    crate::resp::encode(&RespValue::Array(None))
}

/// Builds an array-of-bulk-strings reply.
#[verifier::loop_isolation(false)]
pub fn reply_bulk_array(items: &Vec<Vec<u8>>) -> (r: Vec<u8>)
    ensures
        r@ == bulk_array_reply(items@.map_values(|b: Vec<u8>| b@)),
{
    let ghost gitems = items@.map_values(|b: Vec<u8>| b@);
    let mut frames: Vec<RespValue> = Vec::new();
    let mut i: usize = 0;
    proof {
        crate::resp::lemma_models_of(frames@);
        assert(models_of(frames@) =~= bulk_frames(gitems.take(0)));
    }
    while i < items.len()
        invariant
            i <= items@.len(),
            models_of(frames@) =~= bulk_frames(gitems.take(i as int)),
        decreases items@.len() - i,
    {
        let ghost pre = frames@;
        frames.push(RespValue::BulkString(Some(vstd::slice::slice_to_vec(items[i].as_slice()))));
        proof {
            crate::resp::lemma_models_of(pre);
            crate::resp::lemma_models_of(frames@);
            assert forall|j: int| 0 <= j < frames@.len() implies #[trigger] models_of(frames@)[j]
                == bulk_frames(gitems.take(i as int + 1))[j] by {
                if j < i {
                    assert(frames@[j] == pre[j]);
                    assert(models_of(pre)[j] == resp_model(pre[j]));
                    assert(models_of(pre)[j] == bulk_frames(gitems.take(i as int))[j]);
                }
            }
            assert(models_of(frames@) =~= bulk_frames(gitems.take(i as int + 1)));
        }
        i += 1;
    }
    proof {
        assert(gitems.take(items@.len() as int) =~= gitems);
    }
    crate::resp::encode(&RespValue::Array(Some(frames)))
}

/// What the dispatcher decided for one frame.
#[derive(Debug, PartialEq, Eq)]
pub enum Step {
    /// Write these bytes back.
    Reply(Vec<u8>),
    /// Park the connection as the waiter with this ticket until a delivery
    /// arrives or the deadline (clock milliseconds) passes.
    Block(u64, Option<u64>),
}

/// The byte-string payload an argument frame offers, if any.
pub open spec fn arg_bytes(m: RespModel) -> Option<Seq<u8>> {
    match m {
        RespModel::Bulk(Some(b)) => Some(b),
        RespModel::Simple(s) => Some(s),
        _ => None,
    }
}

/// The case-folded command name an argument frame offers; empty where it
/// offers none.
pub open spec fn name_of(m: RespModel) -> Seq<u8> {
    match arg_bytes(m) {
        Some(b) => upper(b),
        None => Seq::empty(),
    }
}

/// The integer an argument frame offers: an integer frame outright, or a
/// byte-string payload read as a signed decimal.
pub open spec fn int_of_resp(m: RespModel) -> Option<i64> {
    match m {
        RespModel::Int(i) => Some(i),
        RespModel::Bulk(Some(b)) => parse_int_line(b),
        RespModel::Simple(s) => parse_int_line(s),
        _ => None,
    }
}

/// The payloads of the argument frames `ms[from..to]`, or nothing if one
/// of them offers none.
pub open spec fn args_bytes(ms: Seq<RespModel>, from: int, to: int) -> Option<Seq<Seq<u8>>>
    decreases to - from,
{
    if from >= to {
        Some(Seq::empty())
    } else {
        match (arg_bytes(ms[from]), args_bytes(ms, from + 1, to)) {
            (Some(b), Some(rest)) => Some(seq![b] + rest),
            _ => None,
        }
    }
}

/// An owned copy of an argument frame's payload.
pub fn extract_bytes(v: &RespValue) -> (r: Option<Vec<u8>>)
    ensures
        match r {
            Some(b) => arg_bytes(resp_model(*v)) == Some(b@),
            None => arg_bytes(resp_model(*v)) is None,
        },
{
    match v {
        RespValue::BulkString(Some(b)) => Some(vstd::slice::slice_to_vec(b.as_slice())),
        RespValue::SimpleString(s) => Some(vstd::slice::slice_to_vec(s.as_slice())),
        _ => None,
    }
}

/// The case-folded command name of an argument frame; empty bytes where it
/// offers none.
pub fn extract_command_name(value: &RespValue) -> (r: Vec<u8>)
    ensures
        r@ == name_of(resp_model(*value)),
{
    match extract_bytes(value) {
        Some(b) => crate::resp::upper_bytes(b.as_slice()),
        None => {
            proof {
                assert(upper(Seq::<u8>::empty()) =~= Seq::<u8>::empty());
            }
            Vec::new()
        },
    }
}

/// The integer an argument frame offers.
pub fn extract_integer_from_resp_value(value: &RespValue) -> (r: Option<i64>)
    ensures
        r == int_of_resp(resp_model(*value)),
{
    match value {
        RespValue::Integer(i) => Some(*i),
        RespValue::BulkString(Some(b)) => parse_int_bytes(b),
        RespValue::SimpleString(s) => parse_int_bytes(s),
        _ => None,
    }
}

/// Copies of the payloads of `es[from..to]`, or nothing if one frame
/// offers none.
#[verifier::loop_isolation(false)]
pub fn collect_args(es: &Vec<RespValue>, from: usize, to: usize) -> (r: Option<Vec<Vec<u8>>>)
    requires
        from <= to <= es@.len(),
    ensures
        ({
            let ms = models_of(es@);
            match r {
                Some(vs) => vs@.len() == to - from && args_bytes(ms, from as int, to as int)
                    == Some(vs@.map_values(|b: Vec<u8>| b@)),
                None => args_bytes(ms, from as int, to as int) is None,
            }
        }),
{
    let ghost ms = models_of(es@);
    proof {
        crate::resp::lemma_models_of(es@);
    }
    let mut out: Vec<Vec<u8>> = Vec::new();
    let mut j: usize = from;
    while j < to
        invariant
            from <= j <= to,
            out@.len() == j - from,
            args_bytes(ms, from as int, to as int) == match args_bytes(ms, j as int, to as int) {
                Some(rest) => Some(out@.map_values(|b: Vec<u8>| b@) + rest),
                None => None::<Seq<Seq<u8>>>,
            },
        decreases to - j,
    {
        match extract_bytes(&es[j]) {
            Some(b) => {
                let ghost out0 = out@;
                out.push(b);
                proof {
                    let gout = out@.map_values(|x: Vec<u8>| x@);
                    let gout0 = out0.map_values(|x: Vec<u8>| x@);
                    if args_bytes(ms, j as int + 1, to as int) is Some {
                        let rest = args_bytes(ms, j as int + 1, to as int)->Some_0;
                        assert(gout + rest =~= gout0 + (seq![b@] + rest));
                    }
                }
            },
            None => {
                return None;
            },
        }
        j += 1;
    }
    proof {
        if args_bytes(ms, to as int, to as int) is Some {
            assert(out@.map_values(|b: Vec<u8>| b@) + Seq::<Seq<u8>>::empty() =~= out@.map_values(
                |b: Vec<u8>| b@,
            ));
        }
    }
    Some(out)
}

/// The reply step carries exactly these bytes.
pub open spec fn replied(step: Step, bytes: Seq<u8>) -> bool {
    step matches Step::Reply(b) && b@ == bytes
}

/// The queue did not move and nothing is owed to parked consumers.
pub open spec fn quiet(q0: Seq<WaiterModel>, q1: Seq<WaiterModel>, dels: Seq<DeliveryModel>) -> bool {
    q1 == q0 && dels.len() == 0
}

/// The wrong-kind refusal, byte for byte.
pub open spec fn msg_wrongtype() -> Seq<u8> {
    ascii("WRONGTYPE Operation against a key holding the wrong kind of value"@)
}

/// The arity refusal for the named command, byte for byte.
pub open spec fn argcount_msg(name: Seq<char>) -> Seq<u8> {
    ascii("ERR wrong number of arguments for '"@) + ascii(name) + ascii("' command"@)
}

/// Builds the wrong-kind refusal.
pub fn err_wrongtype() -> (r: Vec<u8>)
    ensures
        r@ == error_reply(msg_wrongtype()),
{
    proof {
        reveal_strlit("WRONGTYPE Operation against a key holding the wrong kind of value");
    }
    reply_error(lit_bytes("WRONGTYPE Operation against a key holding the wrong kind of value"))
}

/// Builds the arity refusal for the named command.
pub fn err_argcount(name: &str) -> (r: Vec<u8>)
    requires
        vstd::string::is_ascii(name),
    ensures
        r@ == error_reply(argcount_msg(name@)),
{
    proof {
        reveal_strlit("ERR wrong number of arguments for '");
        reveal_strlit("' command");
    }
    let mut b = lit_bytes("ERR wrong number of arguments for '");
    let mid = lit_bytes(name);
    crate::resp::append_bytes(&mut b, mid.as_slice());
    let tail = lit_bytes("' command");
    crate::resp::append_bytes(&mut b, tail.as_slice());
    reply_error(b)
}

/// What an ECHO decides: its argument back as a bulk string.
pub open spec fn post_echo(ms: Seq<RespModel>, step: Step) -> bool {
    if ms.len() < 2 {
        replied(step, error_reply(argcount_msg("echo"@)))
    } else {
        match arg_bytes(ms[1]) {
            Some(msg) => replied(step, bulk_reply(msg)),
            None => replied(step, error_reply(ascii("ERR invalid argument type"@))),
        }
    }
}

/// What a SET decides: an unconditional write of a byte string, with an
/// optional deadline a strictly positive EX (seconds) or PX (milliseconds)
/// count ahead of `now`.
pub open spec fn post_set(
    ms: Seq<RespModel>,
    m0: Map<Seq<u8>, ValueModel>,
    now: u64,
    step: Step,
    m1: Map<Seq<u8>, ValueModel>,
) -> bool {
    let n = ms.len() as int;
    if n < 3 {
        replied(step, error_reply(argcount_msg("SET"@))) && m1 == m0
    } else {
        match arg_bytes(ms[1]) {
            None => replied(step, error_reply(ascii("ERR Invalid key type"@))) && m1 == m0,
            Some(key) => match arg_bytes(ms[2]) {
                None => replied(step, error_reply(ascii("ERR Invalid value type"@))) && m1 == m0,
                Some(val) => if n == 3 {
                    replied(step, simple_reply(ascii("OK"@))) && m1 == m0.insert(
                        key,
                        ValueModel { data: DataModel::Bytes(val), expired_at: None },
                    )
                } else if n == 5 {
                    let opt = name_of(ms[3]);
                    if opt == ascii("EX"@) || opt == ascii("PX"@) {
                        match int_of_resp(ms[4]) {
                            Some(d) => if d > 0 {
                                replied(step, simple_reply(ascii("OK"@))) && m1 == m0.insert(
                                    key,
                                    ValueModel {
                                        data: DataModel::Bytes(val),
                                        expired_at: Some(
                                            deadline_of(
                                                now,
                                                d as u64,
                                                if opt == ascii("EX"@) {
                                                    1000
                                                } else {
                                                    1
                                                },
                                            ),
                                        ),
                                    },
                                )
                            } else {
                                replied(
                                    step,
                                    error_reply(ascii("ERR invalid expire time in 'SET' command"@)),
                                ) && m1 == m0
                            },
                            None => replied(
                                step,
                                error_reply(ascii("ERR invalid expire time in 'SET' command"@)),
                            ) && m1 == m0,
                        }
                    } else {
                        replied(step, error_reply(ascii("ERR syntax error"@))) && m1 == m0
                    }
                } else {
                    replied(step, error_reply(ascii("ERR syntax error"@))) && m1 == m0
                },
            },
        }
    }
}

/// What a GET decides: the byte string under the key, nothing for an
/// absent or expired key (the expired value is dropped), and a wrong-kind
/// refusal otherwise.
pub open spec fn post_get(
    ms: Seq<RespModel>,
    m0: Map<Seq<u8>, ValueModel>,
    now: u64,
    step: Step,
    m1: Map<Seq<u8>, ValueModel>,
) -> bool {
    let n = ms.len() as int;
    if n < 2 {
        replied(step, error_reply(argcount_msg("GET"@))) && m1 == m0
    } else {
        match arg_bytes(ms[1]) {
            None => replied(step, error_reply(ascii("ERR Invalid key type"@))) && m1 == m0,
            Some(key) => m1 == touched(m0, key, now) && match live(m0, key, now) {
                None => replied(step, null_bulk_reply()),
                Some(vm) => match vm.data {
                    DataModel::Bytes(b) => replied(step, bulk_reply(b)),
                    _ => replied(step, error_reply(msg_wrongtype())),
                },
            },
        }
    }
}

/// Offset of the first `t` byte in `s`.
pub open spec fn find_byte(s: Seq<u8>, t: u8) -> Option<int>
    decreases s.len(),
{
    if s.len() == 0 {
        None
    } else if s[0] == t {
        Some(0)
    } else {
        match find_byte(s.drop_first(), t) {
            Some(i) => Some(i + 1),
            None => None,
        }
    }
}

/// A stream id in its textual form: a millisecond count, a dash, a
/// sequence count, both unsigned 64-bit decimals.
pub open spec fn parse_stream_id(s: Seq<u8>) -> Option<(u64, u64)> {
    match find_byte(s, 45) {
        None => None,
        Some(i) => if 1 <= i && i + 1 < s.len() {
            match (
                parse_u64_digits(s.subrange(0, i), 0),
                parse_u64_digits(s.subrange(i + 1, s.len() as int), 0),
            ) {
                (Some(a), Some(b)) => Some((a, b)),
                _ => None,
            }
        } else {
            None
        },
    }
}

/// The textual form of a stream id.
pub open spec fn id_text(id: (u64, u64)) -> Seq<u8> {
    dec_digits(id.0 as nat) + seq![45u8] + dec_digits(id.1 as nat)
}

/// A blocking-pop timeout in milliseconds: a decimal count of seconds with
/// an optional fraction, of which the first three digits count. A fraction
/// too long to read as one 64-bit number is refused.
pub open spec fn parse_timeout_ms(s: Seq<u8>) -> Option<u64> {
    match find_byte(s, 46) {
        None => match parse_u64_digits(s, 0) {
            Some(secs) => if s.len() >= 1 && secs <= u64::MAX / 1000 {
                Some((secs * 1000) as u64)
            } else {
                None
            },
            None => None,
        },
        Some(i) => if 1 <= i && i + 1 < s.len() {
            let frac = s.subrange(i + 1, s.len() as int);
            match (parse_u64_digits(s.subrange(0, i), 0), parse_u64_digits(frac, 0)) {
                (Some(secs), Some(_)) => if secs <= u64::MAX / 1000 - 1 {
                    Some((secs * 1000 + frac_ms(frac)) as u64)
                } else {
                    None
                },
                _ => None,
            }
        } else {
            None
        },
    }
}

/// The milliseconds the first three fraction digits name.
pub open spec fn frac_ms(f: Seq<u8>) -> int {
    (f[0] - 48) * 100 + (if f.len() >= 2 {
        (f[1] - 48) * 10
    } else {
        0
    }) + (if f.len() >= 3 {
        f[2] - 48
    } else {
        0
    })
}

/// What an RPUSH or LPUSH decides: the push onto the list under the key,
/// the new length back, and one wakeup attempt per pushed value.
pub open spec fn post_push(
    ms: Seq<RespModel>,
    m0: Map<Seq<u8>, ValueModel>,
    q0: Seq<WaiterModel>,
    now: u64,
    at_right: bool,
    step: Step,
    dels: Seq<DeliveryModel>,
    m1: Map<Seq<u8>, ValueModel>,
    q1: Seq<WaiterModel>,
) -> bool {
    let n = ms.len() as int;
    let cmd = if at_right {
        "RPUSH"@
    } else {
        "LPUSH"@
    };
    if n < 3 {
        replied(step, error_reply(argcount_msg(cmd))) && m1 == m0 && quiet(q0, q1, dels)
    } else {
        match arg_bytes(ms[1]) {
            None => replied(step, error_reply(ascii("ERR Invalid key type"@))) && m1 == m0 && quiet(
                q0,
                q1,
                dels,
            ),
            Some(key) => match args_bytes(ms, 2, n) {
                None => replied(step, error_reply(ascii("ERR Invalid key type"@))) && m1 == m0
                    && quiet(q0, q1, dels),
                Some(vs) => match list_push_spec(m0, key, vs, at_right, now) {
                    None => replied(step, error_reply(msg_wrongtype())) && m1 == touched(
                        m0,
                        key,
                        now,
                    ) && quiet(q0, q1, dels),
                    Some(pushed) => {
                        let woken = wake_all(pushed.0, q0, key, now, vs.len());
                        &&& replied(step, int_reply(pushed.1 as i64))
                        &&& dels == woken.0
                        &&& m1 == woken.1
                        &&& q1 == woken.2
                    },
                },
            },
        }
    }
}

/// What an LRANGE decides: the inclusive normalised range of the list
/// under the key, empty for an absent or expired key.
pub open spec fn post_lrange(
    ms: Seq<RespModel>,
    m0: Map<Seq<u8>, ValueModel>,
    now: u64,
    step: Step,
    m1: Map<Seq<u8>, ValueModel>,
) -> bool {
    let n = ms.len() as int;
    if n != 4 {
        replied(step, error_reply(argcount_msg("LRANGE"@))) && m1 == m0
    } else {
        match arg_bytes(ms[1]) {
            None => replied(step, error_reply(ascii("ERR Invalid key type"@))) && m1 == m0,
            Some(key) => match (int_of_resp(ms[2]), int_of_resp(ms[3])) {
                (Some(start), Some(end)) => m1 == touched(m0, key, now) && match live(
                    m0,
                    key,
                    now,
                ) {
                    None => replied(step, bulk_array_reply(Seq::empty())),
                    Some(vm) => match vm.data {
                        DataModel::List(xs) => replied(
                            step,
                            bulk_array_reply(range_of(xs, start as int, end as int)),
                        ),
                        _ => replied(step, error_reply(msg_wrongtype())),
                    },
                },
                _ => replied(
                    step,
                    error_reply(ascii("ERR value is not an integer or out of range"@)),
                ) && m1 == m0,
            },
        }
    }
}

/// What an LLEN decides: the length of the list under the key, zero for an
/// absent or expired key.
pub open spec fn post_llen(
    ms: Seq<RespModel>,
    m0: Map<Seq<u8>, ValueModel>,
    now: u64,
    step: Step,
    m1: Map<Seq<u8>, ValueModel>,
) -> bool {
    let n = ms.len() as int;
    if n != 2 {
        replied(step, error_reply(argcount_msg("LLEN"@))) && m1 == m0
    } else {
        match arg_bytes(ms[1]) {
            None => replied(step, error_reply(ascii("ERR Invalid key type"@))) && m1 == m0,
            Some(key) => m1 == touched(m0, key, now) && match live(m0, key, now) {
                None => replied(step, int_reply(0)),
                Some(vm) => match vm.data {
                    DataModel::List(xs) => replied(step, int_reply(xs.len() as i64)),
                    _ => replied(step, error_reply(msg_wrongtype())),
                },
            },
        }
    }
}

/// What an LPOP decides: the head of the list — or, with a count, up to
/// that many elements — removed and handed back; the pop that empties the
/// list removes the key.
pub open spec fn post_lpop(
    ms: Seq<RespModel>,
    m0: Map<Seq<u8>, ValueModel>,
    now: u64,
    step: Step,
    m1: Map<Seq<u8>, ValueModel>,
) -> bool {
    let n = ms.len() as int;
    if n != 2 && n != 3 {
        replied(step, error_reply(argcount_msg("LPOP"@))) && m1 == m0
    } else {
        match arg_bytes(ms[1]) {
            None => replied(step, error_reply(ascii("ERR Invalid key type"@))) && m1 == m0,
            Some(key) => if n == 2 {
                match live(m0, key, now) {
                    None => replied(step, null_bulk_reply()) && m1 == touched(m0, key, now),
                    Some(vm) => match vm.data {
                        DataModel::List(xs) => replied(step, bulk_reply(xs[0])) && m1 == (
                        if xs.len() == 1 {
                            touched(m0, key, now).remove(key)
                        } else {
                            touched(m0, key, now).insert(
                                key,
                                ValueModel {
                                    data: DataModel::List(xs.drop_first()),
                                    expired_at: vm.expired_at,
                                },
                            )
                        }),
                        _ => replied(step, error_reply(msg_wrongtype())) && m1 == touched(
                            m0,
                            key,
                            now,
                        ),
                    },
                }
            } else {
                match int_of_resp(ms[2]) {
                    Some(c) => if c < 0 {
                        replied(
                            step,
                            error_reply(ascii("ERR value is not an integer or out of range"@)),
                        ) && m1 == m0
                    } else {
                        // counts are capped at the platform's addressable size
                        let count = if c as int > usize::MAX as int {
                            usize::MAX as int
                        } else {
                            c as int
                        };
                        match live(m0, key, now) {
                            None => replied(step, null_bulk_reply()) && m1 == touched(
                                m0,
                                key,
                                now,
                            ),
                            Some(vm) => match vm.data {
                                DataModel::List(xs) => replied(
                                    step,
                                    bulk_array_reply(
                                        xs.take(
                                            if count <= xs.len() {
                                                count
                                            } else {
                                                xs.len() as int
                                            },
                                        ),
                                    ),
                                ) && m1 == (if count >= xs.len() {
                                    touched(m0, key, now).remove(key)
                                } else {
                                    touched(m0, key, now).insert(
                                        key,
                                        ValueModel {
                                            data: DataModel::List(xs.skip(count)),
                                            expired_at: vm.expired_at,
                                        },
                                    )
                                }),
                                _ => replied(step, error_reply(msg_wrongtype())) && m1 == touched(
                                    m0,
                                    key,
                                    now,
                                ),
                            },
                        }
                    },
                    None => replied(
                        step,
                        error_reply(ascii("ERR value is not an integer or out of range"@)),
                    ) && m1 == m0,
                }
            },
        }
    }
}

/// What a TYPE decides: the kind name of the value under the key, `none`
/// for an absent or expired key.
pub open spec fn post_type(
    ms: Seq<RespModel>,
    m0: Map<Seq<u8>, ValueModel>,
    now: u64,
    step: Step,
    m1: Map<Seq<u8>, ValueModel>,
) -> bool {
    let n = ms.len() as int;
    if n != 2 {
        replied(step, error_reply(argcount_msg("TYPE"@))) && m1 == m0
    } else {
        match arg_bytes(ms[1]) {
            None => replied(step, error_reply(ascii("ERR Invalid key type"@))) && m1 == m0,
            Some(key) => m1 == m0 && replied(
                step,
                simple_reply(
                    match live(m0, key, now) {
                        None => ascii("none"@),
                        Some(vm) => match vm.data {
                            DataModel::Bytes(_) => ascii("string"@),
                            DataModel::List(_) => ascii("list"@),
                            DataModel::Stream(_) => ascii("stream"@),
                        },
                    },
                ),
            ),
        }
    }
}

/// The field pairs of a record, flattened to alternating name/value byte
/// strings.
pub open spec fn flat_fields(fields: Seq<(Seq<u8>, Seq<u8>)>) -> Seq<Seq<u8>> {
    Seq::new(
        fields.len() * 2,
        |i: int|
            if i % 2 == 0 {
                fields[i / 2].0
            } else {
                fields[i / 2].1
            },
    )
}

/// The frame of one stream record: its id's text and its flattened field
/// pairs.
pub open spec fn entry_frame(e: EntryModel) -> RespModel {
    RespModel::Arr(
        Some(
            seq![
                RespModel::Bulk(Some(id_text((e.ms, e.seq)))),
                RespModel::Arr(Some(bulk_frames(flat_fields(e.fields)))),
            ],
        ),
    )
}

/// The frames of a run of stream records.
pub open spec fn entry_frames(es: Seq<EntryModel>) -> Seq<RespModel> {
    es.map_values(|e: EntryModel| entry_frame(e))
}

/// The encoding of a run of stream records as an array reply.
pub open spec fn entries_reply(es: Seq<EntryModel>) -> Seq<u8> {
    encoded(RespModel::Arr(Some(entry_frames(es))))
}

/// The encoding of a read reply: one `[name, records]` pair per stream.
pub open spec fn xread_reply(pairs: Seq<(Seq<u8>, Seq<EntryModel>)>) -> Seq<u8> {
    encoded(
        RespModel::Arr(
            Some(
                pairs.map_values(
                    |p: (Seq<u8>, Seq<EntryModel>)|
                        RespModel::Arr(
                            Some(
                                seq![
                                    RespModel::Bulk(Some(p.0)),
                                    RespModel::Arr(Some(entry_frames(p.1))),
                                ],
                            ),
                        ),
                ),
            ),
        ),
    )
}

/// The deadline a timeout of `ms` milliseconds sets at `now`: none for the
/// wait-forever zero.
pub open spec fn blpop_deadline(now: u64, ms: u64) -> Option<u64> {
    if ms == 0 {
        None
    } else if now + ms > u64::MAX {
        Some(u64::MAX)
    } else {
        Some((now + ms) as u64)
    }
}

/// What a BLPOP decides: a wrong-kind refusal if any named key holds
/// another kind; the head of the first live list with its key, popped,
/// otherwise; and, with every list absent or empty, a parked waiter on all
/// the named keys — or, with the ticket space exhausted, a refusal.
pub open spec fn post_blpop(
    ms: Seq<RespModel>,
    m0: Map<Seq<u8>, ValueModel>,
    q0: Seq<WaiterModel>,
    now: u64,
    step: Step,
    dels: Seq<DeliveryModel>,
    m1: Map<Seq<u8>, ValueModel>,
    q1: Seq<WaiterModel>,
) -> bool {
    let n = ms.len() as int;
    if n < 3 {
        replied(step, error_reply(argcount_msg("BLPOP"@))) && m1 == m0 && quiet(q0, q1, dels)
    } else {
        match args_bytes(ms, 1, n - 1) {
            None => replied(step, error_reply(ascii("ERR Invalid key type"@))) && m1 == m0 && quiet(
                q0,
                q1,
                dels,
            ),
            Some(keys) => {
                let timeout = match arg_bytes(ms[n - 1]) {
                    Some(t) => parse_timeout_ms(t),
                    None => match ms[n - 1] {
                        RespModel::Int(i) => if 0 <= i <= (u64::MAX / 1000) as i64 {
                            Some((i * 1000) as u64)
                        } else {
                            None
                        },
                        _ => None,
                    },
                };
                match timeout {
                    None => replied(
                        step,
                        error_reply(ascii("ERR timeout is not a float or out of range"@)),
                    ) && m1 == m0 && quiet(q0, q1, dels),
                    Some(t_ms) => if any_wrong_kind(m0, keys, now) {
                        replied(step, error_reply(msg_wrongtype())) && m1 == m0 && quiet(
                            q0,
                            q1,
                            dels,
                        )
                    } else {
                        match first_ready(m0, keys, now) {
                            Some(i) => dels.len() == 0 && q1 == q0 && (live(
                                m0,
                                keys[i],
                                now,
                            ) matches Some(vm) && (vm.data matches DataModel::List(xs) && (replied(
                                step,
                                bulk_array_reply(seq![keys[i], xs[0]]),
                            ) && m1 == (if xs.len() == 1 {
                                m0.remove(keys[i])
                            } else {
                                m0.insert(
                                    keys[i],
                                    ValueModel {
                                        data: DataModel::List(xs.drop_first()),
                                        expired_at: vm.expired_at,
                                    },
                                )
                            })))),
                            None => m1 == m0 && dels.len() == 0 && match step {
                                Step::Block(id, dl) => dl == blpop_deadline(now, t_ms) && q1
                                    == q0.push(WaiterModel { id, keys, deadline: dl }) && (forall|
                                    j: int,
                                |
                                    0 <= j < q0.len() ==> (#[trigger] q0[j]).id != id),
                                Step::Reply(b) => b@ == error_reply(
                                    ascii("ERR too many blocked clients"@),
                                ) && q1 == q0,
                            },
                        }
                    },
                }
            },
        }
    }
}

/// What an XADD decides: the record appended under the requested or
/// generated id, the id's text back, and the reasons a request is refused.
pub open spec fn post_xadd(
    ms: Seq<RespModel>,
    m0: Map<Seq<u8>, ValueModel>,
    now: u64,
    step: Step,
    m1: Map<Seq<u8>, ValueModel>,
) -> bool {
    let n = ms.len() as int;
    if n < 5 || (n - 3) % 2 != 0 {
        replied(step, error_reply(argcount_msg("XADD"@))) && m1 == m0
    } else {
        match (arg_bytes(ms[1]), arg_bytes(ms[2]), args_bytes(ms, 3, n)) {
            (Some(key), Some(idtok), Some(flat)) => {
                let id = if idtok == ascii("*"@) {
                    Some(IdSpec::Auto)
                } else {
                    match parse_stream_id(idtok) {
                        Some(p) => Some(IdSpec::Explicit(p.0, p.1)),
                        None => None,
                    }
                };
                match id {
                    None => replied(
                        step,
                        error_reply(
                            ascii("ERR Invalid stream ID specified as stream command argument"@),
                        ),
                    ) && m1 == m0,
                    Some(id) => {
                        let fields = pairs_of(flat);
                        match as_stream(live(m0, key, now)) {
                            None => replied(step, error_reply(msg_wrongtype())) && m1 == touched(
                                m0,
                                key,
                                now,
                            ),
                            Some(st) => match xadd_spec(st.0, id, now) {
                                Ok(rid) => replied(step, bulk_reply(id_text(rid))) && m1
                                    == touched(m0, key, now).insert(
                                    key,
                                    ValueModel {
                                        data: DataModel::Stream(
                                            st.0.push(
                                                EntryModel { ms: rid.0, seq: rid.1, fields },
                                            ),
                                        ),
                                        expired_at: st.1,
                                    },
                                ),
                                Err(e) => m1 == touched(m0, key, now) && replied(
                                    step,
                                    error_reply(
                                        if e == StoreError::IdZero {
                                            ascii(
                                                "ERR The ID specified in XADD must be greater than 0-0"@,
                                            )
                                        } else {
                                            ascii(
                                                "ERR The ID specified in XADD is equal or smaller than the target stream top item"@,
                                            )
                                        },
                                    ),
                                ),
                            },
                        }
                    },
                }
            },
            _ => replied(step, error_reply(ascii("ERR Invalid key type"@))) && m1 == m0,
        }
    }
}

/// Successive byte strings read as name/value pairs.
pub open spec fn pairs_of(flat: Seq<Seq<u8>>) -> Seq<(Seq<u8>, Seq<u8>)> {
    Seq::new((flat.len() / 2) as nat, |i: int| (flat[2 * i], flat[2 * i + 1]))
}

/// What an XRANGE decides: the records of the stream under the key with
/// ids in the inclusive range, in ascending order.
pub open spec fn post_xrange(
    ms: Seq<RespModel>,
    m0: Map<Seq<u8>, ValueModel>,
    now: u64,
    step: Step,
    m1: Map<Seq<u8>, ValueModel>,
) -> bool {
    let n = ms.len() as int;
    if n != 4 {
        replied(step, error_reply(argcount_msg("XRANGE"@))) && m1 == m0
    } else {
        match (arg_bytes(ms[1]), arg_bytes(ms[2]), arg_bytes(ms[3])) {
            (Some(key), Some(s_tok), Some(e_tok)) => match (
                parse_stream_id(s_tok),
                parse_stream_id(e_tok),
            ) {
                (Some(sid), Some(eid)) => m1 == touched(m0, key, now) && match as_stream(
                    live(m0, key, now),
                ) {
                    None => replied(step, error_reply(msg_wrongtype())),
                    Some(st) => replied(step, entries_reply(range_entries(st.0, sid, eid))),
                },
                _ => replied(
                    step,
                    error_reply(
                        ascii("ERR Invalid stream ID specified as stream command argument"@),
                    ),
                ) && m1 == m0,
            },
            _ => replied(step, error_reply(ascii("ERR Invalid key type"@))) && m1 == m0,
        }
    }
}

/// What an XREAD decides: for each named stream, its records above the
/// matching id; streams with none are left out.
pub open spec fn post_xread(
    ms: Seq<RespModel>,
    m0: Map<Seq<u8>, ValueModel>,
    now: u64,
    step: Step,
    m1: Map<Seq<u8>, ValueModel>,
) -> bool {
    let n = ms.len() as int;
    if n < 4 || (n - 2) % 2 != 0 {
        replied(step, error_reply(argcount_msg("XREAD"@))) && m1 == m0
    } else if name_of(ms[1]) != ascii("STREAMS"@) {
        replied(step, error_reply(ascii("ERR syntax error"@))) && m1 == m0
    } else {
        let half = (n - 2) / 2;
        match (args_bytes(ms, 2, 2 + half), args_bytes(ms, 2 + half, n)) {
            (Some(keys), Some(idtoks)) => match ids_of(idtoks) {
                None => replied(
                    step,
                    error_reply(
                        ascii("ERR Invalid stream ID specified as stream command argument"@),
                    ),
                ) && m1 == m0,
                Some(ids) => m1 == m0 && match xread_spec(m0, keys, ids, now) {
                    Ok(pairs) => replied(step, xread_reply(pairs)),
                    Err(_) => replied(step, error_reply(msg_wrongtype())),
                },
            },
            _ => replied(step, error_reply(ascii("ERR Invalid key type"@))) && m1 == m0,
        }
    }
}

/// Every token read as a stream id, or nothing if one is malformed.
pub open spec fn ids_of(toks: Seq<Seq<u8>>) -> Option<Seq<(u64, u64)>>
    decreases toks.len(),
{
    if toks.len() == 0 {
        Some(Seq::empty())
    } else {
        match (parse_stream_id(toks[0]), ids_of(toks.drop_first())) {
            (Some(id), Some(rest)) => Some(seq![id] + rest),
            _ => None,
        }
    }
}

/// What the dispatcher does with one decoded frame: the single statement
/// every command is proved against.
pub open spec fn dispatch_post(
    v: RespModel,
    m0: Map<Seq<u8>, ValueModel>,
    q0: Seq<WaiterModel>,
    now: u64,
    step: Step,
    dels: Seq<DeliveryModel>,
    m1: Map<Seq<u8>, ValueModel>,
    q1: Seq<WaiterModel>,
) -> bool {
    match v {
        RespModel::Arr(Some(ms)) => if ms.len() == 0 {
            replied(step, error_reply(ascii("ERR Invalid command format"@))) && m1 == m0 && quiet(
                q0,
                q1,
                dels,
            )
        } else {
            let name = name_of(ms[0]);
            if name == ascii("PING"@) {
                replied(step, simple_reply(ascii("PONG"@))) && m1 == m0 && quiet(q0, q1, dels)
            } else if name == ascii("ECHO"@) {
                post_echo(ms, step) && m1 == m0 && quiet(q0, q1, dels)
            } else if name == ascii("SET"@) {
                post_set(ms, m0, now, step, m1) && quiet(q0, q1, dels)
            } else if name == ascii("GET"@) {
                post_get(ms, m0, now, step, m1) && quiet(q0, q1, dels)
            } else if name == ascii("RPUSH"@) {
                post_push(ms, m0, q0, now, true, step, dels, m1, q1)
            } else if name == ascii("LPUSH"@) {
                post_push(ms, m0, q0, now, false, step, dels, m1, q1)
            } else if name == ascii("LRANGE"@) {
                post_lrange(ms, m0, now, step, m1) && quiet(q0, q1, dels)
            } else if name == ascii("LLEN"@) {
                post_llen(ms, m0, now, step, m1) && quiet(q0, q1, dels)
            } else if name == ascii("LPOP"@) {
                post_lpop(ms, m0, now, step, m1) && quiet(q0, q1, dels)
            } else if name == ascii("BLPOP"@) {
                post_blpop(ms, m0, q0, now, step, dels, m1, q1)
            } else if name == ascii("TYPE"@) {
                post_type(ms, m0, now, step, m1) && quiet(q0, q1, dels)
            } else if name == ascii("XADD"@) {
                post_xadd(ms, m0, now, step, m1) && quiet(q0, q1, dels)
            } else if name == ascii("XRANGE"@) {
                post_xrange(ms, m0, now, step, m1) && quiet(q0, q1, dels)
            } else if name == ascii("XREAD"@) {
                post_xread(ms, m0, now, step, m1) && quiet(q0, q1, dels)
            } else {
                replied(
                    step,
                    error_reply(
                        ascii("ERR unknown command: '"@) + name + ascii("'"@),
                    ),
                ) && m1 == m0 && quiet(q0, q1, dels)
            }
        },
        _ => replied(step, error_reply(ascii("ERR Invalid command format"@))) && m1 == m0 && quiet(
            q0,
            q1,
            dels,
        ),
    }
}

/// `find_byte` names the first position of `t`, and `None` exactly when
/// `t` stands nowhere.
pub proof fn lemma_find_byte(s: Seq<u8>, t: u8)
    ensures
        match find_byte(s, t) {
            Some(i) => 0 <= i < s.len() && s[i] == t && (forall|j: int| 0 <= j < i ==> s[j] != t),
            None => forall|j: int| 0 <= j < s.len() ==> s[j] != t,
        },
    decreases s.len(),
{
    if s.len() > 0 && s[0] != t {
        lemma_find_byte(s.drop_first(), t);
        assert(forall|j: int| 1 <= j < s.len() ==> s[j] == s.drop_first()[j - 1]);
    }
}

/// A first-and-only position of `t` determines `find_byte`.
pub proof fn lemma_find_byte_is(s: Seq<u8>, t: u8, i: int)
    requires
        0 <= i < s.len(),
        s[i] == t,
        forall|j: int| 0 <= j < i ==> s[j] != t,
    ensures
        find_byte(s, t) == Some(i),
{
    lemma_find_byte(s, t);
    match find_byte(s, t) {
        Some(m) => {
            if m < i {
                assert(s[m] != t);
            } else if i < m {
                assert(s[i] != t);
            }
        },
        None => {
            assert(s[i] != t);
        },
    }
}

/// Scans for the first position of `t` in `b`.
#[verifier::loop_isolation(false)]
pub fn find_byte_in(b: &Vec<u8>, t: u8) -> (r: Option<usize>)
    ensures
        match r {
            Some(i) => find_byte(b@, t) == Some(i as int) && i < b@.len(),
            None => find_byte(b@, t) is None,
        },
{
    let mut i: usize = 0;
    while i < b.len()
        invariant
            i <= b@.len(),
            forall|j: int| 0 <= j < i ==> b@[j] != t,
        decreases b@.len() - i,
    {
        if b[i] == t {
            proof {
                lemma_find_byte_is(b@, t, i as int);
            }
            return Some(i);
        }
        i += 1;
    }
    proof {
        lemma_find_byte(b@, t);
        if find_byte(b@, t) is Some {
            let m = find_byte(b@, t)->Some_0;
            assert(b@[m] != t);
        }
    }
    None
}

/// Reads a stream id's textual form.
pub fn parse_stream_id_bytes(b: &Vec<u8>) -> (r: Option<(u64, u64)>)
    ensures
        r == parse_stream_id(b@),
{
    let n = b.len();
    match find_byte_in(b, 45) {
        None => None,
        Some(i) => {
            if 1 <= i && i < n - 1 {
                let a = parse_u64_bytes(b, 0, i);
                let c = parse_u64_bytes(b, i + 1, n);
                match (a, c) {
                    (Some(a), Some(c)) => Some((a, c)),
                    _ => None,
                }
            } else {
                None
            }
        },
    }
}

/// Reads a blocking-pop timeout's textual form as milliseconds.
pub fn parse_timeout_bytes(b: &Vec<u8>) -> (r: Option<u64>)
    ensures
        r == parse_timeout_ms(b@),
{
    let n = b.len();
    match find_byte_in(b, 46) {
        None => {
            proof {
                assert(b@.subrange(0, b@.len() as int) =~= b@);
            }
            match parse_u64_bytes(b, 0, b.len()) {
                Some(secs) => {
                    if b.len() >= 1 && secs <= u64::MAX / 1000 {
                        proof {
                            vstd::arithmetic::div_mod::lemma_fundamental_div_mod(
                                u64::MAX as int,
                                1000,
                            );
                        }
                        Some(secs * 1000)
                    } else {
                        None
                    }
                },
                None => None,
            }
        },
        Some(i) => {
            if 1 <= i && i < n - 1 {
                let secs = parse_u64_bytes(b, 0, i);
                let fr = parse_u64_bytes(b, i + 1, n);
                match (secs, fr) {
                    (Some(secs), Some(_)) => {
                        if secs <= u64::MAX / 1000 - 1 {
                            proof {
                                vstd::arithmetic::div_mod::lemma_fundamental_div_mod(
                                    u64::MAX as int,
                                    1000,
                                );
                                let frac = b@.subrange(i as int + 1, b@.len() as int);
                                assert(frac[0] == b@[i as int + 1]);
                                if frac.len() >= 2 {
                                    assert(frac[1] == b@[i as int + 2]);
                                }
                                if frac.len() >= 3 {
                                    assert(frac[2] == b@[i as int + 3]);
                                }
                                crate::codec_laws::lemma_digits_of_parse(frac);
                            }
                            let d0 = ((b[i + 1] - 48) as u64) * 100;
                            let d1: u64 = if n - i > 2 {
                                ((b[i + 2] - 48) as u64) * 10
                            } else {
                                0
                            };
                            let d2: u64 = if n - i > 3 {
                                (b[i + 3] - 48) as u64
                            } else {
                                0
                            };
                            Some(secs * 1000 + (d0 + d1 + d2))
                        } else {
                            None
                        }
                    },
                    _ => None,
                }
            } else {
                None
            }
        },
    }
}

/// The textual form of a stream id.
pub fn id_text_bytes(id: (u64, u64)) -> (r: Vec<u8>)
    ensures
        r@ == id_text(id),
{
    let mut out: Vec<u8> = Vec::new();
    crate::resp::push_dec(id.0, &mut out);
    out.push(45u8);
    crate::resp::push_dec(id.1, &mut out);
    proof {
        assert(out@ =~= id_text(id));
    }
    out
}

/// The frame of one stream record.
#[verifier::loop_isolation(false)]
pub fn entry_value(e: &StreamEntry) -> (r: RespValue)
    ensures
        resp_model(r) == entry_frame(crate::storage::entry_model(*e)),
{
    let ghost gfields = pairs_model(e.fields@);
    let mut flat: Vec<RespValue> = Vec::new();
    let mut i: usize = 0;
    proof {
        crate::resp::lemma_models_of(flat@);
        assert(models_of(flat@) =~= bulk_frames(flat_fields(gfields.take(0))));
    }
    while i < e.fields.len()
        invariant
            i <= e.fields@.len(),
            flat@.len() == 2 * i,
            models_of(flat@) =~= bulk_frames(flat_fields(gfields.take(i as int))),
        decreases e.fields@.len() - i,
    {
        let ghost pre = flat@;
        let p = &e.fields[i];
        flat.push(RespValue::BulkString(Some(vstd::slice::slice_to_vec(p.0.as_slice()))));
        flat.push(RespValue::BulkString(Some(vstd::slice::slice_to_vec(p.1.as_slice()))));
        proof {
            crate::resp::lemma_models_of(pre);
            crate::resp::lemma_models_of(flat@);
            assert forall|j: int| 0 <= j < flat@.len() implies #[trigger] models_of(flat@)[j]
                == bulk_frames(flat_fields(gfields.take(i as int + 1)))[j] by {
                if j < 2 * i {
                    assert(flat@[j] == pre[j]);
                    assert(models_of(pre)[j] == resp_model(pre[j]));
                    assert(models_of(pre)[j] == bulk_frames(flat_fields(gfields.take(i as int)))[j]);
                    assert(flat_fields(gfields.take(i as int))[j] == flat_fields(
                        gfields.take(i as int + 1),
                    )[j]);
                } else if j == 2 * i {
                    assert(flat@[j] == pre.push(flat@[2 * i as int]).push(flat@[2 * i as int + 1])[j]);
                } else {
                }
            }
            assert(models_of(flat@) =~= bulk_frames(flat_fields(gfields.take(i as int + 1))));
        }
        i += 1;
    }
    proof {
        assert(gfields.take(e.fields@.len() as int) =~= gfields);
    }
    let idb = id_text_bytes((e.ms, e.seq));
    let mut items: Vec<RespValue> = Vec::new();
    items.push(RespValue::BulkString(Some(idb)));
    items.push(RespValue::Array(Some(flat)));
    let r = RespValue::Array(Some(items));
    proof {
        crate::resp::lemma_models_of(items@);
        assert(models_of(items@) =~= seq![
            RespModel::Bulk(Some(id_text((e.ms, e.seq)))),
            RespModel::Arr(Some(bulk_frames(flat_fields(gfields)))),
        ]);
    }
    r
}

/// The array frame of a run of stream records.
#[verifier::loop_isolation(false)]
pub fn entries_value(es: &Vec<StreamEntry>) -> (r: RespValue)
    ensures
        resp_model(r) == RespModel::Arr(
            Some(entry_frames(crate::storage::entries_model(es@))),
        ),
{
    let ghost ges = crate::storage::entries_model(es@);
    let mut frames: Vec<RespValue> = Vec::new();
    let mut i: usize = 0;
    proof {
        crate::resp::lemma_models_of(frames@);
        assert(models_of(frames@) =~= entry_frames(ges.take(0)));
    }
    while i < es.len()
        invariant
            i <= es@.len(),
            models_of(frames@) =~= entry_frames(ges.take(i as int)),
        decreases es@.len() - i,
    {
        let ghost pre = frames@;
        frames.push(entry_value(&es[i]));
        proof {
            crate::resp::lemma_models_of(pre);
            crate::resp::lemma_models_of(frames@);
            assert forall|j: int| 0 <= j < frames@.len() implies #[trigger] models_of(frames@)[j]
                == entry_frames(ges.take(i as int + 1))[j] by {
                if j < i {
                    assert(frames@[j] == pre[j]);
                    assert(models_of(pre)[j] == resp_model(pre[j]));
                    assert(models_of(pre)[j] == entry_frames(ges.take(i as int))[j]);
                }
            }
            assert(models_of(frames@) =~= entry_frames(ges.take(i as int + 1)));
        }
        i += 1;
    }
    proof {
        assert(ges.take(es@.len() as int) =~= ges);
    }
    RespValue::Array(Some(frames))
}

/// Builds the reply of a range read: the records as an array.
pub fn reply_entries(es: &Vec<StreamEntry>) -> (r: Vec<u8>)
    ensures
        r@ == entries_reply(crate::storage::entries_model(es@)),
{
    let v = entries_value(es);
    crate::resp::encode(&v)
}

/// Builds the reply of a stream read: one `[name, records]` pair per
/// stream.
#[verifier::loop_isolation(false)]
pub fn reply_xread(pairs: &Vec<(Vec<u8>, Vec<StreamEntry>)>) -> (r: Vec<u8>)
    ensures
        r@ == xread_reply(crate::storage::xread_model(pairs@)),
{
    let ghost gp = crate::storage::xread_model(pairs@);
    let ghost target = gp.map_values(
        |p: (Seq<u8>, Seq<EntryModel>)|
            RespModel::Arr(
                Some(
                    seq![RespModel::Bulk(Some(p.0)), RespModel::Arr(Some(entry_frames(p.1)))],
                ),
            ),
    );
    let mut frames: Vec<RespValue> = Vec::new();
    let mut i: usize = 0;
    proof {
        crate::resp::lemma_models_of(frames@);
        assert(models_of(frames@) =~= target.take(0));
    }
    while i < pairs.len()
        invariant
            i <= pairs@.len(),
            models_of(frames@) =~= target.take(i as int),
        decreases pairs@.len() - i,
    {
        let ghost pre = frames@;
        let name = vstd::slice::slice_to_vec(pairs[i].0.as_slice());
        let ev = entries_value(&pairs[i].1);
        let mut items: Vec<RespValue> = Vec::new();
        items.push(RespValue::BulkString(Some(name)));
        items.push(ev);
        proof {
            crate::resp::lemma_models_of(items@);
        }
        frames.push(RespValue::Array(Some(items)));
        proof {
            crate::resp::lemma_models_of(pre);
            crate::resp::lemma_models_of(frames@);
            assert(models_of(items@) =~= seq![
                RespModel::Bulk(Some(pairs@[i as int].0@)),
                RespModel::Arr(
                    Some(entry_frames(crate::storage::entries_model(pairs@[i as int].1@))),
                ),
            ]);
            assert forall|j: int| 0 <= j < frames@.len() implies #[trigger] models_of(frames@)[j]
                == target.take(i as int + 1)[j] by {
                if j < i {
                    assert(frames@[j] == pre[j]);
                    assert(models_of(pre)[j] == resp_model(pre[j]));
                    assert(models_of(pre)[j] == target.take(i as int)[j]);
                }
            }
            assert(models_of(frames@) =~= target.take(i as int + 1));
        }
        i += 1;
    }
    proof {
        assert(target.take(pairs@.len() as int) =~= target);
    }
    crate::resp::encode(&RespValue::Array(Some(frames)))
}

/// Carries out an ECHO.
fn handle_echo(es: &Vec<RespValue>) -> (r: Step)
    requires
        es@.len() >= 1,
    ensures
        post_echo(models_of(es@), r),
{
    proof {
        crate::resp::lemma_models_of(es@);
    }
    if es.len() < 2 {
        proof {
            reveal_strlit("echo");
        }
        return Step::Reply(err_argcount("echo"));
    }
    match extract_bytes(&es[1]) {
        Some(msg) => Step::Reply(reply_bulk(msg)),
        None => {
            proof {
                reveal_strlit("ERR invalid argument type");
            }
            Step::Reply(reply_error(lit_bytes("ERR invalid argument type")))
        },
    }
}

/// Builds the invalid-key-type refusal.
fn err_invalid_key() -> (r: Vec<u8>)
    ensures
        r@ == error_reply(ascii("ERR Invalid key type"@)),
{
    proof {
        reveal_strlit("ERR Invalid key type");
    }
    reply_error(lit_bytes("ERR Invalid key type"))
}

/// Builds the not-an-integer refusal.
fn err_not_integer() -> (r: Vec<u8>)
    ensures
        r@ == error_reply(ascii("ERR value is not an integer or out of range"@)),
{
    proof {
        reveal_strlit("ERR value is not an integer or out of range");
    }
    reply_error(lit_bytes("ERR value is not an integer or out of range"))
}

/// Carries out a SET.
#[verifier::rlimit(50)]
fn handle_set(es: &Vec<RespValue>, storage: &mut Storage, now: u64) -> (r: Step)
    requires
        es@.len() >= 1,
        old(storage).wf(),
    ensures
        final(storage).wf(),
        post_set(models_of(es@), old(storage)@, now, r, final(storage)@),
{
    proof {
        crate::resp::lemma_models_of(es@);
    }
    if es.len() < 3 {
        proof {
            reveal_strlit("SET");
        }
        return Step::Reply(err_argcount("SET"));
    }
    let key = match extract_bytes(&es[1]) {
        Some(k) => k,
        None => {
            return Step::Reply(err_invalid_key());
        },
    };
    let value = match extract_bytes(&es[2]) {
        Some(v) => v,
        None => {
            proof {
                reveal_strlit("ERR Invalid value type");
            }
            return Step::Reply(reply_error(lit_bytes("ERR Invalid value type")));
        },
    };
    if es.len() == 3 {
        storage.set(key, value);
        proof {
            reveal_strlit("OK");
        }
        return Step::Reply(reply_simple(lit_bytes("OK")));
    }
    if es.len() == 5 {
        let opt = extract_command_name(&es[3]);
        proof {
            reveal_strlit("EX");
            reveal_strlit("PX");
        }
        let ex_lit = lit_bytes("EX");
        let px_lit = lit_bytes("PX");
        let is_ex = crate::storage::bytes_eq(opt.as_slice(), ex_lit.as_slice());
        let is_px = crate::storage::bytes_eq(opt.as_slice(), px_lit.as_slice());
        if is_ex || is_px {
            match extract_integer_from_resp_value(&es[4]) {
                Some(d) => {
                    if d > 0 {
                        if is_ex {
                            storage.set_ex(key, value, d as u64, now);
                        } else {
                            storage.set_px(key, value, d as u64, now);
                        }
                        proof {
                            reveal_strlit("OK");
                        }
                        Step::Reply(reply_simple(lit_bytes("OK")))
                    } else {
                        proof {
                            reveal_strlit("ERR invalid expire time in 'SET' command");
                        }
                        Step::Reply(
                            reply_error(lit_bytes("ERR invalid expire time in 'SET' command")),
                        )
                    }
                },
                None => {
                    proof {
                        reveal_strlit("ERR invalid expire time in 'SET' command");
                    }
                    Step::Reply(
                        reply_error(lit_bytes("ERR invalid expire time in 'SET' command")),
                    )
                },
            }
        } else {
            proof {
                reveal_strlit("ERR syntax error");
            }
            Step::Reply(reply_error(lit_bytes("ERR syntax error")))
        }
    } else {
        proof {
            reveal_strlit("ERR syntax error");
        }
        Step::Reply(reply_error(lit_bytes("ERR syntax error")))
    }
}

/// Carries out a GET.
fn handle_get(es: &Vec<RespValue>, storage: &mut Storage, now: u64) -> (r: Step)
    requires
        es@.len() >= 1,
        old(storage).wf(),
    ensures
        final(storage).wf(),
        post_get(models_of(es@), old(storage)@, now, r, final(storage)@),
{
    proof {
        crate::resp::lemma_models_of(es@);
    }
    if es.len() < 2 {
        proof {
            reveal_strlit("GET");
        }
        return Step::Reply(err_argcount("GET"));
    }
    let key = match extract_bytes(&es[1]) {
        Some(k) => k,
        None => {
            return Step::Reply(err_invalid_key());
        },
    };
    match storage.get(key.as_slice(), now) {
        Ok(Some(v)) => Step::Reply(reply_bulk(v)),
        Ok(None) => Step::Reply(reply_null_bulk()),
        Err(_) => Step::Reply(err_wrongtype()),
    }
}

/// Carries out an RPUSH or LPUSH together with the wakeups it owes.
fn handle_push(
    es: &Vec<RespValue>,
    storage: &mut Storage,
    waiters: &mut WaiterQueue,
    now: u64,
    at_right: bool,
) -> (r: (Step, Vec<Delivery>))
    requires
        es@.len() >= 1,
        old(storage).wf(),
        old(waiters).wf(),
    ensures
        final(storage).wf(),
        final(waiters).wf(),
        post_push(
            models_of(es@),
            old(storage)@,
            old(waiters)@,
            now,
            at_right,
            r.0,
            deliveries_model(r.1@),
            final(storage)@,
            final(waiters)@,
        ),
{
    proof {
        crate::resp::lemma_models_of(es@);
    }
    if es.len() < 3 {
        let msg = if at_right {
            proof {
                reveal_strlit("RPUSH");
            }
            err_argcount("RPUSH")
        } else {
            proof {
                reveal_strlit("LPUSH");
            }
            err_argcount("LPUSH")
        };
        return (Step::Reply(msg), Vec::new());
    }
    let key = match extract_bytes(&es[1]) {
        Some(k) => k,
        None => {
            return (Step::Reply(err_invalid_key()), Vec::new());
        },
    };
    let values = match collect_args(es, 2, es.len()) {
        Some(vs) => vs,
        None => {
            return (Step::Reply(err_invalid_key()), Vec::new());
        },
    };
    let (pushed, dels) = crate::waiters::push_and_wake(storage, waiters, key, values, at_right, now);
    match pushed {
        Ok(n) => (Step::Reply(reply_int(#[verifier::truncate] (n as i64))), dels),
        Err(_) => (Step::Reply(err_wrongtype()), dels),
    }
}

/// Carries out an LRANGE.
fn handle_lrange(es: &Vec<RespValue>, storage: &mut Storage, now: u64) -> (r: Step)
    requires
        es@.len() >= 1,
        old(storage).wf(),
    ensures
        final(storage).wf(),
        post_lrange(models_of(es@), old(storage)@, now, r, final(storage)@),
{
    proof {
        crate::resp::lemma_models_of(es@);
    }
    if es.len() != 4 {
        proof {
            reveal_strlit("LRANGE");
        }
        return Step::Reply(err_argcount("LRANGE"));
    }
    let key = match extract_bytes(&es[1]) {
        Some(k) => k,
        None => {
            return Step::Reply(err_invalid_key());
        },
    };
    let start = extract_integer_from_resp_value(&es[2]);
    let end = extract_integer_from_resp_value(&es[3]);
    match (start, end) {
        (Some(start), Some(end)) => {
            match storage.lrange(key.as_slice(), start, end, now) {
                Ok(v) => {
                    proof {
                        if live(old(storage)@, key@, now) is None {
                            assert(v@.map_values(|b: Vec<u8>| b@) =~= Seq::<Seq<u8>>::empty());
                        } else {
                            assert(v@.map_values(|b: Vec<u8>| b@) =~= crate::storage::list_model(
                                v@,
                            ));
                        }
                    }
                    Step::Reply(reply_bulk_array(&v))
                },
                Err(_) => Step::Reply(err_wrongtype()),
            }
        },
        _ => Step::Reply(err_not_integer()),
    }
}

/// Carries out an LLEN.
fn handle_llen(es: &Vec<RespValue>, storage: &mut Storage, now: u64) -> (r: Step)
    requires
        es@.len() >= 1,
        old(storage).wf(),
    ensures
        final(storage).wf(),
        post_llen(models_of(es@), old(storage)@, now, r, final(storage)@),
{
    proof {
        crate::resp::lemma_models_of(es@);
    }
    if es.len() != 2 {
        proof {
            reveal_strlit("LLEN");
        }
        return Step::Reply(err_argcount("LLEN"));
    }
    let key = match extract_bytes(&es[1]) {
        Some(k) => k,
        None => {
            return Step::Reply(err_invalid_key());
        },
    };
    match storage.llen(key.as_slice(), now) {
        Ok(n) => Step::Reply(reply_int(#[verifier::truncate] (n as i64))),
        Err(_) => Step::Reply(err_wrongtype()),
    }
}

/// Carries out an LPOP, with or without a count.
fn handle_lpop(es: &Vec<RespValue>, storage: &mut Storage, now: u64) -> (r: Step)
    requires
        es@.len() >= 1,
        old(storage).wf(),
    ensures
        final(storage).wf(),
        post_lpop(models_of(es@), old(storage)@, now, r, final(storage)@),
{
    proof {
        crate::resp::lemma_models_of(es@);
    }
    if es.len() != 2 && es.len() != 3 {
        proof {
            reveal_strlit("LPOP");
        }
        return Step::Reply(err_argcount("LPOP"));
    }
    let key = match extract_bytes(&es[1]) {
        Some(k) => k,
        None => {
            return Step::Reply(err_invalid_key());
        },
    };
    if es.len() == 2 {
        match storage.lpop(key.as_slice(), now) {
            Ok(Some(v)) => Step::Reply(reply_bulk(v)),
            Ok(None) => Step::Reply(reply_null_bulk()),
            Err(_) => Step::Reply(err_wrongtype()),
        }
    } else {
        match extract_integer_from_resp_value(&es[2]) {
            Some(c) => {
                if c < 0 {
                    return Step::Reply(err_not_integer());
                }
                let cu: usize = if c as u64 >= usize::MAX as u64 {
                    usize::MAX
                } else {
                    c as usize
                };
                match storage.lpop_count(key.as_slice(), cu, now) {
                    Ok(Some(vs)) => {
                        proof {
                            assert(vs@.map_values(|b: Vec<u8>| b@) =~= crate::storage::list_model(
                                vs@,
                            ));
                        }
                        Step::Reply(reply_bulk_array(&vs))
                    },
                    Ok(None) => Step::Reply(reply_null_bulk()),
                    Err(_) => Step::Reply(err_wrongtype()),
                }
            },
            None => Step::Reply(err_not_integer()),
        }
    }
}

/// Carries out a TYPE.
fn handle_type(es: &Vec<RespValue>, storage: &Storage, now: u64) -> (r: Step)
    requires
        es@.len() >= 1,
        storage.wf(),
    ensures
        post_type(models_of(es@), storage@, now, r, storage@),
{
    proof {
        crate::resp::lemma_models_of(es@);
    }
    if es.len() != 2 {
        proof {
            reveal_strlit("TYPE");
        }
        return Step::Reply(err_argcount("TYPE"));
    }
    let key = match extract_bytes(&es[1]) {
        Some(k) => k,
        None => {
            return Step::Reply(err_invalid_key());
        },
    };
    proof {
        reveal_strlit("none");
        reveal_strlit("string");
        reveal_strlit("list");
        reveal_strlit("stream");
    }
    match storage.type_of(key.as_slice(), now) {
        crate::storage::ValueKind::Missing => Step::Reply(reply_simple(lit_bytes("none"))),
        crate::storage::ValueKind::Str => Step::Reply(reply_simple(lit_bytes("string"))),
        crate::storage::ValueKind::List => Step::Reply(reply_simple(lit_bytes("list"))),
        crate::storage::ValueKind::Stream => Step::Reply(reply_simple(lit_bytes("stream"))),
    }
}

/// Carries out a BLPOP: an immediate pop where a list is ready, a parked
/// waiter otherwise.
fn handle_blpop(
    es: &Vec<RespValue>,
    storage: &mut Storage,
    waiters: &mut WaiterQueue,
    now: u64,
) -> (r: Step)
    requires
        es@.len() >= 1,
        old(storage).wf(),
        old(waiters).wf(),
    ensures
        final(storage).wf(),
        final(waiters).wf(),
        post_blpop(
            models_of(es@),
            old(storage)@,
            old(waiters)@,
            now,
            r,
            Seq::empty(),
            final(storage)@,
            final(waiters)@,
        ),
{
    proof {
        crate::resp::lemma_models_of(es@);
    }
    if es.len() < 3 {
        proof {
            reveal_strlit("BLPOP");
        }
        return Step::Reply(err_argcount("BLPOP"));
    }
    let keys = match collect_args(es, 1, es.len() - 1) {
        Some(ks) => ks,
        None => {
            return Step::Reply(err_invalid_key());
        },
    };
    let t_ms: u64 = {
        let last = &es[es.len() - 1];
        let parsed: Option<u64> = match extract_bytes(last) {
            Some(t) => parse_timeout_bytes(&t),
            None => match last {
                RespValue::Integer(i) => {
                    let i = *i;
                    if 0 <= i && i as u64 <= u64::MAX / 1000 {
                        proof {
                            vstd::arithmetic::div_mod::lemma_fundamental_div_mod(
                                u64::MAX as int,
                                1000,
                            );
                        }
                        Some((i as u64) * 1000)
                    } else {
                        None
                    }
                },
                _ => None,
            },
        };
        match parsed {
            Some(t) => t,
            None => {
                proof {
                    reveal_strlit("ERR timeout is not a float or out of range");
                }
                return Step::Reply(
                    reply_error(lit_bytes("ERR timeout is not a float or out of range")),
                );
            },
        }
    };
    match crate::waiters::blpop_try(storage, &keys, now) {
        Err(_) => Step::Reply(err_wrongtype()),
        Ok(Some((k, v))) => {
            let mut pair: Vec<Vec<u8>> = Vec::new();
            pair.push(k);
            pair.push(v);
            proof {
                assert(pair@.map_values(|b: Vec<u8>| b@) =~= seq![pair@[0]@, pair@[1]@]);
            }
            Step::Reply(reply_bulk_array(&pair))
        },
        Ok(None) => {
            if waiters.capacity_left() {
                let deadline: Option<u64> = if t_ms == 0 {
                    None
                } else if now > u64::MAX - t_ms {
                    Some(u64::MAX)
                } else {
                    Some(now + t_ms)
                };
                let id = waiters.enqueue(keys, deadline);
                Step::Block(id, deadline)
            } else {
                proof {
                    reveal_strlit("ERR too many blocked clients");
                }
                Step::Reply(reply_error(lit_bytes("ERR too many blocked clients")))
            }
        },
    }
}

/// Builds the malformed-stream-id refusal.
fn err_bad_stream_id() -> (r: Vec<u8>)
    ensures
        r@ == error_reply(ascii("ERR Invalid stream ID specified as stream command argument"@)),
{
    proof {
        reveal_strlit("ERR Invalid stream ID specified as stream command argument");
    }
    reply_error(lit_bytes("ERR Invalid stream ID specified as stream command argument"))
}

/// Carries out an XADD.
#[verifier::loop_isolation(false)]
fn handle_xadd(es: &Vec<RespValue>, storage: &mut Storage, now: u64) -> (r: Step)
    requires
        es@.len() >= 1,
        old(storage).wf(),
    ensures
        final(storage).wf(),
        post_xadd(models_of(es@), old(storage)@, now, r, final(storage)@),
{
    proof {
        crate::resp::lemma_models_of(es@);
    }
    if es.len() < 5 || (es.len() - 3) % 2 != 0 {
        proof {
            reveal_strlit("XADD");
        }
        return Step::Reply(err_argcount("XADD"));
    }
    let key = match extract_bytes(&es[1]) {
        Some(k) => k,
        None => {
            return Step::Reply(err_invalid_key());
        },
    };
    let idtok = match extract_bytes(&es[2]) {
        Some(t) => t,
        None => {
            return Step::Reply(err_invalid_key());
        },
    };
    let flat = match collect_args(es, 3, es.len()) {
        Some(f) => f,
        None => {
            return Step::Reply(err_invalid_key());
        },
    };
    proof {
        reveal_strlit("*");
    }
    let star = lit_bytes("*");
    let id: crate::storage::IdSpec = if crate::storage::bytes_eq(
        idtok.as_slice(),
        star.as_slice(),
    ) {
        crate::storage::IdSpec::Auto
    } else {
        match parse_stream_id_bytes(&idtok) {
            Some(p) => crate::storage::IdSpec::Explicit(p.0, p.1),
            None => {
                return Step::Reply(err_bad_stream_id());
            },
        }
    };
    let ghost gflat = flat@.map_values(|b: Vec<u8>| b@);
    let mut fields: Vec<(Vec<u8>, Vec<u8>)> = Vec::new();
    let half = flat.len() / 2;
    let mut i: usize = 0;
    proof {
        assert(pairs_model(fields@) =~= pairs_of(gflat).take(0));
    }
    while i < half
        invariant
            i <= half,
            half == flat@.len() / 2,
            gflat == flat@.map_values(|b: Vec<u8>| b@),
            pairs_model(fields@) =~= pairs_of(gflat).take(i as int),
        decreases half - i,
    {
        let f = vstd::slice::slice_to_vec(flat[2 * i].as_slice());
        let v = vstd::slice::slice_to_vec(flat[2 * i + 1].as_slice());
        fields.push((f, v));
        proof {
            assert(pairs_model(fields@) =~= pairs_of(gflat).take(i as int + 1));
        }
        i += 1;
    }
    proof {
        assert(pairs_of(gflat).take(pairs_of(gflat).len() as int) =~= pairs_of(gflat));
        assert(pairs_model(fields@) =~= pairs_of(gflat));
    }
    match storage.xadd(key, id, fields, now) {
        Ok(rid) => Step::Reply(reply_bulk(id_text_bytes(rid))),
        Err(crate::storage::StoreError::WrongType) => Step::Reply(err_wrongtype()),
        Err(crate::storage::StoreError::IdZero) => {
            proof {
                reveal_strlit("ERR The ID specified in XADD must be greater than 0-0");
            }
            Step::Reply(
                reply_error(lit_bytes("ERR The ID specified in XADD must be greater than 0-0")),
            )
        },
        Err(crate::storage::StoreError::IdNotGreater) => {
            proof {
                reveal_strlit(
                    "ERR The ID specified in XADD is equal or smaller than the target stream top item",
                );
            }
            Step::Reply(
                reply_error(
                    lit_bytes(
                        "ERR The ID specified in XADD is equal or smaller than the target stream top item",
                    ),
                ),
            )
        },
    }
}

/// Carries out an XRANGE.
fn handle_xrange(es: &Vec<RespValue>, storage: &mut Storage, now: u64) -> (r: Step)
    requires
        es@.len() >= 1,
        old(storage).wf(),
    ensures
        final(storage).wf(),
        post_xrange(models_of(es@), old(storage)@, now, r, final(storage)@),
{
    proof {
        crate::resp::lemma_models_of(es@);
    }
    if es.len() != 4 {
        proof {
            reveal_strlit("XRANGE");
        }
        return Step::Reply(err_argcount("XRANGE"));
    }
    let key = match extract_bytes(&es[1]) {
        Some(k) => k,
        None => {
            return Step::Reply(err_invalid_key());
        },
    };
    let s_tok = match extract_bytes(&es[2]) {
        Some(t) => t,
        None => {
            return Step::Reply(err_invalid_key());
        },
    };
    let e_tok = match extract_bytes(&es[3]) {
        Some(t) => t,
        None => {
            return Step::Reply(err_invalid_key());
        },
    };
    let sid = parse_stream_id_bytes(&s_tok);
    let eid = parse_stream_id_bytes(&e_tok);
    match (sid, eid) {
        (Some(sid), Some(eid)) => {
            match storage.xrange(key.as_slice(), sid, eid, now) {
                Ok(entries) => Step::Reply(reply_entries(&entries)),
                Err(_) => Step::Reply(err_wrongtype()),
            }
        },
        _ => Step::Reply(err_bad_stream_id()),
    }
}

/// Carries out an XREAD.
#[verifier::loop_isolation(false)]
fn handle_xread(es: &Vec<RespValue>, storage: &Storage, now: u64) -> (r: Step)
    requires
        es@.len() >= 1,
        storage.wf(),
    ensures
        post_xread(models_of(es@), storage@, now, r, storage@),
{
    proof {
        crate::resp::lemma_models_of(es@);
    }
    if es.len() < 4 || (es.len() - 2) % 2 != 0 {
        proof {
            reveal_strlit("XREAD");
        }
        return Step::Reply(err_argcount("XREAD"));
    }
    let word = extract_command_name(&es[1]);
    proof {
        reveal_strlit("STREAMS");
    }
    let streams_lit = lit_bytes("STREAMS");
    if !crate::storage::bytes_eq(word.as_slice(), streams_lit.as_slice()) {
        proof {
            reveal_strlit("ERR syntax error");
        }
        return Step::Reply(reply_error(lit_bytes("ERR syntax error")));
    }
    let half = (es.len() - 2) / 2;
    let keys = match collect_args(es, 2, 2 + half) {
        Some(ks) => ks,
        None => {
            return Step::Reply(err_invalid_key());
        },
    };
    let toks = match collect_args(es, 2 + half, es.len()) {
        Some(ts) => ts,
        None => {
            return Step::Reply(err_invalid_key());
        },
    };
    let ghost gtoks = toks@.map_values(|b: Vec<u8>| b@);
    let mut ids: Vec<(u64, u64)> = Vec::new();
    let mut j: usize = 0;
    proof {
        assert(gtoks.skip(0) =~= gtoks);
        if ids_of(gtoks) is Some {
            assert(ids@ + ids_of(gtoks)->Some_0 =~= ids_of(gtoks)->Some_0);
        }
    }
    while j < toks.len()
        invariant
            j <= toks@.len(),
            ids@.len() == j,
            gtoks == toks@.map_values(|b: Vec<u8>| b@),
            ids_of(gtoks) == match ids_of(gtoks.skip(j as int)) {
                Some(rest) => Some(ids@ + rest),
                None => None::<Seq<(u64, u64)>>,
            },
        decreases toks@.len() - j,
    {
        proof {
            assert(gtoks.skip(j as int)[0] == toks@[j as int]@);
            assert(gtoks.skip(j as int).drop_first() =~= gtoks.skip(j as int + 1));
        }
        match parse_stream_id_bytes(&toks[j]) {
            Some(id) => {
                let ghost ids0 = ids@;
                ids.push(id);
                proof {
                    if ids_of(gtoks.skip(j as int + 1)) is Some {
                        let rest = ids_of(gtoks.skip(j as int + 1))->Some_0;
                        assert(ids@ + rest =~= ids0 + (seq![id] + rest));
                    }
                }
            },
            None => {
                return Step::Reply(err_bad_stream_id());
            },
        }
        j += 1;
    }
    proof {
        assert(gtoks.skip(toks@.len() as int) =~= Seq::<Seq<u8>>::empty());
        if ids_of(Seq::<Seq<u8>>::empty()) is Some {
            assert(ids@ + Seq::<(u64, u64)>::empty() =~= ids@);
        }
    }
    match storage.xread(&keys, &ids, now) {
        Ok(pairs) => Step::Reply(reply_xread(&pairs)),
        Err(_) => Step::Reply(err_wrongtype()),
    }
}

/// Builds the reply a delivery unblocks a parked consumer with: the
/// two-element array of the list key and the element.
pub fn blpop_delivery_reply(d: &Delivery) -> (r: Vec<u8>)
    ensures
        r@ == bulk_array_reply(seq![d.key@, d.value@]),
{
    let mut pair: Vec<Vec<u8>> = Vec::new();
    pair.push(vstd::slice::slice_to_vec(d.key.as_slice()));
    pair.push(vstd::slice::slice_to_vec(d.value.as_slice()));
    proof {
        assert(pair@.map_values(|b: Vec<u8>| b@) =~= seq![d.key@, d.value@]);
    }
    reply_bulk_array(&pair)
}

/// Builds the malformed-frame refusal.
fn err_bad_format() -> (r: Vec<u8>)
    ensures
        r@ == error_reply(ascii("ERR Invalid command format"@)),
{
    proof {
        reveal_strlit("ERR Invalid command format");
    }
    reply_error(lit_bytes("ERR Invalid command format"))
}

/// Dispatches one decoded frame: the reply to write — or the decision to
/// park the connection as a blocking-pop waiter — and the deliveries the
/// command owes to parked consumers, exactly as `dispatch_post` states.
pub fn handle_command(
    value: &RespValue,
    storage: &mut Storage,
    waiters: &mut WaiterQueue,
    now_ms: u64,
) -> (r: (Step, Vec<Delivery>))
    requires
        old(storage).wf(),
        old(waiters).wf(),
    ensures
        final(storage).wf(),
        final(waiters).wf(),
        dispatch_post(
            resp_model(*value),
            old(storage)@,
            old(waiters)@,
            now_ms,
            r.0,
            deliveries_model(r.1@),
            final(storage)@,
            final(waiters)@,
        ),
{
    proof {
        assert(deliveries_model(Seq::<Delivery>::empty()) =~= Seq::<DeliveryModel>::empty());
    }
    match value {
        RespValue::Array(Some(es)) => {
            if es.len() == 0 {
                return (Step::Reply(err_bad_format()), Vec::new());
            }
            proof {
                crate::resp::lemma_models_of(es@);
            }
            let name = extract_command_name(&es[0]);
            proof {
                reveal_strlit("PING");
                reveal_strlit("ECHO");
                reveal_strlit("SET");
                reveal_strlit("GET");
                reveal_strlit("RPUSH");
                reveal_strlit("LPUSH");
                reveal_strlit("LRANGE");
                reveal_strlit("LLEN");
                reveal_strlit("LPOP");
                reveal_strlit("BLPOP");
                reveal_strlit("TYPE");
                reveal_strlit("XADD");
                reveal_strlit("XRANGE");
                reveal_strlit("XREAD");
            }
            if crate::storage::bytes_eq(name.as_slice(), lit_bytes("PING").as_slice()) {
                proof {
                    reveal_strlit("PONG");
                }
                (Step::Reply(reply_simple(lit_bytes("PONG"))), Vec::new())
            } else if crate::storage::bytes_eq(name.as_slice(), lit_bytes("ECHO").as_slice()) {
                (handle_echo(es), Vec::new())
            } else if crate::storage::bytes_eq(name.as_slice(), lit_bytes("SET").as_slice()) {
                (handle_set(es, storage, now_ms), Vec::new())
            } else if crate::storage::bytes_eq(name.as_slice(), lit_bytes("GET").as_slice()) {
                (handle_get(es, storage, now_ms), Vec::new())
            } else if crate::storage::bytes_eq(name.as_slice(), lit_bytes("RPUSH").as_slice()) {
                handle_push(es, storage, waiters, now_ms, true)
            } else if crate::storage::bytes_eq(name.as_slice(), lit_bytes("LPUSH").as_slice()) {
                handle_push(es, storage, waiters, now_ms, false)
            } else if crate::storage::bytes_eq(name.as_slice(), lit_bytes("LRANGE").as_slice()) {
                (handle_lrange(es, storage, now_ms), Vec::new())
            } else if crate::storage::bytes_eq(name.as_slice(), lit_bytes("LLEN").as_slice()) {
                (handle_llen(es, storage, now_ms), Vec::new())
            } else if crate::storage::bytes_eq(name.as_slice(), lit_bytes("LPOP").as_slice()) {
                (handle_lpop(es, storage, now_ms), Vec::new())
            } else if crate::storage::bytes_eq(name.as_slice(), lit_bytes("BLPOP").as_slice()) {
                (handle_blpop(es, storage, waiters, now_ms), Vec::new())
            } else if crate::storage::bytes_eq(name.as_slice(), lit_bytes("TYPE").as_slice()) {
                (handle_type(es, storage, now_ms), Vec::new())
            } else if crate::storage::bytes_eq(name.as_slice(), lit_bytes("XADD").as_slice()) {
                (handle_xadd(es, storage, now_ms), Vec::new())
            } else if crate::storage::bytes_eq(name.as_slice(), lit_bytes("XRANGE").as_slice()) {
                (handle_xrange(es, storage, now_ms), Vec::new())
            } else if crate::storage::bytes_eq(name.as_slice(), lit_bytes("XREAD").as_slice()) {
                (handle_xread(es, storage, now_ms), Vec::new())
            } else {
                proof {
                    reveal_strlit("ERR unknown command: '");
                    reveal_strlit("'");
                }
                let mut msg = lit_bytes("ERR unknown command: '");
                crate::resp::append_bytes(&mut msg, name.as_slice());
                let tick = lit_bytes("'");
                crate::resp::append_bytes(&mut msg, tick.as_slice());
                (Step::Reply(reply_error(msg)), Vec::new())
            }
        },
        _ => (Step::Reply(err_bad_format()), Vec::new()),
    }
}

} // verus!
