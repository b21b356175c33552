//! Laws of the keyspace, the blocking coordinator and the streams.
//!
//! Each proof function here states one guarantee of the library over the
//! same spec functions its operations' contracts use, so the guarantee
//! composes with those contracts at every call site.

use vstd::prelude::*;

use crate::storage::{
    entries_after, entry_id, id_lt, live, range_of, stream_ordered, top_id, xadd_spec, DataModel,
    EntryModel, IdSpec, StoreError, ValueModel,
};
use crate::waiters::{first_match, wake_all, wake_spec, DeliveryModel, WaiterModel};

verus! {

/// A write without a deadline is observed by every later lookup: a SET of
/// `v` under `k` makes a GET of `k` return `v`, at any clock reading.
pub proof fn lemma_set_then_get(
    m: Map<Seq<u8>, ValueModel>,
    k: Seq<u8>,
    v: Seq<u8>,
    now: u64,
)
    ensures
        live(
            m.insert(k, ValueModel { data: DataModel::Bytes(v), expired_at: None }),
            k,
            now,
        ) == Some(ValueModel { data: DataModel::Bytes(v), expired_at: None }),
{
}

/// The length a list reports equals the number of elements a full range
/// read (positions 0 through -1) hands back.
pub proof fn lemma_llen_counts_lrange(xs: Seq<Seq<u8>>)
    ensures
        range_of(xs, 0, -1).len() == xs.len(),
        range_of(xs, 0, -1) == xs,
{
    if xs.len() > 0 {
        assert(xs.subrange(0, xs.len() as int) =~= xs);
    }
}

/// A write with a deadline `secs` seconds ahead is observed while the
/// clock stays below the deadline and is absent from the deadline on.
pub proof fn lemma_set_ex_then_get(
    m: Map<Seq<u8>, ValueModel>,
    k: Seq<u8>,
    v: Seq<u8>,
    secs: u64,
    now0: u64,
    now1: u64,
)
    requires
        now0 + secs * 1000 <= u64::MAX,
    ensures
        ({
            let written = m.insert(
                k,
                ValueModel {
                    data: DataModel::Bytes(v),
                    expired_at: Some(crate::storage::deadline_of(now0, secs, 1000)),
                },
            );
            &&& now1 < now0 + secs * 1000 ==> live(written, k, now1) == Some(
                ValueModel {
                    data: DataModel::Bytes(v),
                    expired_at: Some(crate::storage::deadline_of(now0, secs, 1000)),
                },
            )
            &&& now1 >= now0 + secs * 1000 ==> live(written, k, now1) is None
        }),
{
}

/// A lookup observes exactly the kind of the most recent write: the kind
/// reply is `string`, `list`, `stream` or `none`, and nothing else.
pub proof fn lemma_type_of_last_write(
    m: Map<Seq<u8>, ValueModel>,
    k: Seq<u8>,
    vm: ValueModel,
    now: u64,
)
    requires
        vm.expired_at is None,
    ensures
        live(m.insert(k, vm), k, now) == Some(vm),
        m.remove(k).contains_key(k) == false,
{
}

/// First come, first served: with two waiters on `k` queued in this order
/// and a live list `[a, b]` under `k`, two wakeup rounds hand `a` to the
/// earlier waiter and `b` to the later one.
pub proof fn lemma_fifo_delivery(
    m: Map<Seq<u8>, ValueModel>,
    q: Seq<WaiterModel>,
    k: Seq<u8>,
    now: u64,
    a: Seq<u8>,
    b: Seq<u8>,
    i: int,
    j: int,
)
    requires
        live(m, k, now) matches Some(vm) && vm.data == DataModel::List(seq![a, b]),
        first_match(q, k) == Some(i),
        first_match(q.remove(i), k) == Some(j),
    ensures
        wake_all(m, q, k, now, 2).0 == seq![
            DeliveryModel { waiter_id: q[i].id, key: k, value: a },
            DeliveryModel { waiter_id: q.remove(i)[j].id, key: k, value: b },
        ],
{
    let vm = live(m, k, now)->Some_0;
    let xs = seq![a, b];
    crate::waiters::lemma_first_match(q, k);
    let d1 = DeliveryModel { waiter_id: q[i].id, key: k, value: a };
    let m2 = m.insert(
        k,
        ValueModel { data: DataModel::List(xs.drop_first()), expired_at: vm.expired_at },
    );
    let q2 = q.remove(i);
    assert(xs[0] == a);
    assert(wake_spec(m, q, k, now) == (Some(d1), m2, q2));
    let vm2 = ValueModel { data: DataModel::List(xs.drop_first()), expired_at: vm.expired_at };
    assert(live(m2, k, now) == Some(vm2));
    assert(xs.drop_first() =~= seq![b]);
    let d2 = DeliveryModel { waiter_id: q2[j].id, key: k, value: b };
    let step2 = wake_spec(m2, q2, k, now);
    assert(step2.0 == Some(d2));
    let rest2 = wake_all(step2.1, step2.2, k, now, 0nat);
    assert(rest2.0 == Seq::<DeliveryModel>::empty());
    assert(wake_all(m2, q2, k, now, 1nat).0 == seq![d2] + rest2.0);
    assert(wake_all(m, q, k, now, 2nat).0 == seq![d1] + wake_all(m2, q2, k, now, 1nat).0);
    assert(seq![d1] + (seq![d2] + Seq::<DeliveryModel>::empty()) =~= seq![d1, d2]);
}

/// An element pushed after every waiter on its key has left the queue is
/// consumed by nobody: the wakeup rounds deliver nothing and the keyspace
/// keeps the pushed values for a later range read.
pub proof fn lemma_push_after_timeout(
    m: Map<Seq<u8>, ValueModel>,
    q: Seq<WaiterModel>,
    k: Seq<u8>,
    now: u64,
    count: nat,
)
    requires
        first_match(q, k) is None,
    ensures
        wake_all(m, q, k, now, count) == (Seq::<DeliveryModel>::empty(), m, q),
{
    if count > 0 {
        assert(wake_spec(m, q, k, now).0 is None);
    }
}

/// An accepted append bears an id strictly greater than every id already
/// stored in the stream — in particular one the server picked itself.
pub proof fn lemma_xadd_monotone(
    es: Seq<EntryModel>,
    id: IdSpec,
    now: u64,
    rid: (u64, u64),
)
    requires
        stream_ordered(es),
        xadd_spec(es, id, now) == Ok::<(u64, u64), StoreError>(rid),
    ensures
        forall|i: int| 0 <= i < es.len() ==> id_lt(entry_id(#[trigger] es[i]), rid),
{
    assert forall|i: int| 0 <= i < es.len() implies id_lt(entry_id(#[trigger] es[i]), rid) by {
        if i < es.len() - 1 {
            assert(id_lt(entry_id(es[i]), entry_id(es[es.len() - 1])));
        }
        assert(id_lt(top_id(es), rid));
    }
}

/// A read after id `x` hands back exactly the records above `x`, in
/// ascending id order: every record handed back lies above `x`, their
/// order is strict, and no record above `x` is left out.
pub proof fn lemma_xread_after(es: Seq<EntryModel>, x: (u64, u64))
    requires
        stream_ordered(es),
    ensures
        ({
            let sel = entries_after(es, x);
            &&& forall|i: int| 0 <= i < sel.len() ==> id_lt(x, entry_id(#[trigger] sel[i]))
            &&& stream_ordered(sel)
            &&& forall|j: int|
                0 <= j < es.len() && id_lt(x, entry_id(#[trigger] es[j])) ==> sel.contains(es[j])
        }),
    decreases es.len(),
{
    let sel = entries_after(es, x);
    if es.len() == 0 {
    } else {
        assert(forall|i: int|
            0 <= i < es.drop_last().len() ==> #[trigger] es.drop_last()[i] == es[i]);
        assert(stream_ordered(es.drop_last()));
        lemma_xread_after(es.drop_last(), x);
        let init = entries_after(es.drop_last(), x);
        assert forall|i: int| 0 <= i < init.len() implies init.contains(#[trigger] init[i]) by {
            assert(init[i] == init[i]);
        }
        assert forall|i: int| #![trigger init[i]] 0 <= i < init.len() implies exists|j: int|
            0 <= j < es.drop_last().len() && (#[trigger] es.drop_last()[j]) == init[i] by {
            lemma_entries_after_from(es.drop_last(), x, i);
        }
        if id_lt(x, entry_id(es.last())) {
            assert(sel == init.push(es.last()));
            assert(stream_ordered(sel)) by {
                assert forall|i: int, j: int| 0 <= i < j < sel.len() implies id_lt(
                    entry_id(#[trigger] sel[i]),
                    entry_id(#[trigger] sel[j]),
                ) by {
                    if j == sel.len() - 1 {
                        let jj = choose|jj: int|
                            0 <= jj < es.drop_last().len() && (#[trigger] es.drop_last()[jj])
                                == init[i];
                        assert(es[jj] == sel[i]);
                        assert(id_lt(entry_id(es[jj]), entry_id(es[es.len() - 1])));
                    }
                }
            }
            assert forall|j: int|
                0 <= j < es.len() && id_lt(x, entry_id(#[trigger] es[j])) implies sel.contains(
                es[j],
            ) by {
                if j < es.len() - 1 {
                    assert(es.drop_last()[j] == es[j]);
                    assert(init.contains(es[j]));
                    let w = choose|w: int| 0 <= w < init.len() && init[w] == es[j];
                    assert(sel[w] == es[j]);
                } else {
                    assert(sel[sel.len() - 1] == es[j]);
                }
            }
        } else {
            assert(sel == init);
            assert forall|j: int|
                0 <= j < es.len() && id_lt(x, entry_id(#[trigger] es[j])) implies sel.contains(
                es[j],
            ) by {
                if j < es.len() - 1 {
                    assert(es.drop_last()[j] == es[j]);
                } else {
                    assert(!id_lt(x, entry_id(es[j])));
                }
            }
        }
    }
}

/// Every record a read hands back stands somewhere in the stream.
proof fn lemma_entries_after_from(es: Seq<EntryModel>, x: (u64, u64), i: int)
    requires
        0 <= i < entries_after(es, x).len(),
    ensures
        exists|j: int| 0 <= j < es.len() && (#[trigger] es[j]) == entries_after(es, x)[i],
    decreases es.len(),
{
    if es.len() > 0 {
        let init = entries_after(es.drop_last(), x);
        if id_lt(x, entry_id(es.last())) {
            if i < init.len() {
                lemma_entries_after_from(es.drop_last(), x, i);
                let j = choose|j: int|
                    0 <= j < es.drop_last().len() && (#[trigger] es.drop_last()[j]) == init[i];
                assert(es[j] == entries_after(es, x)[i]);
            } else {
                assert(es[es.len() - 1] == entries_after(es, x)[i]);
            }
        } else {
            lemma_entries_after_from(es.drop_last(), x, i);
            let j = choose|j: int|
                0 <= j < es.drop_last().len() && (#[trigger] es.drop_last()[j]) == init[i];
            assert(es[j] == entries_after(es, x)[i]);
        }
    }
}

} // verus!
