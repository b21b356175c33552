//! The blocking-wait coordinator.
//!
//! Consumers that found every list they asked for empty park in a FIFO
//! queue of waiters. Every successful push hands each pushed element to the
//! frontmost waiter whose key set names the pushed key — at most one waiter
//! per element, in queue order — and a waiter whose deadline passes removes
//! itself. The functions here make every decision; parking a thread and
//! delivering over a channel are the embedding program's work, driven by
//! the `Delivery` values returned.

use vstd::prelude::*;

use crate::storage::{
    list_model, live, touched, DataModel, Storage, StoreError, ValueKind, ValueModel,
};

verus! {

/// One parked consumer: its ticket, the keys it waits on, and an optional
/// deadline in clock milliseconds.
#[derive(Debug, PartialEq, Eq)]
pub struct Waiter {
    pub id: u64,
    pub keys: Vec<Vec<u8>>,
    pub deadline: Option<u64>,
}

/// Model of one parked consumer.
pub struct WaiterModel {
    pub id: u64,
    pub keys: Seq<Seq<u8>>,
    pub deadline: Option<u64>,
}

/// Model of a waiter.
pub open spec fn waiter_model(w: Waiter) -> WaiterModel {
    WaiterModel { id: w.id, keys: w.keys@.map_values(|k: Vec<u8>| k@), deadline: w.deadline }
}

/// One element handed to a parked consumer: the consumer's ticket, the
/// list key, and the element.
#[derive(Debug, PartialEq, Eq)]
pub struct Delivery {
    pub waiter_id: u64,
    pub key: Vec<u8>,
    pub value: Vec<u8>,
}

/// Model of a delivery.
pub struct DeliveryModel {
    pub waiter_id: u64,
    pub key: Seq<u8>,
    pub value: Seq<u8>,
}

/// Model of a delivery.
pub open spec fn delivery_model(d: Delivery) -> DeliveryModel {
    DeliveryModel { waiter_id: d.waiter_id, key: d.key@, value: d.value@ }
}

/// Model of a run of deliveries.
pub open spec fn deliveries_model(ds: Seq<Delivery>) -> Seq<DeliveryModel> {
    ds.map_values(|d: Delivery| delivery_model(d))
}

/// Position of the frontmost waiter whose key set names `k`.
pub open spec fn first_match(q: Seq<WaiterModel>, k: Seq<u8>) -> Option<int>
    decreases q.len(),
{
    if q.len() == 0 {
        None
    } else if q[0].keys.contains(k) {
        Some(0)
    } else {
        match first_match(q.drop_first(), k) {
            Some(i) => Some(i + 1),
            None => None,
        }
    }
}

/// `first_match` names the frontmost waiter on `k`, and `None` exactly
/// when no waiter is on `k`.
pub proof fn lemma_first_match(q: Seq<WaiterModel>, k: Seq<u8>)
    ensures
        match first_match(q, k) {
            Some(i) => 0 <= i < q.len() && q[i].keys.contains(k) && (forall|j: int|
                0 <= j < i ==> !(#[trigger] q[j]).keys.contains(k)),
            None => forall|j: int| 0 <= j < q.len() ==> !(#[trigger] q[j]).keys.contains(k),
        },
    decreases q.len(),
{
    if q.len() > 0 && !q[0].keys.contains(k) {
        lemma_first_match(q.drop_first(), k);
        assert(forall|j: int| 1 <= j < q.len() ==> #[trigger] q[j] == q.drop_first()[j - 1]);
    }
}

/// A frontmost-and-only position determines `first_match`.
pub proof fn lemma_first_match_is(q: Seq<WaiterModel>, k: Seq<u8>, i: int)
    requires
        0 <= i < q.len(),
        q[i].keys.contains(k),
        forall|j: int| 0 <= j < i ==> !(#[trigger] q[j]).keys.contains(k),
    ensures
        first_match(q, k) == Some(i),
{
    lemma_first_match(q, k);
    match first_match(q, k) {
        Some(m) => {
            if m < i {
                assert(!q[m].keys.contains(k));
            } else if i < m {
                assert(!q[i].keys.contains(k));
            }
        },
        None => {
            assert(!q[i].keys.contains(k));
        },
    }
}

/// The FIFO queue of parked consumers, front first.
pub struct WaiterQueue {
    waiters: Vec<Waiter>,
    next_id: u64,
}

impl View for WaiterQueue {
    type V = Seq<WaiterModel>;

    closed spec fn view(&self) -> Seq<WaiterModel> {
        self.waiters@.map_values(|w: Waiter| waiter_model(w))
    }
}

impl WaiterQueue {
    /// Tickets already handed out stay below the next one, so every queued
    /// ticket is distinct.
    pub closed spec fn wf(&self) -> bool {
        forall|i: int| 0 <= i < self.waiters@.len() ==> (#[trigger] self.waiters@[i]).id
            < self.next_id
    }

    /// Room for another ticket.
    pub closed spec fn has_capacity(&self) -> bool {
        self.next_id < u64::MAX
    }

    /// An empty queue.
    pub fn new() -> (r: WaiterQueue)
        ensures
            r.wf(),
            r@ == Seq::<WaiterModel>::empty(),
    {
        let q = WaiterQueue { waiters: Vec::new(), next_id: 0 };
        proof {
            assert(q@ =~= Seq::<WaiterModel>::empty());
        }
        q
    }

    /// Whether another consumer can still park.
    pub fn capacity_left(&self) -> (r: bool)
        ensures
            r == self.has_capacity(),
    {
        self.next_id < u64::MAX
    }

    /// Parks a consumer at the back of the queue and hands out its ticket,
    /// fresh among all queued tickets.
    pub fn enqueue(&mut self, keys: Vec<Vec<u8>>, deadline: Option<u64>) -> (r: u64)
        requires
            old(self).wf(),
            old(self).has_capacity(),
        ensures
            final(self).wf(),
            final(self)@ == old(self)@.push(
                WaiterModel { id: r, keys: keys@.map_values(|k: Vec<u8>| k@), deadline },
            ),
            forall|i: int| 0 <= i < old(self)@.len() ==> (#[trigger] old(self)@[i]).id != r,
    {
        let id = self.next_id;
        self.next_id = self.next_id + 1;
        self.waiters.push(Waiter { id, keys, deadline });
        proof {
            assert(self@ =~= old(self)@.push(
                waiter_model(Waiter { id, keys: self.waiters@.last().keys, deadline }),
            ));
        }
        id
    }

    /// Removes and hands out the frontmost waiter whose key set names
    /// `key`, if any waiter's does.
    #[verifier::loop_isolation(false)]
    pub fn take_first_for(&mut self, key: &[u8]) -> (r: Option<Waiter>)
        requires
            old(self).wf(),
        ensures
            final(self).wf(),
            match r {
                Some(w) => first_match(old(self)@, key@) matches Some(i) && (waiter_model(w)
                    == old(self)@[i] && final(self)@ == old(self)@.remove(i)),
                None => first_match(old(self)@, key@) is None && final(self)@ == old(self)@,
            },
    {
        let mut i: usize = 0;
        while i < self.waiters.len()
            invariant
                i <= self.waiters@.len(),
                *self == *old(self),
                forall|j: int| 0 <= j < i ==> !(#[trigger] self@[j]).keys.contains(key@),
            decreases self.waiters@.len() - i,
        {
            if keys_contain(&self.waiters[i].keys, key) {
                proof {
                    lemma_first_match_is(self@, key@, i as int);
                }
                let w = self.waiters.remove(i);
                proof {
                    old(self).waiters@.remove_ensures(i as int);
                    old(self)@.remove_ensures(i as int);
                    assert(self@ =~= old(self)@.remove(i as int));
                    assert(self.waiters@ =~= old(self).waiters@.subrange(0, i as int)
                        + old(self).waiters@.subrange(
                        i as int + 1,
                        old(self).waiters@.len() as int,
                    ));
                    assert forall|a: int| 0 <= a < self.waiters@.len() implies (
                    #[trigger] self.waiters@[a]).id < self.next_id by {
                        let a0 = if a < i as int {
                            a
                        } else {
                            a + 1
                        };
                        assert(self.waiters@[a] == old(self).waiters@[a0]);
                    }
                }
                return Some(w);
            }
            i += 1;
        }
        proof {
            lemma_first_match(self@, key@);
            if first_match(self@, key@) is Some {
                let m = first_match(self@, key@)->Some_0;
                assert(!self@[m].keys.contains(key@));
            }
        }
        None
    }

    /// Removes the waiter holding ticket `id`, reporting whether it was
    /// still queued. A second removal of the same ticket finds nothing, so
    /// a timeout that races a delivery is harmless.
    #[verifier::loop_isolation(false)]
    pub fn remove_by_id(&mut self, id: u64) -> (r: bool)
        requires
            old(self).wf(),
        ensures
            final(self).wf(),
            if exists|i: int| 0 <= i < old(self)@.len() && (#[trigger] old(self)@[i]).id == id {
                r && exists|i: int|
                    0 <= i < old(self)@.len() && (#[trigger] old(self)@[i]).id == id
                        && final(self)@ == old(self)@.remove(i)
            } else {
                !r && final(self)@ == old(self)@
            },
    {
        let mut i: usize = 0;
        while i < self.waiters.len()
            invariant
                i <= self.waiters@.len(),
                *self == *old(self),
                forall|j: int| 0 <= j < i ==> (#[trigger] self@[j]).id != id,
            decreases self.waiters@.len() - i,
        {
            if self.waiters[i].id == id {
                let _ = self.waiters.remove(i);
                proof {
                    old(self).waiters@.remove_ensures(i as int);
                    old(self)@.remove_ensures(i as int);
                    assert(self@ =~= old(self)@.remove(i as int));
                    assert(old(self)@[i as int].id == id);
                    assert(self.waiters@ =~= old(self).waiters@.subrange(0, i as int)
                        + old(self).waiters@.subrange(
                        i as int + 1,
                        old(self).waiters@.len() as int,
                    ));
                    assert forall|a: int| 0 <= a < self.waiters@.len() implies (
                    #[trigger] self.waiters@[a]).id < self.next_id by {
                        let a0 = if a < i as int {
                            a
                        } else {
                            a + 1
                        };
                        assert(self.waiters@[a] == old(self).waiters@[a0]);
                    }
                }
                return true;
            }
            i += 1;
        }
        proof {
            if exists|j: int| 0 <= j < old(self)@.len() && (#[trigger] old(self)@[j]).id == id {
                let j = choose|j: int|
                    0 <= j < old(self)@.len() && (#[trigger] old(self)@[j]).id == id;
                assert(self@[j].id != id);
            }
        }
        false
    }
}

/// Whether some key in `keys` holds the bytes of `k`.
#[verifier::loop_isolation(false)]
pub fn keys_contain(keys: &Vec<Vec<u8>>, k: &[u8]) -> (r: bool)
    ensures
        r == keys@.map_values(|x: Vec<u8>| x@).contains(k@),
{
    let ghost gkeys = keys@.map_values(|x: Vec<u8>| x@);
    let mut i: usize = 0;
    while i < keys.len()
        invariant
            i <= keys@.len(),
            forall|j: int| 0 <= j < i ==> gkeys[j] != k@,
        decreases keys@.len() - i,
    {
        if crate::storage::bytes_eq(keys[i].as_slice(), k) {
            proof {
                assert(gkeys[i as int] == k@);
            }
            return true;
        }
        i += 1;
    }
    proof {
        if gkeys.contains(k@) {
            let j = choose|j: int| 0 <= j < gkeys.len() && gkeys[j] == k@;
            assert(gkeys[j] != k@);
        }
    }
    false
}

/// What one wakeup attempt for `k` does to keyspace `m` and queue `q`: if
/// `k` holds a live list and some waiter is on `k`, the frontmost such
/// waiter leaves the queue and receives the list's head, the pop that
/// empties the list removing the key; otherwise nothing moves.
pub open spec fn wake_spec(
    m: Map<Seq<u8>, ValueModel>,
    q: Seq<WaiterModel>,
    k: Seq<u8>,
    now: u64,
) -> (Option<DeliveryModel>, Map<Seq<u8>, ValueModel>, Seq<WaiterModel>) {
    match live(m, k, now) {
        Some(vm) => match vm.data {
            DataModel::List(xs) => match first_match(q, k) {
                Some(i) => {
                    let d = DeliveryModel { waiter_id: q[i].id, key: k, value: xs[0] };
                    let m2 = if xs.len() <= 1 {
                        m.remove(k)
                    } else {
                        m.insert(
                            k,
                            ValueModel {
                                data: DataModel::List(xs.drop_first()),
                                expired_at: vm.expired_at,
                            },
                        )
                    };
                    (Some(d), m2, q.remove(i))
                },
                None => (None, m, q),
            },
            _ => (None, m, q),
        },
        None => (None, m, q),
    }
}

/// Up to `count` wakeup attempts for `k`, stopping at the first that
/// moves nothing: the deliveries made and the state left behind.
pub open spec fn wake_all(
    m: Map<Seq<u8>, ValueModel>,
    q: Seq<WaiterModel>,
    k: Seq<u8>,
    now: u64,
    count: nat,
) -> (Seq<DeliveryModel>, Map<Seq<u8>, ValueModel>, Seq<WaiterModel>)
    decreases count,
{
    if count == 0 {
        (Seq::empty(), m, q)
    } else {
        let step = wake_spec(m, q, k, now);
        match step.0 {
            None => (Seq::empty(), m, q),
            Some(d) => {
                let rest = wake_all(step.1, step.2, k, now, (count - 1) as nat);
                (seq![d] + rest.0, rest.1, rest.2)
            },
        }
    }
}

/// Performs one wakeup attempt for `key`: exactly what `wake_spec` says.
/// The returned delivery names the consumer to hand the element to.
pub fn wake_for_key(storage: &mut Storage, q: &mut WaiterQueue, key: &[u8], now: u64) -> (r:
    Option<Delivery>)
    requires
        old(storage).wf(),
        old(q).wf(),
    ensures
        final(storage).wf(),
        final(q).wf(),
        ({
            let step = wake_spec(old(storage)@, old(q)@, key@, now);
            &&& match r {
                Some(d) => step.0 == Some(delivery_model(d)),
                None => step.0 is None,
            }
            &&& final(storage)@ == step.1
            &&& final(q)@ == step.2
        }),
{
    proof {
        storage.lemma_wf_no_empty_lists();
    }
    match storage.type_of(key, now) {
        ValueKind::List => {
            match q.take_first_for(key) {
                Some(w) => {
                    let popped = storage.lpop(key, now);
                    let v = match popped {
                        Ok(Some(v)) => v,
                        _ => {
                            proof {
                                assert(false);
                            }
                            Vec::new()
                        },
                    };
                    Some(
                        Delivery {
                            waiter_id: w.id,
                            key: vstd::slice::slice_to_vec(key),
                            value: v,
                        },
                    )
                },
                None => None,
            }
        },
        _ => None,
    }
}

/// What a push of `vs` onto the list under `k` leaves in the keyspace and
/// returns, or nothing where the key holds another kind. `at_right`
/// appends at the tail; otherwise the values go one at a time to the head.
pub open spec fn list_push_spec(
    m: Map<Seq<u8>, ValueModel>,
    k: Seq<u8>,
    vs: Seq<Seq<u8>>,
    at_right: bool,
    now: u64,
) -> Option<(Map<Seq<u8>, ValueModel>, int)> {
    let mm = touched(m, k, now);
    match live(m, k, now) {
        None => Some(
            (
                mm.insert(
                    k,
                    ValueModel {
                        data: DataModel::List(
                            if at_right {
                                vs
                            } else {
                                vs.reverse()
                            },
                        ),
                        expired_at: None,
                    },
                ),
                vs.len() as int,
            ),
        ),
        Some(vm) => match vm.data {
            DataModel::List(xs) => Some(
                (
                    mm.insert(
                        k,
                        ValueModel {
                            data: DataModel::List(
                                if at_right {
                                    xs + vs
                                } else {
                                    vs.reverse() + xs
                                },
                            ),
                            expired_at: vm.expired_at,
                        },
                    ),
                    xs.len() + vs.len() as int,
                ),
            ),
            _ => None,
        },
    }
}

/// Pushes `values` onto the list under `key` and then hands elements to
/// parked consumers, one wakeup attempt per pushed element, in queue
/// order. The embedding program performs the returned deliveries.
#[verifier::loop_isolation(false)]
pub fn push_and_wake(
    storage: &mut Storage,
    q: &mut WaiterQueue,
    key: Vec<u8>,
    values: Vec<Vec<u8>>,
    at_right: bool,
    now: u64,
) -> (r: (Result<usize, StoreError>, Vec<Delivery>))
    requires
        old(storage).wf(),
        old(q).wf(),
        values@.len() >= 1,
    ensures
        final(storage).wf(),
        final(q).wf(),
        ({
            let pushed = list_push_spec(old(storage)@, key@, list_model(values@), at_right, now);
            match r.0 {
                Ok(n) => pushed matches Some((m1, cnt)) && (n == cnt && {
                    let woken = wake_all(m1, old(q)@, key@, now, values@.len());
                    &&& deliveries_model(r.1@) == woken.0
                    &&& final(storage)@ == woken.1
                    &&& final(q)@ == woken.2
                }),
                Err(e) => pushed is None && e == StoreError::WrongType && final(storage)@
                    == touched(old(storage)@, key@, now) && final(q)@ == old(q)@ && r.1@.len()
                    == 0,
            }
        }),
{
    let count = values.len();
    let k2 = vstd::slice::slice_to_vec(key.as_slice());
    let pushed = if at_right {
        storage.rpush(key, values, now)
    } else {
        storage.lpush(key, values, now)
    };
    let ghost m1 = storage@;
    let ghost q0 = q@;
    match pushed {
        Err(e) => (Err(e), Vec::new()),
        Ok(n) => {
            let mut dels: Vec<Delivery> = Vec::new();
            let mut t: usize = 0;
            proof {
                assert(deliveries_model(dels@) =~= Seq::<DeliveryModel>::empty());
            }
            while t < count
                invariant
                    t <= count,
                    storage.wf(),
                    q.wf(),
                    ({
                        let whole = wake_all(m1, q0, key@, now, count as nat);
                        let rest = wake_all(storage@, q@, key@, now, (count - t) as nat);
                        &&& whole.0 == deliveries_model(dels@) + rest.0
                        &&& whole.1 == rest.1
                        &&& whole.2 == rest.2
                    }),
                decreases count - t,
            {
                let ghost pre_s = storage@;
                let ghost pre_q = q@;
                match wake_for_key(storage, q, k2.as_slice(), now) {
                    Some(d) => {
                        let ghost d0 = delivery_model(d);
                        dels.push(d);
                        proof {
                            let rest_pre = wake_all(pre_s, pre_q, key@, now, (count - t) as nat);
                            let rest_post = wake_all(
                                storage@,
                                q@,
                                key@,
                                now,
                                (count - t - 1) as nat,
                            );
                            assert(rest_pre.0 =~= seq![d0] + rest_post.0);
                            assert(deliveries_model(dels@) =~= deliveries_model(dels@.drop_last())
                                + seq![d0]);
                            assert(deliveries_model(dels@) + rest_post.0 =~= (deliveries_model(
                                dels@.drop_last(),
                            ) + seq![d0]) + rest_post.0);
                            assert((deliveries_model(dels@.drop_last()) + seq![d0]) + rest_post.0
                                =~= deliveries_model(dels@.drop_last()) + (seq![d0]
                                + rest_post.0));
                        }
                        t += 1;
                    },
                    None => {
                        proof {
                            let rest = wake_all(storage@, q@, key@, now, (count - t) as nat);
                            assert(rest.0 =~= Seq::<DeliveryModel>::empty());
                            assert(deliveries_model(dels@) + rest.0 =~= deliveries_model(dels@));
                        }
                        break;
                    },
                }
            }
            proof {
                if t == count {
                    let rest = wake_all(storage@, q@, key@, now, 0);
                    assert(deliveries_model(dels@) + rest.0 =~= deliveries_model(dels@));
                }
            }
            (Ok(n), dels)
        },
    }
}

/// Some requested key holds a live value of a kind other than list.
pub open spec fn any_wrong_kind(m: Map<Seq<u8>, ValueModel>, ks: Seq<Seq<u8>>, now: u64) -> bool {
    exists|i: int|
        0 <= i < ks.len() && (live(m, #[trigger] ks[i], now) matches Some(vm) && !(vm.data
            is List))
}

/// Position of the first requested key holding a live list.
pub open spec fn first_ready(m: Map<Seq<u8>, ValueModel>, ks: Seq<Seq<u8>>, now: u64) -> Option<
    int,
>
    decreases ks.len(),
{
    if ks.len() == 0 {
        None
    } else if live(m, ks[0], now) matches Some(vm) && vm.data is List {
        Some(0)
    } else {
        match first_ready(m, ks.drop_first(), now) {
            Some(i) => Some(i + 1),
            None => None,
        }
    }
}

/// `first_ready` names the first key with a live list, and `None` exactly
/// when none has one.
pub proof fn lemma_first_ready(m: Map<Seq<u8>, ValueModel>, ks: Seq<Seq<u8>>, now: u64)
    ensures
        match first_ready(m, ks, now) {
            Some(i) => 0 <= i < ks.len() && (live(m, ks[i], now) matches Some(vm) && vm.data
                is List) && (forall|j: int|
                0 <= j < i ==> !(live(m, #[trigger] ks[j], now) matches Some(vm) && vm.data
                    is List)),
            None => forall|j: int|
                0 <= j < ks.len() ==> !(live(m, #[trigger] ks[j], now) matches Some(vm) && vm.data
                    is List),
        },
    decreases ks.len(),
{
    if ks.len() > 0 && !(live(m, ks[0], now) matches Some(vm) && vm.data is List) {
        lemma_first_ready(m, ks.drop_first(), now);
        assert(forall|j: int| 1 <= j < ks.len() ==> #[trigger] ks[j] == ks.drop_first()[j - 1]);
    }
}

/// Tries the non-blocking path of a blocking pop: refuses when any
/// requested key holds another kind, pops the first live list otherwise,
/// and reports nothing when every requested key is absent or empty —
/// the caller then parks a waiter.
#[verifier::loop_isolation(false)]
pub fn blpop_try(storage: &mut Storage, keys: &Vec<Vec<u8>>, now: u64) -> (r: Result<
    Option<(Vec<u8>, Vec<u8>)>,
    StoreError,
>)
    requires
        old(storage).wf(),
    ensures
        final(storage).wf(),
        ({
            let gk = keys@.map_values(|k: Vec<u8>| k@);
            let m = old(storage)@;
            if any_wrong_kind(m, gk, now) {
                r == Err::<Option<(Vec<u8>, Vec<u8>)>, StoreError>(StoreError::WrongType)
                    && final(storage)@ == m
            } else {
                match first_ready(m, gk, now) {
                    None => r == Ok::<Option<(Vec<u8>, Vec<u8>)>, StoreError>(None)
                        && final(storage)@ == m,
                    Some(i) => r matches Ok(Some((k, v))) && (k@ == gk[i] && (live(
                        m,
                        gk[i],
                        now,
                    ) matches Some(vm) && (vm.data matches DataModel::List(xs) && (v@ == xs[0]
                        && final(storage)@ == (if xs.len() == 1 {
                        m.remove(gk[i])
                    } else {
                        m.insert(
                            gk[i],
                            ValueModel {
                                data: DataModel::List(xs.drop_first()),
                                expired_at: vm.expired_at,
                            },
                        )
                    }))))),
                }
            }
        }),
{
    let ghost gk = keys@.map_values(|k: Vec<u8>| k@);
    let mut i: usize = 0;
    while i < keys.len()
        invariant
            i <= keys@.len(),
            *storage == *old(storage),
            forall|j: int|
                0 <= j < i ==> !(live(storage@, #[trigger] gk[j], now) matches Some(vm)
                    && !(vm.data is List)),
        decreases keys@.len() - i,
    {
        match storage.type_of(keys[i].as_slice(), now) {
            ValueKind::Str | ValueKind::Stream => {
                proof {
                    assert(live(storage@, gk[i as int], now) matches Some(vm) && !(vm.data
                        is List));
                }
                return Err(StoreError::WrongType);
            },
            _ => {},
        }
        i += 1;
    }
    proof {
        assert(!any_wrong_kind(storage@, gk, now));
        storage.lemma_wf_no_empty_lists();
    }
    let mut i: usize = 0;
    while i < keys.len()
        invariant
            i <= keys@.len(),
            *storage == *old(storage),
            forall|j: int|
                0 <= j < i ==> !(live(storage@, #[trigger] gk[j], now) matches Some(vm) && vm.data
                    is List),
        decreases keys@.len() - i,
    {
        match storage.type_of(keys[i].as_slice(), now) {
            ValueKind::List => {
                proof {
                    lemma_first_ready_is(storage@, gk, now, i as int);
                }
                let popped = storage.lpop(keys[i].as_slice(), now);
                let v = match popped {
                    Ok(Some(v)) => v,
                    _ => {
                        proof {
                            assert(false);
                        }
                        Vec::new()
                    },
                };
                return Ok(Some((vstd::slice::slice_to_vec(keys[i].as_slice()), v)));
            },
            _ => {},
        }
        i += 1;
    }
    proof {
        lemma_first_ready(storage@, gk, now);
        if first_ready(storage@, gk, now) is Some {
            let j = first_ready(storage@, gk, now)->Some_0;
            assert(!(live(storage@, gk[j], now) matches Some(vm) && vm.data is List));
        }
    }
    Ok(None)
}

/// A first-ready position determines `first_ready`.
pub proof fn lemma_first_ready_is(
    m: Map<Seq<u8>, ValueModel>,
    ks: Seq<Seq<u8>>,
    now: u64,
    i: int,
)
    requires
        0 <= i < ks.len(),
        live(m, ks[i], now) matches Some(vm) && vm.data is List,
        forall|j: int|
            0 <= j < i ==> !(live(m, #[trigger] ks[j], now) matches Some(vm) && vm.data is List),
    ensures
        first_ready(m, ks, now) == Some(i),
{
    lemma_first_ready(m, ks, now);
    match first_ready(m, ks, now) {
        Some(k) => {
            if k < i {
                assert(!(live(m, ks[k], now) matches Some(vm) && vm.data is List));
            } else if i < k {
                assert(!(live(m, ks[i], now) matches Some(vm) && vm.data is List));
            }
        },
        None => {
            assert(!(live(m, ks[i], now) matches Some(vm) && vm.data is List));
        },
    }
}

} // verus!
