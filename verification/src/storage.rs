//! The typed storage engine.
//!
//! One keyspace maps byte-string keys to typed values: byte strings, lists
//! of byte strings, or streams of field/value records. String values may
//! carry an expiry deadline in milliseconds; every operation that touches a
//! key first drops it if its deadline has passed (lazy expiration), and an
//! operation on a key of the wrong kind fails without touching anything.
//!
//! The model of a `Storage` is a `Map` from key bytes to value models; every
//! operation's contract is stated against that map.

use vstd::prelude::*;

verus! {

/// One stream record: an id ordered by `(ms, seq)` and its field pairs.
#[derive(Debug, PartialEq, Eq)]
pub struct StreamEntry {
    pub ms: u64,
    pub seq: u64,
    pub fields: Vec<(Vec<u8>, Vec<u8>)>,
}

/// The payload of a stored value.
#[derive(Debug, PartialEq, Eq)]
pub enum StoredData {
    Bytes(Vec<u8>),
    List(Vec<Vec<u8>>),
    Stream(Vec<StreamEntry>),
}

/// A stored value: a payload and an optional expiry deadline, in
/// milliseconds of the same clock that callers pass to the operations.
#[derive(Debug, PartialEq, Eq)]
pub struct StoredValue {
    pub data: StoredData,
    pub expired_at: Option<u64>,
}

/// Model of one stream record.
pub struct EntryModel {
    pub ms: u64,
    pub seq: u64,
    pub fields: Seq<(Seq<u8>, Seq<u8>)>,
}

/// Model of a payload.
pub enum DataModel {
    Bytes(Seq<u8>),
    List(Seq<Seq<u8>>),
    Stream(Seq<EntryModel>),
}

/// Model of a stored value.
pub struct ValueModel {
    pub data: DataModel,
    pub expired_at: Option<u64>,
}

/// Model of a list payload.
pub open spec fn list_model(l: Seq<Vec<u8>>) -> Seq<Seq<u8>> {
    l.map_values(|x: Vec<u8>| x@)
}

/// Model of one record's field pairs.
pub open spec fn pairs_model(f: Seq<(Vec<u8>, Vec<u8>)>) -> Seq<(Seq<u8>, Seq<u8>)> {
    f.map_values(|p: (Vec<u8>, Vec<u8>)| (p.0@, p.1@))
}

/// Model of one stream record.
pub open spec fn entry_model(e: StreamEntry) -> EntryModel {
    EntryModel { ms: e.ms, seq: e.seq, fields: pairs_model(e.fields@) }
}

/// Model of a stream payload.
pub open spec fn entries_model(es: Seq<StreamEntry>) -> Seq<EntryModel> {
    es.map_values(|e: StreamEntry| entry_model(e))
}

/// Model of a payload.
pub open spec fn data_model(d: StoredData) -> DataModel {
    match d {
        StoredData::Bytes(b) => DataModel::Bytes(b@),
        StoredData::List(l) => DataModel::List(list_model(l@)),
        StoredData::Stream(es) => DataModel::Stream(entries_model(es@)),
    }
}

/// Model of a stored value.
pub open spec fn value_model(v: StoredValue) -> ValueModel {
    ValueModel { data: data_model(v.data), expired_at: v.expired_at }
}

/// The value's deadline has passed at `now`.
pub open spec fn expired(v: ValueModel, now: u64) -> bool {
    v.expired_at matches Some(d) && d <= now
}

/// A requested or generated stream id.
#[derive(Debug, PartialEq, Eq)]
pub enum IdSpec {
    /// The server picks the id from the clock and the stream's top id.
    Auto,
    /// The caller names the id outright.
    Explicit(u64, u64),
}

/// Strict order on stream ids: by millisecond part, then sequence part.
pub open spec fn id_lt(a: (u64, u64), b: (u64, u64)) -> bool {
    a.0 < b.0 || (a.0 == b.0 && a.1 < b.1)
}

/// The id of a stream record.
pub open spec fn entry_id(e: EntryModel) -> (u64, u64) {
    (e.ms, e.seq)
}

/// The id of the newest record, `(0, 0)` for an empty stream.
pub open spec fn top_id(es: Seq<EntryModel>) -> (u64, u64) {
    if es.len() == 0 {
        (0u64, 0u64)
    } else {
        entry_id(es.last())
    }
}

/// Stream records stand in strictly ascending id order, all above the
/// `(0, 0)` sentinel.
pub open spec fn stream_ordered(es: Seq<EntryModel>) -> bool {
    &&& forall|i: int, j: int|
        0 <= i < j < es.len() ==> id_lt(entry_id(#[trigger] es[i]), entry_id(#[trigger] es[j]))
    &&& forall|i: int| 0 <= i < es.len() ==> id_lt((0u64, 0u64), entry_id(#[trigger] es[i]))
}

/// Every stored stream is strictly ascending.
pub open spec fn streams_ordered(m: Map<Seq<u8>, ValueModel>) -> bool {
    forall|k: Seq<u8>|
        #[trigger] m.contains_key(k) ==> match m[k].data {
            DataModel::Stream(es) => stream_ordered(es),
            _ => true,
        }
}

/// The id the server would pick for an append at `now`: the clock with
/// sequence 0 past the top millisecond, else the next sequence, which may
/// not exist when the top sequence is exhausted.
pub open spec fn auto_candidate(es: Seq<EntryModel>, now: u64) -> Option<(u64, u64)> {
    let top = top_id(es);
    if es.len() == 0 || now > top.0 {
        Some((now, 0u64))
    } else if top.1 < u64::MAX {
        Some((now, (top.1 + 1) as u64))
    } else {
        None
    }
}

/// The id an append with request `id` at `now` is assigned against a
/// stream holding `es`, or why it is refused: the all-zero id is never
/// accepted, and the assigned id must exceed the stream's top id.
pub open spec fn xadd_spec(es: Seq<EntryModel>, id: IdSpec, now: u64) -> Result<
    (u64, u64),
    StoreError,
> {
    let cand = match id {
        IdSpec::Explicit(ms, sq) => Some((ms, sq)),
        IdSpec::Auto => auto_candidate(es, now),
    };
    match cand {
        None => Err(StoreError::IdNotGreater),
        Some(c) => if c == (0u64, 0u64) {
            Err(StoreError::IdZero)
        } else if !id_lt(top_id(es), c) {
            Err(StoreError::IdNotGreater)
        } else {
            Ok(c)
        },
    }
}

/// The stream a live value offers an append: an absent key offers the
/// empty stream, another kind offers none.
pub open spec fn as_stream(l: Option<ValueModel>) -> Option<(Seq<EntryModel>, Option<u64>)> {
    match l {
        None => Some((Seq::empty(), None)),
        Some(vm) => match vm.data {
            DataModel::Stream(es) => Some((es, vm.expired_at)),
            _ => None,
        },
    }
}

/// The record `e` lies in the inclusive id range `start ..= end`.
pub open spec fn in_id_range(e: EntryModel, start: (u64, u64), end: (u64, u64)) -> bool {
    (start == entry_id(e) || id_lt(start, entry_id(e))) && (entry_id(e) == end || id_lt(
        entry_id(e),
        end,
    ))
}

/// The records of `es` between `start` and `end` inclusive, in stream
/// order.
pub open spec fn range_entries(es: Seq<EntryModel>, start: (u64, u64), end: (u64, u64)) -> Seq<
    EntryModel,
>
    decreases es.len(),
{
    if es.len() == 0 {
        Seq::empty()
    } else {
        let init = range_entries(es.drop_last(), start, end);
        if in_id_range(es.last(), start, end) {
            init.push(es.last())
        } else {
            init
        }
    }
}

/// The records of `es` with ids strictly above `id`, in stream order.
pub open spec fn entries_after(es: Seq<EntryModel>, id: (u64, u64)) -> Seq<EntryModel>
    decreases es.len(),
{
    if es.len() == 0 {
        Seq::empty()
    } else {
        let init = entries_after(es.drop_last(), id);
        if id_lt(id, entry_id(es.last())) {
            init.push(es.last())
        } else {
            init
        }
    }
}

/// No key holds an empty list: the pop that empties a list removes the
/// key, so a stored list always has a head to hand out.
pub open spec fn no_empty_lists(m: Map<Seq<u8>, ValueModel>) -> bool {
    forall|k: Seq<u8>|
        #[trigger] m.contains_key(k) ==> match m[k].data {
            DataModel::List(xs) => xs.len() >= 1,
            _ => true,
        }
}

/// What a lookup of `k` observes at `now`: the value if present and not
/// expired, nothing otherwise.
pub open spec fn live(m: Map<Seq<u8>, ValueModel>, k: Seq<u8>, now: u64) -> Option<ValueModel> {
    if m.contains_key(k) && !expired(m[k], now) {
        Some(m[k])
    } else {
        None
    }
}

/// The keyspace after an operation touched `k` at `now`: an expired value
/// is dropped at first observation, anything else stays.
pub open spec fn touched(m: Map<Seq<u8>, ValueModel>, k: Seq<u8>, now: u64) -> Map<
    Seq<u8>,
    ValueModel,
> {
    if m.contains_key(k) && expired(m[k], now) {
        m.remove(k)
    } else {
        m
    }
}

impl StoredValue {
    /// A value without an expiry deadline.
    pub fn new(data: StoredData) -> (r: StoredValue)
        ensures
            value_model(r) == (ValueModel { data: data_model(data), expired_at: None }),
    {
        StoredValue { data, expired_at: None }
    }

    /// A value that expires at the given deadline.
    pub fn with_expiration(data: StoredData, expires_at: u64) -> (r: StoredValue)
        ensures
            value_model(r) == (ValueModel {
                data: data_model(data),
                expired_at: Some(expires_at),
            }),
    {
        StoredValue { data, expired_at: Some(expires_at) }
    }

    /// Whether the value's deadline has passed at `now`.
    pub fn is_expired_at(&self, now: u64) -> (r: bool)
        ensures
            r == expired(value_model(*self), now),
    {
        match self.expired_at {
            Some(expire) => now >= expire,
            None => false,
        }
    }

    /// The byte-string payload, if this value holds one.
    pub fn as_string(&self) -> (r: Option<&Vec<u8>>)
        ensures
            match r {
                Some(b) => value_model(*self).data == DataModel::Bytes(b@),
                None => !(value_model(*self).data is Bytes),
            },
    {
        match &self.data {
            StoredData::Bytes(bytes) => Some(bytes),
            _ => None,
        }
    }
}

/// The keyspace: an association list with pairwise-distinct keys.
pub struct Storage {
    entries: Vec<(Vec<u8>, StoredValue)>,
}

/// The map a run of entries denotes, later entries inserted last.
pub open spec fn map_of(es: Seq<(Vec<u8>, StoredValue)>) -> Map<Seq<u8>, ValueModel>
    decreases es.len(),
{
    if es.len() == 0 {
        Map::empty()
    } else {
        map_of(es.drop_last()).insert(es.last().0@, value_model(es.last().1))
    }
}

/// Entries carry pairwise-distinct keys.
pub open spec fn distinct_keys(es: Seq<(Vec<u8>, StoredValue)>) -> bool {
    forall|i: int, j: int|
        0 <= i < j < es.len() ==> (#[trigger] es[i]).0@ != (#[trigger] es[j]).0@
}

/// A key is in the denoted map exactly when some entry carries it, and maps
/// to that entry's value when keys are distinct.
proof fn lemma_map_of_index(es: Seq<(Vec<u8>, StoredValue)>)
    requires
        distinct_keys(es),
    ensures
        forall|k: Seq<u8>|
            #[trigger] map_of(es).contains_key(k) <==> exists|i: int|
                0 <= i < es.len() && (#[trigger] es[i]).0@ == k,
        forall|i: int|
            0 <= i < es.len() ==> map_of(es).contains_key((#[trigger] es[i]).0@) && map_of(es)[
                es[i].0@] == value_model(es[i].1),
    decreases es.len(),
{
    if es.len() > 0 {
        assert(distinct_keys(es.drop_last()));
        lemma_map_of_index(es.drop_last());
        assert forall|i: int| 0 <= i < es.len() implies map_of(es).contains_key(
            (#[trigger] es[i]).0@,
        ) && map_of(es)[es[i].0@] == value_model(es[i].1) by {
            if i < es.len() - 1 {
                assert(es.drop_last()[i] == es[i]);
                assert(es[i].0@ != es.last().0@);
            }
        }
        assert forall|k: Seq<u8>| #[trigger] map_of(es).contains_key(k) implies exists|i: int|
            0 <= i < es.len() && (#[trigger] es[i]).0@ == k by {
            if k != es.last().0@ {
                let i = choose|i: int|
                    0 <= i < es.drop_last().len() && (#[trigger] es.drop_last()[i]).0@ == k;
                assert(es[i].0@ == k);
            } else {
                assert(es[es.len() - 1].0@ == k);
            }
        }
    }
}

/// Replacing the value of the entry at `i` updates the denoted map at that
/// entry's key.
proof fn lemma_map_of_update(es: Seq<(Vec<u8>, StoredValue)>, i: int, v: StoredValue)
    requires
        distinct_keys(es),
        0 <= i < es.len(),
    ensures
        map_of(es.update(i, (es[i].0, v))) == map_of(es).insert(es[i].0@, value_model(v)),
    decreases es.len(),
{
    let updated = es.update(i, (es[i].0, v));
    if i == es.len() - 1 {
        assert(updated.drop_last() =~= es.drop_last());
        assert(updated.last() == (es[i].0, v));
        assert(map_of(updated) =~= map_of(es).insert(es[i].0@, value_model(v)));
    } else {
        assert(distinct_keys(es.drop_last()));
        assert(es.drop_last()[i] == es[i]);
        lemma_map_of_update(es.drop_last(), i, v);
        assert(updated.drop_last() =~= es.drop_last().update(i, (es[i].0, v)));
        assert(updated.last() == es.last());
        assert(es[i].0@ != es.last().0@);
        assert(map_of(updated) =~= map_of(es).insert(es[i].0@, value_model(v)));
    }
}

/// Removing the entry at `i` removes that entry's key from the denoted map.
proof fn lemma_map_of_remove(es: Seq<(Vec<u8>, StoredValue)>, i: int)
    requires
        distinct_keys(es),
        0 <= i < es.len(),
    ensures
        map_of(es.remove(i)) == map_of(es).remove(es[i].0@),
    decreases es.len(),
{
    let removed = es.remove(i);
    lemma_map_of_index(es);
    if i == es.len() - 1 {
        assert(removed =~= es.drop_last());
        assert(!map_of(es.drop_last()).contains_key(es[i].0@)) by {
            assert(distinct_keys(es.drop_last()));
            lemma_map_of_index(es.drop_last());
            if map_of(es.drop_last()).contains_key(es[i].0@) {
                let j = choose|j: int|
                    0 <= j < es.drop_last().len() && (#[trigger] es.drop_last()[j]).0@ == es[i].0@;
                assert(es[j].0@ == es[i].0@);
            }
        }
        assert(map_of(removed) =~= map_of(es).remove(es[i].0@));
    } else {
        assert(distinct_keys(es.drop_last()));
        assert(es.drop_last()[i] == es[i]);
        lemma_map_of_remove(es.drop_last(), i);
        assert(removed.drop_last() =~= es.drop_last().remove(i));
        assert(removed.last() == es.last());
        assert(es[i].0@ != es.last().0@);
        assert(map_of(removed) =~= map_of(es).remove(es[i].0@));
    }
}

/// Two byte strings hold the same bytes.
pub fn bytes_eq(a: &[u8], b: &[u8]) -> (r: bool)
    ensures
        r == (a@ == b@),
{
    if a.len() != b.len() {
        proof {
            assert(a@ != b@);
        }
        return false;
    }
    let mut i: usize = 0;
    while i < a.len()
        invariant
            i <= a@.len(),
            a@.len() == b@.len(),
            forall|j: int| 0 <= j < i ==> a@[j] == b@[j],
        decreases a@.len() - i,
    {
        if a[i] != b[i] {
            return false;
        }
        i += 1;
    }
    proof {
        assert(a@ =~= b@);
    }
    true
}

impl View for Storage {
    type V = Map<Seq<u8>, ValueModel>;

    closed spec fn view(&self) -> Map<Seq<u8>, ValueModel> {
        map_of(self.entries@)
    }
}

impl Storage {
    /// The keyspace invariant: keys are pairwise distinct and no stored
    /// list is empty.
    pub closed spec fn wf(&self) -> bool {
        distinct_keys(self.entries@) && no_empty_lists(map_of(self.entries@)) && streams_ordered(
            map_of(self.entries@),
        )
    }

    /// Every stored stream is strictly ascending.
    pub proof fn lemma_wf_streams_ordered(&self)
        requires
            self.wf(),
        ensures
            streams_ordered(self@),
    {
    }

    /// The keyspace never holds an empty list.
    pub proof fn lemma_wf_no_empty_lists(&self)
        requires
            self.wf(),
        ensures
            no_empty_lists(self@),
    {
    }

    /// An empty keyspace.
    pub fn new() -> (r: Storage)
        ensures
            r.wf(),
            r@ == Map::<Seq<u8>, ValueModel>::empty(),
    {
        Storage { entries: Vec::new() }
    }

    /// Index of the entry carrying `key`, if one does.
    #[verifier::loop_isolation(false)]
    fn find_idx(&self, key: &[u8]) -> (r: Option<usize>)
        requires
            self.wf(),
        ensures
            match r {
                Some(i) => i < self.entries@.len() && self.entries@[i as int].0@ == key@
                    && self@.contains_key(key@) && self@[key@] == value_model(
                    self.entries@[i as int].1,
                ),
                None => !self@.contains_key(key@),
            },
    {
        proof {
            lemma_map_of_index(self.entries@);
        }
        let mut i: usize = 0;
        while i < self.entries.len()
            invariant
                i <= self.entries@.len(),
                forall|j: int| 0 <= j < i ==> (#[trigger] self.entries@[j]).0@ != key@,
            decreases self.entries@.len() - i,
        {
            if bytes_eq(self.entries[i].0.as_slice(), key) {
                return Some(i);
            }
            i += 1;
        }
        None
    }

    /// Unconditionally stores `value` as a byte string under `key`,
    /// dropping any previous value and deadline.
    pub fn set(&mut self, key: Vec<u8>, value: Vec<u8>)
        requires
            old(self).wf(),
        ensures
            final(self).wf(),
            final(self)@ == old(self)@.insert(
                key@,
                ValueModel { data: DataModel::Bytes(value@), expired_at: None },
            ),
    {
        self.set_value(key, StoredValue::new(StoredData::Bytes(value)));
    }

    /// Stores `value` under `key` with a deadline `seconds` from `now`,
    /// saturating at the clock's end.
    pub fn set_ex(&mut self, key: Vec<u8>, value: Vec<u8>, seconds: u64, now: u64)
        requires
            old(self).wf(),
        ensures
            final(self).wf(),
            final(self)@ == old(self)@.insert(
                key@,
                ValueModel {
                    data: DataModel::Bytes(value@),
                    expired_at: Some(deadline_of(now, seconds, 1000)),
                },
            ),
    {
        let delta = if seconds > u64::MAX / 1000 {
            u64::MAX
        } else {
            proof {
                vstd::arithmetic::div_mod::lemma_fundamental_div_mod(u64::MAX as int, 1000);
            }
            seconds * 1000
        };
        let deadline = if now > u64::MAX - delta {
            u64::MAX
        } else {
            now + delta
        };
        proof {
            vstd::arithmetic::div_mod::lemma_fundamental_div_mod(u64::MAX as int, 1000);
            assert(deadline == deadline_of(now, seconds, 1000));
        }
        self.set_value(key, StoredValue::with_expiration(StoredData::Bytes(value), deadline));
    }

    /// Stores `value` under `key` with a deadline `milliseconds` from
    /// `now`, saturating at the clock's end.
    pub fn set_px(&mut self, key: Vec<u8>, value: Vec<u8>, milliseconds: u64, now: u64)
        requires
            old(self).wf(),
        ensures
            final(self).wf(),
            final(self)@ == old(self)@.insert(
                key@,
                ValueModel {
                    data: DataModel::Bytes(value@),
                    expired_at: Some(deadline_of(now, milliseconds, 1)),
                },
            ),
    {
        let deadline = if now > u64::MAX - milliseconds {
            u64::MAX
        } else {
            now + milliseconds
        };
        self.set_value(key, StoredValue::with_expiration(StoredData::Bytes(value), deadline));
    }

    /// Stores `v` under `key`, replacing any previous entry.
    fn set_value(&mut self, key: Vec<u8>, v: StoredValue)
        requires
            old(self).wf(),
            match value_model(v).data {
                DataModel::List(xs) => xs.len() >= 1,
                DataModel::Stream(es) => stream_ordered(es),
                _ => true,
            },
        ensures
            final(self).wf(),
            final(self)@ == old(self)@.insert(key@, value_model(v)),
    {
        match self.find_idx(key.as_slice()) {
            Some(i) => {
                proof {
                    lemma_map_of_update(self.entries@, i as int, v);
                }
                let ghost k0 = self.entries@[i as int].0;
                let pair = &mut self.entries[i];
                pair.1 = v;
                proof {
                    assert(self.entries@ =~= old(self).entries@.update(i as int, (k0, v)));
                }
            },
            None => {
                self.entries.push((key, v));
                proof {
                    assert(self.entries@.drop_last() =~= old(self).entries@);
                    lemma_map_of_index(old(self).entries@);
                    assert forall|i: int, j: int|
                        0 <= i < j < self.entries@.len() implies (#[trigger] self.entries@[i]).0@
                        != (#[trigger] self.entries@[j]).0@ by {
                        if j == self.entries@.len() - 1 {
                            assert(self.entries@[i] == old(self).entries@[i]);
                        }
                    }
                }
            },
        }
    }

    /// Removes the entry carrying `key`, reporting whether one existed and
    /// was not already expired at `now`.
    pub fn delete(&mut self, key: &[u8], now: u64) -> (r: bool)
        requires
            old(self).wf(),
        ensures
            final(self).wf(),
            final(self)@ == touched(old(self)@, key@, now).remove(key@),
            r == (live(old(self)@, key@, now) is Some),
    {
        match self.find_idx(key) {
            Some(i) => {
                let was_live = !self.entries[i].1.is_expired_at(now);
                proof {
                    lemma_map_of_remove(self.entries@, i as int);
                }
                let ghost es0 = self.entries@;
                self.entries.remove(i);
                proof {
                    assert(self.entries@ =~= es0.remove(i as int));
                    assert(distinct_keys(self.entries@)) by {
                        assert forall|a: int, b: int|
                            0 <= a < b < self.entries@.len() implies (
                        #[trigger] self.entries@[a]).0@ != (#[trigger] self.entries@[b]).0@ by {
                            let a0 = if a < i as int {
                                a
                            } else {
                                a + 1
                            };
                            let b0 = if b < i as int {
                                b
                            } else {
                                b + 1
                            };
                            assert(self.entries@[a] == es0[a0]);
                            assert(self.entries@[b] == es0[b0]);
                        }
                    }
                    if expired(old(self)@[key@], now) {
                        assert(final(self)@ =~= touched(old(self)@, key@, now).remove(key@));
                    }
                }
                was_live
            },
            None => {
                proof {
                    assert(old(self)@.remove(key@) =~= old(self)@);
                }
                false
            },
        }
    }

    /// Removes and hands out the entry at `i`.
    fn take_entry(&mut self, i: usize) -> (r: (Vec<u8>, StoredValue))
        requires
            old(self).wf(),
            i < old(self).entries_len(),
        ensures
            final(self).wf(),
            r.0@ == old(self).entry_key(i as int),
            old(self)@.contains_key(r.0@),
            value_model(r.1) == old(self)@[r.0@],
            final(self)@ == old(self)@.remove(r.0@),
    {
        proof {
            lemma_map_of_index(self.entries@);
            lemma_map_of_remove(self.entries@, i as int);
        }
        let ghost es0 = self.entries@;
        let e = self.entries.remove(i);
        proof {
            assert forall|a: int, b: int|
                0 <= a < b < self.entries@.len() implies (#[trigger] self.entries@[a]).0@ != (
            #[trigger] self.entries@[b]).0@ by {
                let a0 = if a < i as int {
                    a
                } else {
                    a + 1
                };
                let b0 = if b < i as int {
                    b
                } else {
                    b + 1
                };
                assert(self.entries@[a] == es0[a0]);
                assert(self.entries@[b] == es0[b0]);
            }
        }
        e
    }

    /// Adds an entry for a key that is not present.
    fn put_fresh(&mut self, key: Vec<u8>, v: StoredValue)
        requires
            old(self).wf(),
            !old(self)@.contains_key(key@),
            match value_model(v).data {
                DataModel::List(xs) => xs.len() >= 1,
                DataModel::Stream(es) => stream_ordered(es),
                _ => true,
            },
        ensures
            final(self).wf(),
            final(self)@ == old(self)@.insert(key@, value_model(v)),
    {
        proof {
            lemma_map_of_index(self.entries@);
        }
        self.entries.push((key, v));
        proof {
            assert(self.entries@.drop_last() =~= old(self).entries@);
            assert forall|i: int, j: int|
                0 <= i < j < self.entries@.len() implies (#[trigger] self.entries@[i]).0@ != (
            #[trigger] self.entries@[j]).0@ by {
                if j == self.entries@.len() - 1 {
                    assert(self.entries@[i] == old(self).entries@[i]);
                }
            }
        }
    }

    /// Ghost length of the entry list.
    spec fn entries_len(&self) -> nat {
        self.entries@.len()
    }

    /// Ghost key of the entry at `i`.
    spec fn entry_key(&self, i: int) -> Seq<u8> {
        self.entries@[i].0@
    }

    /// Reads the byte string under `key` at `now`: the value where one is
    /// live, nothing where the key is absent or expired (an expired value
    /// is dropped), and WrongType where the key holds another kind.
    pub fn get(&mut self, key: &[u8], now: u64) -> (r: Result<Option<Vec<u8>>, StoreError>)
        requires
            old(self).wf(),
        ensures
            final(self).wf(),
            final(self)@ == touched(old(self)@, key@, now),
            ({
                let l = live(old(self)@, key@, now);
                match r {
                    Ok(Some(v)) => l matches Some(vm) && vm.data == DataModel::Bytes(v@),
                    Ok(None) => l is None,
                    Err(e) => e == StoreError::WrongType && (l matches Some(vm) && !(vm.data
                        is Bytes)),
                }
            }),
    {
        match self.find_idx(key) {
            None => Ok(None),
            Some(i) => {
                if self.entries[i].1.is_expired_at(now) {
                    let _ = self.take_entry(i);
                    Ok(None)
                } else {
                    let e = &self.entries[i];
                    match e.1.as_string() {
                        Some(b) => Ok(Some(vstd::slice::slice_to_vec(b.as_slice()))),
                        None => Err(StoreError::WrongType),
                    }
                }
            },
        }
    }

    /// Appends `values` in order at the tail of the list under `key`,
    /// creating the list if the key is absent or expired; returns the new
    /// length, or WrongType where the key holds another kind.
    pub fn rpush(&mut self, key: Vec<u8>, values: Vec<Vec<u8>>, now: u64) -> (r: Result<
        usize,
        StoreError,
    >)
        requires
            old(self).wf(),
            values@.len() >= 1,
        ensures
            final(self).wf(),
            ({
                let m = touched(old(self)@, key@, now);
                let l = live(old(self)@, key@, now);
                match r {
                    Ok(n) => match l {
                        None => final(self)@ == m.insert(
                            key@,
                            ValueModel {
                                data: DataModel::List(list_model(values@)),
                                expired_at: None,
                            },
                        ) && n == values@.len(),
                        Some(vm) => vm.data matches DataModel::List(xs) && final(self)@ == m.insert(
                            key@,
                            ValueModel {
                                data: DataModel::List(xs + list_model(values@)),
                                expired_at: vm.expired_at,
                            },
                        ) && n == xs.len() + values@.len(),
                    },
                    Err(e) => e == StoreError::WrongType && (l matches Some(vm) && !(vm.data
                        is List) && final(self)@ == m),
                }
            }),
    {
        let mut values = values;
        let ghost vs0 = values@;
        match self.find_idx(key.as_slice()) {
            None => {
                let n = values.len();
                self.put_fresh(key, StoredValue::new(StoredData::List(values)));
                Ok(n)
            },
            Some(i) => {
                if self.entries[i].1.is_expired_at(now) {
                    let _ = self.take_entry(i);
                    let n = values.len();
                    self.put_fresh(key, StoredValue::new(StoredData::List(values)));
                    Ok(n)
                } else {
                    let (k, val) = self.take_entry(i);
                    match val.data {
                        StoredData::List(mut l) => {
                            let ghost xs0 = l@;
                            l.append(&mut values);
                            let n = l.len();
                            proof {
                                assert(list_model(l@) =~= list_model(xs0) + list_model(vs0));
                            }
                            self.put_fresh(
                                k,
                                StoredValue { data: StoredData::List(l), expired_at: val.expired_at },
                            );
                            Ok(n)
                        },
                        other => {
                            self.put_fresh(
                                k,
                                StoredValue { data: other, expired_at: val.expired_at },
                            );
                            proof {
                                assert(final(self)@ =~= old(self)@);
                            }
                            Err(StoreError::WrongType)
                        },
                    }
                }
            },
        }
    }

    /// Prepends `values` one at a time at the head of the list under
    /// `key`, so the rightmost value ends up at index 0; creates the list
    /// if the key is absent or expired; returns the new length.
    #[verifier::loop_isolation(false)]
    pub fn lpush(&mut self, key: Vec<u8>, values: Vec<Vec<u8>>, now: u64) -> (r: Result<
        usize,
        StoreError,
    >)
        requires
            old(self).wf(),
            values@.len() >= 1,
        ensures
            final(self).wf(),
            ({
                let m = touched(old(self)@, key@, now);
                let l = live(old(self)@, key@, now);
                let pushed = list_model(values@).reverse();
                match r {
                    Ok(n) => match l {
                        None => final(self)@ == m.insert(
                            key@,
                            ValueModel { data: DataModel::List(pushed), expired_at: None },
                        ) && n == values@.len(),
                        Some(vm) => vm.data matches DataModel::List(xs) && final(self)@ == m.insert(
                            key@,
                            ValueModel {
                                data: DataModel::List(pushed + xs),
                                expired_at: vm.expired_at,
                            },
                        ) && n == xs.len() + values@.len(),
                    },
                    Err(e) => e == StoreError::WrongType && (l matches Some(vm) && !(vm.data
                        is List) && final(self)@ == m),
                }
            }),
    {
        let mut values = values;
        let ghost vs0 = values@;
        let mut nl: Vec<Vec<u8>> = Vec::new();
        proof {
            assert(values@ =~= vs0.take(values@.len() as int));
            assert(nl@ =~= vs0.skip(values@.len() as int).reverse());
        }
        loop
            invariant
                values@.len() <= vs0.len(),
                values@ == vs0.take(values@.len() as int),
                nl@ =~= vs0.skip(values@.len() as int).reverse(),
            decreases values@.len(),
        {
            let ghost vlen = values@.len() as int;
            let popped = values.pop();
            match popped {
                Some(x) => {
                    proof {
                        assert(values@ =~= vs0.take(vlen - 1));
                        assert(x == vs0[vlen - 1]);
                    }
                    nl.push(x);
                    proof {
                        assert(nl@.len() == vs0.skip(vlen - 1).reverse().len());
                        assert forall|i: int| 0 <= i < nl@.len() implies nl@[i] == vs0.skip(
                            vlen - 1,
                        ).reverse()[i] by {
                            assert(vs0.skip(vlen - 1).reverse()[i] == vs0.skip(vlen - 1)[vs0.len()
                                - (vlen - 1) - 1 - i]);
                            if i < nl@.len() - 1 {
                                assert(nl@[i] == vs0.skip(vlen).reverse()[i]);
                                assert(vs0.skip(vlen).reverse()[i] == vs0.skip(vlen)[vs0.len()
                                    - vlen - 1 - i]);
                            }
                        }
                        assert(nl@ =~= vs0.skip(vlen - 1).reverse());
                    }
                },
                None => {
                    break;
                },
            }
        }
        proof {
            assert(nl@ =~= vs0.reverse());
            assert(list_model(nl@) =~= list_model(vs0).reverse());
        }
        match self.find_idx(key.as_slice()) {
            None => {
                let n = nl.len();
                self.put_fresh(key, StoredValue::new(StoredData::List(nl)));
                Ok(n)
            },
            Some(i) => {
                if self.entries[i].1.is_expired_at(now) {
                    let _ = self.take_entry(i);
                    let n = nl.len();
                    self.put_fresh(key, StoredValue::new(StoredData::List(nl)));
                    Ok(n)
                } else {
                    let (k, val) = self.take_entry(i);
                    match val.data {
                        StoredData::List(mut l) => {
                            let ghost xs0 = l@;
                            nl.append(&mut l);
                            let n = nl.len();
                            proof {
                                assert(list_model(nl@) =~= list_model(vs0).reverse() + list_model(
                                    xs0,
                                ));
                            }
                            self.put_fresh(
                                k,
                                StoredValue {
                                    data: StoredData::List(nl),
                                    expired_at: val.expired_at,
                                },
                            );
                            Ok(n)
                        },
                        other => {
                            self.put_fresh(
                                k,
                                StoredValue { data: other, expired_at: val.expired_at },
                            );
                            proof {
                                assert(final(self)@ =~= old(self)@);
                            }
                            Err(StoreError::WrongType)
                        },
                    }
                }
            },
        }
    }

    /// The length of the list under `key`: 0 where the key is absent or
    /// expired (an expired value is dropped), WrongType where the key holds
    /// another kind.
    pub fn llen(&mut self, key: &[u8], now: u64) -> (r: Result<usize, StoreError>)
        requires
            old(self).wf(),
        ensures
            final(self).wf(),
            final(self)@ == touched(old(self)@, key@, now),
            ({
                let l = live(old(self)@, key@, now);
                match r {
                    Ok(n) => (l is None && n == 0) || (l matches Some(vm) && vm.data matches
                        DataModel::List(xs) && n == xs.len()),
                    Err(e) => e == StoreError::WrongType && (l matches Some(vm) && !(vm.data
                        is List)),
                }
            }),
    {
        match self.find_idx(key) {
            None => Ok(0),
            Some(i) => {
                if self.entries[i].1.is_expired_at(now) {
                    let _ = self.take_entry(i);
                    Ok(0)
                } else {
                    match &self.entries[i].1.data {
                        StoredData::List(l) => Ok(l.len()),
                        _ => Err(StoreError::WrongType),
                    }
                }
            },
        }
    }

    /// The elements of the list under `key` between the signed positions
    /// `start` and `end`, both inclusive, after the normalisation
    /// `range_of` describes. Absent or expired keys give an empty range.
    #[verifier::loop_isolation(false)]
    pub fn lrange(&mut self, key: &[u8], start: i64, end: i64, now: u64) -> (r: Result<
        Vec<Vec<u8>>,
        StoreError,
    >)
        requires
            old(self).wf(),
        ensures
            final(self).wf(),
            final(self)@ == touched(old(self)@, key@, now),
            ({
                let l = live(old(self)@, key@, now);
                match r {
                    Ok(v) => (l is None && v@.len() == 0) || (l matches Some(vm)
                        && vm.data matches DataModel::List(xs) && list_model(v@) == range_of(
                        xs,
                        start as int,
                        end as int,
                    )),
                    Err(e) => e == StoreError::WrongType && (l matches Some(vm) && !(vm.data
                        is List)),
                }
            }),
    {
        match self.find_idx(key) {
            None => Ok(Vec::new()),
            Some(i) => {
                if self.entries[i].1.is_expired_at(now) {
                    let _ = self.take_entry(i);
                    Ok(Vec::new())
                } else {
                    match &self.entries[i].1.data {
                        StoredData::List(l) => {
                            let len_i: i128 = l.len() as i128;
                            let s_i: i128 = if start < 0 {
                                let t = start as i128 + len_i;
                                if t < 0 {
                                    0
                                } else {
                                    t
                                }
                            } else {
                                start as i128
                            };
                            let e_i: i128 = if end < 0 {
                                let t = end as i128 + len_i;
                                if t < 0 {
                                    0
                                } else {
                                    t
                                }
                            } else {
                                if end as i128 <= len_i - 1 {
                                    end as i128
                                } else {
                                    len_i - 1
                                }
                            };
                            if s_i > e_i || s_i >= len_i {
                                proof {
                                    assert(range_of(
                                        list_model(l@),
                                        start as int,
                                        end as int,
                                    ) =~= Seq::<Seq<u8>>::empty());
                                }
                                Ok(Vec::new())
                            } else {
                                let s = s_i as usize;
                                let e = e_i as usize;
                                let mut out: Vec<Vec<u8>> = Vec::new();
                                let mut j: usize = s;
                                proof {
                                    assert(list_model(out@) =~= list_model(l@).subrange(
                                        s as int,
                                        j as int,
                                    ));
                                }
                                while j <= e
                                    invariant
                                        s <= j <= e + 1,
                                        e < l@.len(),
                                        list_model(out@) =~= list_model(l@).subrange(
                                            s as int,
                                            j as int,
                                        ),
                                    decreases e + 1 - j,
                                {
                                    out.push(vstd::slice::slice_to_vec(l[j].as_slice()));
                                    proof {
                                        assert(list_model(out@) =~= list_model(l@).subrange(
                                            s as int,
                                            j as int + 1,
                                        ));
                                    }
                                    j += 1;
                                }
                                proof {
                                    assert(list_model(out@) =~= range_of(
                                        list_model(l@),
                                        start as int,
                                        end as int,
                                    ));
                                }
                                Ok(out)
                            }
                        },
                        _ => Err(StoreError::WrongType),
                    }
                }
            },
        }
    }

    /// Removes and returns the head of the list under `key`; the pop that
    /// empties the list removes the key.
    pub fn lpop(&mut self, key: &[u8], now: u64) -> (r: Result<Option<Vec<u8>>, StoreError>)
        requires
            old(self).wf(),
        ensures
            final(self).wf(),
            ({
                let m = touched(old(self)@, key@, now);
                let l = live(old(self)@, key@, now);
                match r {
                    Ok(Some(v)) => l matches Some(vm) && (vm.data matches DataModel::List(xs)
                        && v@ == xs[0] && final(self)@ == if xs.len() == 1 {
                        m.remove(key@)
                    } else {
                        m.insert(
                            key@,
                            ValueModel {
                                data: DataModel::List(xs.drop_first()),
                                expired_at: vm.expired_at,
                            },
                        )
                    }),
                    Ok(None) => l is None && final(self)@ == m,
                    Err(e) => e == StoreError::WrongType && (l matches Some(vm) && !(vm.data
                        is List) && final(self)@ == m),
                }
            }),
    {
        proof {
            self.lemma_wf_no_empty_lists();
        }
        match self.find_idx(key) {
            None => Ok(None),
            Some(i) => {
                if self.entries[i].1.is_expired_at(now) {
                    let _ = self.take_entry(i);
                    Ok(None)
                } else {
                    let (k, val) = self.take_entry(i);
                    match val.data {
                        StoredData::List(mut l) => {
                            let head = l.remove(0);
                            if l.is_empty() {
                                Ok(Some(head))
                            } else {
                                proof {
                                    assert(list_model(l@) =~= (old(
                                        self,
                                    )@[key@].data->List_0).drop_first());
                                }
                                self.put_fresh(
                                    k,
                                    StoredValue {
                                        data: StoredData::List(l),
                                        expired_at: val.expired_at,
                                    },
                                );
                                Ok(Some(head))
                            }
                        },
                        other => {
                            self.put_fresh(
                                k,
                                StoredValue { data: other, expired_at: val.expired_at },
                            );
                            proof {
                                assert(final(self)@ =~= old(self)@);
                            }
                            Err(StoreError::WrongType)
                        },
                    }
                }
            },
        }
    }

    /// Removes and returns up to `count` elements from the head of the
    /// list under `key`. Nothing is returned for an absent or expired key;
    /// a count of 0 returns an empty batch and preserves the key; a count
    /// at or above the length returns the whole list and removes the key.
    #[verifier::loop_isolation(false)]
    pub fn lpop_count(&mut self, key: &[u8], count: usize, now: u64) -> (r: Result<
        Option<Vec<Vec<u8>>>,
        StoreError,
    >)
        requires
            old(self).wf(),
        ensures
            final(self).wf(),
            ({
                let m = touched(old(self)@, key@, now);
                let l = live(old(self)@, key@, now);
                match r {
                    Ok(Some(vs)) => l matches Some(vm) && (vm.data matches DataModel::List(xs)
                        && list_model(vs@) == xs.take(
                        if count <= xs.len() {
                            count as int
                        } else {
                            xs.len() as int
                        },
                    ) && final(self)@ == if count >= xs.len() {
                        m.remove(key@)
                    } else {
                        m.insert(
                            key@,
                            ValueModel {
                                data: DataModel::List(xs.skip(count as int)),
                                expired_at: vm.expired_at,
                            },
                        )
                    }),
                    Ok(None) => l is None && final(self)@ == m,
                    Err(e) => e == StoreError::WrongType && (l matches Some(vm) && !(vm.data
                        is List) && final(self)@ == m),
                }
            }),
    {
        match self.find_idx(key) {
            None => Ok(None),
            Some(i) => {
                if self.entries[i].1.is_expired_at(now) {
                    let _ = self.take_entry(i);
                    Ok(None)
                } else {
                    let (k, val) = self.take_entry(i);
                    match val.data {
                        StoredData::List(mut l) => {
                            let ghost xs0 = l@;
                            if count >= l.len() {
                                Ok(Some(l))
                            } else {
                                let mut front: Vec<Vec<u8>> = Vec::new();
                                let mut j: usize = 0;
                                while j < count
                                    invariant
                                        j <= count,
                                        count < xs0.len(),
                                        l@ =~= xs0.skip(j as int),
                                        front@ =~= xs0.take(j as int),
                                    decreases count - j,
                                {
                                    front.push(l.remove(0));
                                    j += 1;
                                    proof {
                                        assert(l@ =~= xs0.skip(j as int));
                                        assert(front@ =~= xs0.take(j as int));
                                    }
                                }
                                proof {
                                    assert(list_model(l@) =~= list_model(xs0).skip(count as int));
                                    assert(list_model(front@) =~= list_model(xs0).take(
                                        count as int,
                                    ));
                                }
                                self.put_fresh(
                                    k,
                                    StoredValue {
                                        data: StoredData::List(l),
                                        expired_at: val.expired_at,
                                    },
                                );
                                Ok(Some(front))
                            }
                        },
                        other => {
                            self.put_fresh(
                                k,
                                StoredValue { data: other, expired_at: val.expired_at },
                            );
                            proof {
                                assert(final(self)@ =~= old(self)@);
                            }
                            Err(StoreError::WrongType)
                        },
                    }
                }
            },
        }
    }

    /// The kind of value `key` holds at `now`: absent and expired keys
    /// report Missing.
    pub fn type_of(&self, key: &[u8], now: u64) -> (r: ValueKind)
        requires
            self.wf(),
        ensures
            r == match live(self@, key@, now) {
                None => ValueKind::Missing,
                Some(vm) => match vm.data {
                    DataModel::Bytes(_) => ValueKind::Str,
                    DataModel::List(_) => ValueKind::List,
                    DataModel::Stream(_) => ValueKind::Stream,
                },
            },
    {
        match self.find_idx(key) {
            None => ValueKind::Missing,
            Some(i) => {
                if self.entries[i].1.is_expired_at(now) {
                    ValueKind::Missing
                } else {
                    match &self.entries[i].1.data {
                        StoredData::Bytes(_) => ValueKind::Str,
                        StoredData::List(_) => ValueKind::List,
                        StoredData::Stream(_) => ValueKind::Stream,
                    }
                }
            },
        }
    }

    /// Appends a record to the stream under `key`. The record's id is
    /// `id`, or picked from `now` and the stream's top id where `id` asks
    /// for one; an id not strictly above the top id, or all zero, is
    /// refused and nothing changes.
    pub fn xadd(&mut self, key: Vec<u8>, id: IdSpec, fields: Vec<(Vec<u8>, Vec<u8>)>, now: u64)
        -> (r: Result<(u64, u64), StoreError>)
        requires
            old(self).wf(),
        ensures
            final(self).wf(),
            ({
                let m = touched(old(self)@, key@, now);
                let l = live(old(self)@, key@, now);
                match r {
                    Ok(rid) => as_stream(l) matches Some((es, exp)) && (xadd_spec(es, id, now)
                        == Ok::<(u64, u64), StoreError>(rid) && final(self)@ == m.insert(
                        key@,
                        ValueModel {
                            data: DataModel::Stream(
                                es.push(
                                    EntryModel {
                                        ms: rid.0,
                                        seq: rid.1,
                                        fields: pairs_model(fields@),
                                    },
                                ),
                            ),
                            expired_at: exp,
                        },
                    )),
                    Err(e) => final(self)@ == m && if e == StoreError::WrongType {
                        as_stream(l) is None
                    } else {
                        as_stream(l) matches Some((es, _)) && xadd_spec(es, id, now) == Err::<
                            (u64, u64),
                            StoreError,
                        >(e)
                    },
                }
            }),
    {
        match self.find_idx(key.as_slice()) {
            None => {
                match xadd_decide(Ghost(Seq::empty()), 0, 0, true, id, now) {
                    Err(e) => Err(e),
                    Ok(rid) => {
                        let mut es: Vec<StreamEntry> = Vec::new();
                        es.push(StreamEntry { ms: rid.0, seq: rid.1, fields });
                        proof {
                            assert(entries_model(es@) =~= Seq::<EntryModel>::empty().push(
                                EntryModel { ms: rid.0, seq: rid.1, fields: pairs_model(fields@) },
                            ));
                        }
                        self.put_fresh(
                            key,
                            StoredValue { data: StoredData::Stream(es), expired_at: None },
                        );
                        Ok(rid)
                    },
                }
            },
            Some(i) => {
                if self.entries[i].1.is_expired_at(now) {
                    let _ = self.take_entry(i);
                    match xadd_decide(Ghost(Seq::empty()), 0, 0, true, id, now) {
                        Err(e) => Err(e),
                        Ok(rid) => {
                            let mut es: Vec<StreamEntry> = Vec::new();
                            es.push(StreamEntry { ms: rid.0, seq: rid.1, fields });
                            proof {
                                assert(entries_model(es@) =~= Seq::<EntryModel>::empty().push(
                                    EntryModel {
                                        ms: rid.0,
                                        seq: rid.1,
                                        fields: pairs_model(fields@),
                                    },
                                ));
                            }
                            self.put_fresh(
                                key,
                                StoredValue { data: StoredData::Stream(es), expired_at: None },
                            );
                            Ok(rid)
                        },
                    }
                } else {
                    let decision = match &self.entries[i].1.data {
                        StoredData::Stream(es) => {
                            let ghost ms0 = entries_model(es@);
                            if es.len() == 0 {
                                Ok((true, 0u64, 0u64))
                            } else {
                                let last = &es[es.len() - 1];
                                proof {
                                    assert(top_id(ms0) == (last.ms, last.seq));
                                }
                                Ok((false, last.ms, last.seq))
                            }
                        },
                        _ => Err(()),
                    };
                    match decision {
                        Err(_) => Err(StoreError::WrongType),
                        Ok((empty, top_ms, top_seq)) => {
                            let ghost ms0 = self@[key@].data->Stream_0;
                            match xadd_decide(Ghost(ms0), top_ms, top_seq, empty, id, now) {
                                Err(e) => Err(e),
                                Ok(rid) => {
                                    let (k, val) = self.take_entry(i);
                                    match val.data {
                                        StoredData::Stream(mut es) => {
                                            es.push(
                                                StreamEntry { ms: rid.0, seq: rid.1, fields },
                                            );
                                            proof {
                                                assert(entries_model(es@) =~= ms0.push(
                                                    EntryModel {
                                                        ms: rid.0,
                                                        seq: rid.1,
                                                        fields: pairs_model(fields@),
                                                    },
                                                ));
                                                lemma_xadd_preserves_order(ms0, id, now, rid,
                                                    pairs_model(fields@));
                                            }
                                            self.put_fresh(
                                                k,
                                                StoredValue {
                                                    data: StoredData::Stream(es),
                                                    expired_at: val.expired_at,
                                                },
                                            );
                                            Ok(rid)
                                        },
                                        _ => {
                                            proof {
                                                assert(false);
                                            }
                                            Err(StoreError::WrongType)
                                        },
                                    }
                                },
                            }
                        },
                    }
                }
            },
        }
    }

    /// The records of the stream under `key` with ids between `start` and
    /// `end` inclusive, in ascending id order. An absent or expired key
    /// holds no records.
    #[verifier::loop_isolation(false)]
    pub fn xrange(&mut self, key: &[u8], start: (u64, u64), end: (u64, u64), now: u64) -> (r:
        Result<Vec<StreamEntry>, StoreError>)
        requires
            old(self).wf(),
        ensures
            final(self).wf(),
            final(self)@ == touched(old(self)@, key@, now),
            ({
                let l = live(old(self)@, key@, now);
                match r {
                    Ok(v) => as_stream(l) matches Some((es, _)) && entries_model(v@)
                        == range_entries(es, start, end),
                    Err(e) => e == StoreError::WrongType && as_stream(l) is None,
                }
            }),
    {
        match self.find_idx(key) {
            None => Ok(Vec::new()),
            Some(i) => {
                if self.entries[i].1.is_expired_at(now) {
                    let _ = self.take_entry(i);
                    Ok(Vec::new())
                } else {
                    match &self.entries[i].1.data {
                        StoredData::Stream(es) => {
                            let mut out: Vec<StreamEntry> = Vec::new();
                            let mut j: usize = 0;
                            proof {
                                assert(entries_model(out@) =~= range_entries(
                                    entries_model(es@).take(0),
                                    start,
                                    end,
                                ));
                            }
                            while j < es.len()
                                invariant
                                    j <= es@.len(),
                                    entries_model(out@) =~= range_entries(
                                        entries_model(es@).take(j as int),
                                        start,
                                        end,
                                    ),
                                decreases es@.len() - j,
                            {
                                let e = &es[j];
                                let ghost pre = entries_model(es@).take(j as int);
                                proof {
                                    assert(entries_model(es@).take(j as int + 1).drop_last()
                                        =~= pre);
                                    assert(entries_model(es@).take(j as int + 1).last()
                                        == entry_model(es@[j as int]));
                                }
                                if id_le_parts(start.0, start.1, e.ms, e.seq) && id_le_parts(
                                    e.ms,
                                    e.seq,
                                    end.0,
                                    end.1,
                                ) {
                                    out.push(copy_entry(e));
                                    proof {
                                        assert(entries_model(out@) =~= range_entries(
                                            entries_model(es@).take(j as int + 1),
                                            start,
                                            end,
                                        ));
                                    }
                                }
                                j += 1;
                            }
                            proof {
                                assert(entries_model(es@).take(es@.len() as int) =~= entries_model(
                                    es@,
                                ));
                            }
                            Ok(out)
                        },
                        _ => Err(StoreError::WrongType),
                    }
                }
            },
        }
    }

    /// For each named key in order: the records of its stream with ids
    /// strictly above the matching id. Streams with none, and absent or
    /// expired keys, are left out; a key of another kind refuses the whole
    /// read.
    #[verifier::loop_isolation(false)]
    pub fn xread(&self, keys: &Vec<Vec<u8>>, ids: &Vec<(u64, u64)>, now: u64) -> (r: Result<
        Vec<(Vec<u8>, Vec<StreamEntry>)>,
        StoreError,
    >)
        requires
            self.wf(),
            keys@.len() == ids@.len(),
        ensures
            match r {
                Ok(v) => xread_spec(self@, keys@.map_values(|k: Vec<u8>| k@), ids@, now) == Ok::<
                    Seq<(Seq<u8>, Seq<EntryModel>)>,
                    StoreError,
                >(xread_model(v@)),
                Err(e) => xread_spec(self@, keys@.map_values(|k: Vec<u8>| k@), ids@, now) == Err::<
                    Seq<(Seq<u8>, Seq<EntryModel>)>,
                    StoreError,
                >(e),
            },
    {
        let ghost gkeys = keys@.map_values(|k: Vec<u8>| k@);
        let mut out: Vec<(Vec<u8>, Vec<StreamEntry>)> = Vec::new();
        let mut j: usize = 0;
        proof {
            assert(gkeys.skip(0) =~= gkeys);
            assert(ids@.skip(0) =~= ids@);
            assert(xread_model(out@) =~= Seq::<(Seq<u8>, Seq<EntryModel>)>::empty());
        }
        while j < keys.len()
            invariant
                j <= keys@.len(),
                xread_spec(self@, gkeys, ids@, now) == match xread_spec(
                    self@,
                    gkeys.skip(j as int),
                    ids@.skip(j as int),
                    now,
                ) {
                    Ok(t) => Ok::<Seq<(Seq<u8>, Seq<EntryModel>)>, StoreError>(
                        xread_model(out@) + t,
                    ),
                    Err(e) => Err::<Seq<(Seq<u8>, Seq<EntryModel>)>, StoreError>(e),
                },
            decreases keys@.len() - j,
        {
            proof {
                assert(gkeys.skip(j as int)[0] == keys@[j as int]@);
                assert(gkeys.skip(j as int).drop_first() =~= gkeys.skip(j as int + 1));
                assert(ids@.skip(j as int).drop_first() =~= ids@.skip(j as int + 1));
            }
            let key = &keys[j];
            let ghost stepped = xread_spec(self@, gkeys.skip(j as int + 1), ids@.skip(j as int + 1), now);
            match self.find_idx(key.as_slice()) {
                None => {
                    proof {
                        assert(xread_spec(self@, gkeys.skip(j as int), ids@.skip(j as int), now)
                            == stepped);
                    }
                },
                Some(i) => {
                    if self.entries[i].1.is_expired_at(now) {
                        // expired: observed as absent, left for a mutating touch
                        proof {
                            assert(live(self@, gkeys[j as int], now) is None);
                            assert(xread_spec(
                                self@,
                                gkeys.skip(j as int),
                                ids@.skip(j as int),
                                now,
                            ) == stepped);
                        }
                    } else {
                        match &self.entries[i].1.data {
                            StoredData::Stream(es) => {
                                let ghost sel_spec = entries_after(
                                    entries_model(es@),
                                    ids@[j as int],
                                );
                                let sel = entries_after_vec(es, ids[j]);
                                if sel.len() > 0 {
                                    let ghost out0 = out@;
                                    out.push((vstd::slice::slice_to_vec(key.as_slice()), sel));
                                    proof {
                                        assert(xread_model(out@) =~= xread_model(out0) + seq![
                                            (keys@[j as int]@, entries_model(sel@)),
                                        ]);
                                        if stepped is Ok {
                                            let t = stepped->Ok_0;
                                            assert((xread_model(out0) + seq![
                                                (keys@[j as int]@, entries_model(sel@)),
                                            ]) + t =~= xread_model(out0) + (seq![
                                                (keys@[j as int]@, entries_model(sel@)),
                                            ] + t));
                                        }
                                    }
                                } else {
                                    proof {
                                        assert(sel_spec.len() == 0);
                                        assert(xread_spec(
                                            self@,
                                            gkeys.skip(j as int),
                                            ids@.skip(j as int),
                                            now,
                                        ) == stepped);
                                    }
                                }
                            },
                            _ => {
                                proof {
                                    assert(xread_spec(
                                        self@,
                                        gkeys.skip(j as int),
                                        ids@.skip(j as int),
                                        now,
                                    ) == Err::<Seq<(Seq<u8>, Seq<EntryModel>)>, StoreError>(
                                        StoreError::WrongType,
                                    ));
                                }
                                return Err(StoreError::WrongType);
                            },
                        }
                    }
                },
            }
            j += 1;
        }
        proof {
            assert(gkeys.skip(keys@.len() as int) =~= Seq::<Seq<u8>>::empty());
            assert(ids@.skip(keys@.len() as int) =~= Seq::<(u64, u64)>::empty());
            assert(xread_model(out@) + Seq::<(Seq<u8>, Seq<EntryModel>)>::empty() =~= xread_model(
                out@,
            ));
        }
        Ok(out)
    }

    /// Whether `key` holds a live value at `now`. Expired values count as
    /// absent but are left for the next mutating touch to drop.
    pub fn key_exists(&self, key: &[u8], now: u64) -> (r: bool)
        requires
            self.wf(),
        ensures
            r == (live(self@, key@, now) is Some),
    {
        match self.find_idx(key) {
            Some(i) => !self.entries[i].1.is_expired_at(now),
            None => false,
        }
    }
}

/// Why a storage operation was refused.
#[derive(Debug, PartialEq, Eq)]
pub enum StoreError {
    /// The key holds a value of another kind.
    WrongType,
    /// A stream id of all zeroes was offered.
    IdZero,
    /// A stream id at or below the stream's top id was offered.
    IdNotGreater,
}

/// The kind a key currently holds.
#[derive(Debug, PartialEq, Eq)]
pub enum ValueKind {
    Missing,
    Str,
    List,
    Stream,
}

/// The start position `start` names in a list of length `len`: negative
/// positions count from the end and clamp at the front.
pub open spec fn norm_start(start: int, len: int) -> int {
    if start < 0 {
        if start + len < 0 {
            0
        } else {
            start + len
        }
    } else {
        start
    }
}

/// The end position `end` names in a list of length `len`: negative
/// positions count from the end and clamp at the front, non-negative ones
/// clamp at the last element.
pub open spec fn norm_end(end: int, len: int) -> int {
    if end < 0 {
        if end + len < 0 {
            0
        } else {
            end + len
        }
    } else {
        if end <= len - 1 {
            end
        } else {
            len - 1
        }
    }
}

/// The inclusive range of `xs` between the signed positions `start` and
/// `end`: empty when the normalised start passes the normalised end or the
/// list's length.
pub open spec fn range_of(xs: Seq<Seq<u8>>, start: int, end: int) -> Seq<Seq<u8>> {
    let len = xs.len() as int;
    let s = norm_start(start, len);
    let e = norm_end(end, len);
    if s > e || s >= len {
        Seq::empty()
    } else {
        xs.subrange(s, e + 1)
    }
}

/// Decides an append's id against a stream summarised by its top id and
/// emptiness.
fn xadd_decide(Ghost(ms): Ghost<Seq<EntryModel>>, top_ms: u64, top_seq: u64, empty: bool,
    id: IdSpec, now: u64) -> (r: Result<(u64, u64), StoreError>)
    requires
        top_id(ms) == (top_ms, top_seq),
        empty == (ms.len() == 0),
    ensures
        r == xadd_spec(ms, id, now),
{
    let cand: (u64, u64) = match id {
        IdSpec::Explicit(ms_part, sq_part) => (ms_part, sq_part),
        IdSpec::Auto => {
            if empty || now > top_ms {
                (now, 0)
            } else if top_seq < u64::MAX {
                (now, top_seq + 1)
            } else {
                return Err(StoreError::IdNotGreater);
            }
        },
    };
    if cand.0 == 0 && cand.1 == 0 {
        return Err(StoreError::IdZero);
    }
    let greater = top_ms < cand.0 || (top_ms == cand.0 && top_seq < cand.1);
    if !greater {
        return Err(StoreError::IdNotGreater);
    }
    Ok(cand)
}

/// Appending a record whose id the checks accepted keeps the stream
/// strictly ascending.
proof fn lemma_xadd_preserves_order(
    ms: Seq<EntryModel>,
    id: IdSpec,
    now: u64,
    rid: (u64, u64),
    fields: Seq<(Seq<u8>, Seq<u8>)>,
)
    requires
        stream_ordered(ms),
        xadd_spec(ms, id, now) == Ok::<(u64, u64), StoreError>(rid),
    ensures
        stream_ordered(ms.push(EntryModel { ms: rid.0, seq: rid.1, fields })),
{
    let newm = ms.push(EntryModel { ms: rid.0, seq: rid.1, fields });
    assert forall|i: int, j: int| 0 <= i < j < newm.len() implies id_lt(
        entry_id(#[trigger] newm[i]),
        entry_id(#[trigger] newm[j]),
    ) by {
        if j == newm.len() - 1 {
            if i < ms.len() - 1 {
                assert(id_lt(entry_id(ms[i]), entry_id(ms[ms.len() - 1])));
            }
        }
    }
    assert forall|i: int| 0 <= i < newm.len() implies id_lt(
        (0u64, 0u64),
        entry_id(#[trigger] newm[i]),
    ) by {
        if i == newm.len() - 1 && ms.len() > 0 {
            assert(id_lt((0u64, 0u64), entry_id(ms[ms.len() - 1])));
        }
    }
}

/// Whether `(ams, asq)` is at or below `(bms, bsq)` in stream-id order.
pub fn id_le_parts(ams: u64, asq: u64, bms: u64, bsq: u64) -> (r: bool)
    ensures
        r == ((ams, asq) == (bms, bsq) || id_lt((ams, asq), (bms, bsq))),
{
    ams < bms || (ams == bms && asq <= bsq)
}

/// An owned copy of one stream record.
#[verifier::loop_isolation(false)]
pub fn copy_entry(e: &StreamEntry) -> (r: StreamEntry)
    ensures
        entry_model(r) == entry_model(*e),
{
    let mut fields: Vec<(Vec<u8>, Vec<u8>)> = Vec::new();
    let mut i: usize = 0;
    while i < e.fields.len()
        invariant
            i <= e.fields@.len(),
            pairs_model(fields@) =~= pairs_model(e.fields@).take(i as int),
        decreases e.fields@.len() - i,
    {
        let p = &e.fields[i];
        fields.push((vstd::slice::slice_to_vec(p.0.as_slice()), vstd::slice::slice_to_vec(
            p.1.as_slice(),
        )));
        proof {
            assert(pairs_model(fields@) =~= pairs_model(e.fields@).take(i as int + 1));
        }
        i += 1;
    }
    proof {
        assert(pairs_model(e.fields@).take(e.fields@.len() as int) =~= pairs_model(e.fields@));
    }
    StreamEntry { ms: e.ms, seq: e.seq, fields }
}

/// Copies out the records of `es` with ids strictly above `id`.
#[verifier::loop_isolation(false)]
pub fn entries_after_vec(es: &Vec<StreamEntry>, id: (u64, u64)) -> (r: Vec<StreamEntry>)
    ensures
        entries_model(r@) == entries_after(entries_model(es@), id),
{
    let mut out: Vec<StreamEntry> = Vec::new();
    let mut j: usize = 0;
    proof {
        assert(entries_model(out@) =~= entries_after(entries_model(es@).take(0), id));
    }
    while j < es.len()
        invariant
            j <= es@.len(),
            entries_model(out@) =~= entries_after(entries_model(es@).take(j as int), id),
        decreases es@.len() - j,
    {
        let e = &es[j];
        proof {
            assert(entries_model(es@).take(j as int + 1).drop_last() =~= entries_model(es@).take(
                j as int,
            ));
            assert(entries_model(es@).take(j as int + 1).last() == entry_model(es@[j as int]));
        }
        if !id_le_parts(e.ms, e.seq, id.0, id.1) {
            out.push(copy_entry(e));
            proof {
                assert(entries_model(out@) =~= entries_after(
                    entries_model(es@).take(j as int + 1),
                    id,
                ));
            }
        }
        j += 1;
    }
    proof {
        assert(entries_model(es@).take(es@.len() as int) =~= entries_model(es@));
    }
    out
}

/// Model of an assembled read reply.
pub open spec fn xread_model(v: Seq<(Vec<u8>, Vec<StreamEntry>)>) -> Seq<
    (Seq<u8>, Seq<EntryModel>),
> {
    v.map_values(|p: (Vec<u8>, Vec<StreamEntry>)| (p.0@, entries_model(p.1@)))
}

/// What a read of `keys` against `ids` observes in keyspace `m` at `now`:
/// one pair per stream holding records above its id, streams with none and
/// absent keys left out, and a refusal where a key holds another kind.
pub open spec fn xread_spec(
    m: Map<Seq<u8>, ValueModel>,
    keys: Seq<Seq<u8>>,
    ids: Seq<(u64, u64)>,
    now: u64,
) -> Result<Seq<(Seq<u8>, Seq<EntryModel>)>, StoreError>
    decreases keys.len(),
{
    if keys.len() == 0 {
        Ok(Seq::empty())
    } else {
        match live(m, keys[0], now) {
            None => xread_spec(m, keys.drop_first(), ids.drop_first(), now),
            Some(vm) => match vm.data {
                DataModel::Stream(es) => {
                    let sel = entries_after(es, ids[0]);
                    match xread_spec(m, keys.drop_first(), ids.drop_first(), now) {
                        Ok(tail) => Ok(
                            if sel.len() == 0 {
                                tail
                            } else {
                                seq![(keys[0], sel)] + tail
                            },
                        ),
                        Err(e) => Err(e),
                    }
                },
                _ => Err(StoreError::WrongType),
            },
        }
    }
}

/// The deadline `count` units of `unit_ms` milliseconds past `now`,
/// saturating at the clock's end.
pub open spec fn deadline_of(now: u64, count: u64, unit_ms: u64) -> u64 {
    if now + count * unit_ms > u64::MAX {
        u64::MAX
    } else {
        (now + count * unit_ms) as u64
    }
}

} // verus!
