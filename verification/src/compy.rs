use vstd::prelude::*;
use crate::bucket::{
    Bucket, BucketView, columns_for, size_lookup, empty_bucket, grown_cap, last_bytes,
    lemma_columns_for, lemma_last_bytes, copy_bytes, column_index, lemma_column_index, iterated,
};
use crate::id_set::IdSet;
use crate::compy_builder::{
    type_lookup, registry_wf, lookup_type, type_id_of, type_ids_equal, lemma_type_lookup,
};
use crate::key::{CompId, Key, positions_below, lemma_positions, bit_of};
use std::any::TypeId;

verus! {

/// What a `Compy` holds, as plain values.
pub ghost struct CompyView {
    /// The (type, id) registrations, oldest first.
    pub types: Seq<(TypeId, CompId)>,
    /// The (id, byte size) registrations, oldest first.
    pub sizes: Seq<(CompId, usize)>,
    /// The keys of the buckets, in increasing order of their bits.
    pub keys: Seq<Key>,
    /// The bucket of each key.
    pub buckets: Seq<BucketView>,
}

/// Whether a bucket of key `key` is visited by an iteration that asks for the
/// members of `pkey` and excludes those of `nkey`.
pub open spec fn matches(key: Key, pkey: Key, nkey: Key) -> bool {
    pkey@.subset_of(key@) && key@.disjoint(nkey@)
}

/// An iteration visits exactly the buckets whose key has every member of `pkey`
/// and none of `nkey`; in particular the bucket whose key is `pkey` itself is
/// visited whenever `pkey` and `nkey` share no member, and every bucket is
/// visited when both keys are empty.
pub proof fn lemma_matches(key: Key, pkey: Key, nkey: Key)
    ensures
        matches(key, pkey, nkey) <==> (forall|i: nat| pkey@.contains(i) ==> key@.contains(i))
            && (forall|i: nat| key@.contains(i) ==> !nkey@.contains(i)),
        pkey@.disjoint(nkey@) ==> matches(pkey, pkey, nkey),
        pkey@ == Set::<nat>::empty() && nkey@ == Set::<nat>::empty() ==> matches(key, pkey, nkey),
{
}

/// The sum of `f` over the buckets in `bs`.
pub open spec fn sum_by(bs: Seq<BucketView>, f: spec_fn(BucketView) -> nat) -> nat
    decreases bs.len(),
{
    if bs.len() == 0 {
        0
    } else {
        sum_by(bs.drop_last(), f) + f(bs.last())
    }
}

/// The number of stored entities over all buckets in `bs`.
pub open spec fn total_len(bs: Seq<BucketView>) -> nat {
    sum_by(bs, |b: BucketView| b.len)
}

/// The number of entities waiting for insertion over all buckets in `bs`.
pub open spec fn total_pending(bs: Seq<BucketView>) -> nat {
    sum_by(bs, |b: BucketView| b.pending_len)
}

/// The number of columns over all buckets in `bs`.
pub open spec fn total_columns(bs: Seq<BucketView>) -> nat {
    sum_by(bs, |b: BucketView| b.columns.len())
}

/// A sum over a prefix is at most the sum over the whole sequence.
proof fn lemma_sum_prefix(bs: Seq<BucketView>, f: spec_fn(BucketView) -> nat, n: int)
    requires
        0 <= n <= bs.len(),
    ensures
        sum_by(bs.take(n), f) <= sum_by(bs, f),
        n < bs.len() ==> sum_by(bs.take(n + 1), f) == sum_by(bs.take(n), f) + f(bs[n]),
    decreases bs.len(),
{
    if n < bs.len() {
        assert(bs.take(n + 1).drop_last() =~= bs.take(n));
        assert(bs.drop_last().take(n) =~= bs.take(n));
        lemma_sum_prefix(bs.drop_last(), f, n);
    } else {
        assert(bs.take(n) =~= bs);
    }
}

/// Replacing one bucket changes a sum by the difference of the two.
proof fn lemma_sum_update(
    bs: Seq<BucketView>,
    f: spec_fn(BucketView) -> nat,
    p: int,
    x: BucketView,
)
    requires
        0 <= p < bs.len(),
    ensures
        sum_by(bs.update(p, x), f) + f(bs[p]) == sum_by(bs, f) + f(x),
    decreases bs.len(),
{
    if p < bs.len() - 1 {
        assert(bs.update(p, x).drop_last() =~= bs.drop_last().update(p, x));
        lemma_sum_update(bs.drop_last(), f, p, x);
    } else {
        assert(bs.update(p, x).drop_last() =~= bs.drop_last());
    }
}

/// Inserting a bucket adds its value to a sum.
proof fn lemma_sum_insert(
    bs: Seq<BucketView>,
    f: spec_fn(BucketView) -> nat,
    p: int,
    x: BucketView,
)
    requires
        0 <= p <= bs.len(),
    ensures
        sum_by(bs.insert(p, x), f) == sum_by(bs, f) + f(x),
    decreases bs.len(),
{
    if p < bs.len() {
        assert(bs.insert(p, x).drop_last() =~= bs.drop_last().insert(p, x));
        lemma_sum_insert(bs.drop_last(), f, p, x);
    } else {
        assert(bs.insert(p, x).drop_last() =~= bs);
    }
}

/// The sum of zeros is zero.
proof fn lemma_sum_zero(bs: Seq<BucketView>)
    ensures
        sum_by(bs, |b: BucketView| 0nat) == 0,
    decreases bs.len(),
{
    if bs.len() > 0 {
        lemma_sum_zero(bs.drop_last());
    }
}

/// Sums of pointwise sums add up.
proof fn lemma_sum_pointwise(
    bs: Seq<BucketView>,
    cs: Seq<BucketView>,
    f: spec_fn(BucketView) -> nat,
    g: spec_fn(BucketView) -> nat,
    h: spec_fn(BucketView) -> nat,
)
    requires
        bs.len() == cs.len(),
        forall|i: int| 0 <= i < bs.len() ==> #[trigger] h(cs[i]) == f(bs[i]) + g(bs[i]),
    ensures
        sum_by(cs, h) == sum_by(bs, f) + sum_by(bs, g),
    decreases bs.len(),
{
    if bs.len() > 0 {
        lemma_sum_pointwise(bs.drop_last(), cs.drop_last(), f, g, h);
        assert(h(cs[cs.len() - 1]) == f(bs[bs.len() - 1]) + g(bs[bs.len() - 1]));
    }
}

/// The members of the key made of the ids registered for the types `ts`.
pub open spec fn key_of(types: Seq<(TypeId, CompId)>, ts: Seq<TypeId>) -> Set<nat>
    decreases ts.len(),
{
    if ts.len() == 0 {
        Set::empty()
    } else {
        key_of(types, ts.drop_last()).union(type_lookup(types, ts.last()).unwrap()@)
    }
}

/// Whether every type in `ts` is registered.
pub open spec fn all_registered(types: Seq<(TypeId, CompId)>, ts: Seq<TypeId>) -> bool {
    forall|k: int| 0 <= k < ts.len() ==> type_lookup(types, #[trigger] ts[k]).is_some()
}

/// Whether `r` is the key of the id `l` found for a type (`None` for `None`).
pub open spec fn key_of_lookup(r: Option<Key>, l: Option<CompId>) -> bool {
    match (r, l) {
        (Some(k), Some(id)) => k@ == id@,
        (None, None) => true,
        _ => false,
    }
}

/// The types of the components `comps`, in order.
pub open spec fn type_list(comps: Seq<(TypeId, Vec<u8>)>) -> Seq<TypeId> {
    comps.map_values(|c: (TypeId, Vec<u8>)| c.0)
}

/// The bytes of the last component in `comps` whose type is registered with id `id`.
pub open spec fn component_bytes(
    types: Seq<(TypeId, CompId)>,
    comps: Seq<(TypeId, Vec<u8>)>,
    id: CompId,
) -> Option<Seq<u8>>
    decreases comps.len(),
{
    if comps.len() == 0 {
        None
    } else if type_lookup(types, comps.last().0) == Some(id) {
        Some(comps.last().1@)
    } else {
        component_bytes(types, comps.drop_last(), id)
    }
}

/// Whether every component in `comps` has a registered type and as many bytes as
/// the size registered for the type's id.
pub open spec fn insertable(v: CompyView, comps: Seq<(TypeId, Vec<u8>)>) -> bool {
    forall|k: int|
        0 <= k < comps.len() ==> match type_lookup(v.types, (#[trigger] comps[k]).0) {
            Some(id) => size_lookup(v.sizes, id) matches Some(sz) && comps[k].1@.len() == sz,
            None => false,
        }
}

/// `b` with one more entity waiting: each column gets the bytes of the last
/// component of the column's id.
pub open spec fn queued(
    b: BucketView,
    types: Seq<(TypeId, CompId)>,
    comps: Seq<(TypeId, Vec<u8>)>,
) -> BucketView {
    BucketView {
        pending_len: b.pending_len + 1,
        pending_cap: grown_cap(b.pending_len, 1, b.pending_cap),
        pending: Seq::new(
            b.columns.len(),
            |j: int| b.pending[j].push(component_bytes(types, comps, b.columns[j].0).unwrap()),
        ),
        ..b
    }
}

/// `v1` is `v0` after queueing the entity made of `comps` in the bucket at
/// position `p`: the bucket of the key of the components' types, which is made
/// empty and put in key order if `v0` has none.
pub open spec fn inserted_at(
    v0: CompyView,
    v1: CompyView,
    comps: Seq<(TypeId, Vec<u8>)>,
    p: int,
) -> bool {
    &&& v1.types == v0.types
    &&& v1.sizes == v0.sizes
    &&& 0 <= p < v1.keys.len()
    &&& p <= v0.keys.len()
    &&& v1.keys[p]@ == key_of(v0.types, type_list(comps))
    &&& if v0.keys.contains(v1.keys[p]) {
        &&& v1.keys == v0.keys
        &&& v1.buckets == v0.buckets.update(p, queued(v0.buckets[p], v0.types, comps))
    } else {
        &&& v1.keys == v0.keys.insert(p, v1.keys[p])
        &&& v1.buckets == v0.buckets.insert(
            p,
            queued(
                empty_bucket(columns_for(v0.sizes, positions_below(v1.keys[p].bits(), 64))),
                v0.types,
                comps,
            ),
        )
    }
}

/// `v1` is `v0` after every bucket moved its waiting entities into its store.
pub open spec fn drained_all(v0: CompyView, v1: CompyView) -> bool {
    &&& v1.types == v0.types
    &&& v1.sizes == v0.sizes
    &&& v1.keys == v0.keys
    &&& v1.buckets == Seq::new(v0.buckets.len(), |p: int| drained(v0.buckets[p]))
}

/// An inserted entity is stored once the pending inserts are performed: it is
/// the last entity of the bucket of its key, each of its components is the last
/// one given for the component's id, and the bucket holds one entity more than
/// before, counting those that were already waiting.
pub proof fn lemma_inserted_entity_is_stored(
    v0: CompyView,
    v1: CompyView,
    v2: CompyView,
    comps: Seq<(TypeId, Vec<u8>)>,
    p: int,
)
    requires
        v0.wf(),
        inserted_at(v0, v1, comps, p),
        drained_all(v1, v2),
    ensures
        v2.keys[p]@ == key_of(v0.types, type_list(comps)),
        v2.buckets[p].len >= 1,
        forall|j: int|
            0 <= j < v2.buckets[p].columns.len() ==> (#[trigger] v2.buckets[p].data[j]).last()
                == component_bytes(v0.types, comps, v2.buckets[p].columns[j].0).unwrap(),
        v0.keys.contains(v2.keys[p]) ==> v2.buckets[p].len == v0.buckets[p].len
            + v0.buckets[p].pending_len + 1,
        !v0.keys.contains(v2.keys[p]) ==> v2.buckets[p].len == 1,
{
    let b1 = v1.buckets[p];
    let b0 = if v0.keys.contains(v1.keys[p]) {
        v0.buckets[p]
    } else {
        empty_bucket(columns_for(v0.sizes, positions_below(v1.keys[p].bits(), 64)))
    };
    assert(b1 == queued(b0, v0.types, comps));
    if v0.keys.contains(v1.keys[p]) {
        assert(b0.shape());
    }
    assert forall|j: int| 0 <= j < v2.buckets[p].columns.len() implies (
    #[trigger] v2.buckets[p].data[j]).last() == component_bytes(
        v0.types,
        comps,
        v2.buckets[p].columns[j].0,
    ).unwrap() by {
        let _c = b0.columns[j];
        assert(b1.pending[j] == b0.pending[j].push(
            component_bytes(v0.types, comps, b0.columns[j].0).unwrap(),
        ));
        assert(v2.buckets[p].data[j] == b1.data[j] + b1.pending[j]);
    }
}

/// Every member of the key of `ts` comes from the id of one of the types.
proof fn lemma_key_of_member(types: Seq<(TypeId, CompId)>, ts: Seq<TypeId>, p: nat)
    requires
        key_of(types, ts).contains(p),
    ensures
        exists|k: int| 0 <= k < ts.len() && type_lookup(types, #[trigger] ts[k]).unwrap()@.contains(p),
    decreases ts.len(),
{
    if ts.len() > 0 {
        if key_of(types, ts.drop_last()).contains(p) {
            lemma_key_of_member(types, ts.drop_last(), p);
            let k = choose|k: int|
                0 <= k < ts.drop_last().len() && type_lookup(
                    types,
                    #[trigger] ts.drop_last()[k],
                ).unwrap()@.contains(p);
            assert(ts[k] == ts.drop_last()[k]);
        } else {
            assert(ts[ts.len() - 1] == ts.last());
        }
    }
}

/// The byte strings gathered for an insert give the same bytes per id as the
/// components they were gathered from.
proof fn lemma_component_bytes(
    types: Seq<(TypeId, CompId)>,
    comps: Seq<(TypeId, Vec<u8>)>,
    data: Seq<(CompId, Vec<u8>)>,
    id: CompId,
)
    requires
        data.len() == comps.len(),
        forall|k: int|
            0 <= k < comps.len() ==> Some((#[trigger] data[k]).0) == type_lookup(types, comps[k].0)
                && data[k].1@ == comps[k].1@,
    ensures
        last_bytes(data, id) == component_bytes(types, comps, id),
    decreases comps.len(),
{
    if comps.len() > 0 {
        let n = comps.len() - 1;
        assert(data[n] == data.last());
        assert(comps[n] == comps.last());
        assert forall|k: int| 0 <= k < comps.drop_last().len() implies Some(
            (#[trigger] data.drop_last()[k]).0,
        ) == type_lookup(types, comps.drop_last()[k].0) && data.drop_last()[k].1@
            == comps.drop_last()[k].1@ by {
            assert(data.drop_last()[k] == data[k]);
            assert(comps.drop_last()[k] == comps[k]);
        }
        lemma_component_bytes(types, comps.drop_last(), data.drop_last(), id);
    }
}

/// The ids gathered for an insert cover every member of its key: each member is
/// the id of some gathered component, and has a registered size.
proof fn lemma_component_ids(
    v: CompyView,
    comps: Seq<(TypeId, Vec<u8>)>,
    data: Seq<(CompId, Vec<u8>)>,
    kset: Set<nat>,
    key: Key,
)
    requires
        v.wf(),
        insertable(v, comps),
        data.len() == comps.len(),
        forall|m: int|
            0 <= m < comps.len() ==> Some((#[trigger] data[m]).0) == type_lookup(v.types, comps[m].0)
                && data[m].1@ == comps[m].1@,
        kset == key_of(v.types, type_list(comps)),
        key@ == kset,
    ensures
        forall|p: nat|
            #[trigger] key@.contains(p) ==> exists|m: int|
                0 <= m < data.len() && (#[trigger] data[m]).0 == CompId::at(p),
        forall|p: nat| #[trigger] key@.contains(p) ==> size_lookup(v.sizes, CompId::at(p)).is_some(),
        forall|k: int|
            0 <= k < positions_below(key.bits(), 64).len() ==> size_lookup(
                v.sizes,
                CompId::at(#[trigger] positions_below(key.bits(), 64)[k]),
            ).is_some(),
{
    let ts = type_list(comps);
    assert forall|p: nat| #[trigger] key@.contains(p) implies exists|m: int|
        0 <= m < data.len() && (#[trigger] data[m]).0 == CompId::at(p) && size_lookup(
            v.sizes,
            CompId::at(p),
        ).is_some() by {
        lemma_key_of_member(v.types, ts, p);
        let m = choose|m: int|
            0 <= m < ts.len() && type_lookup(v.types, #[trigger] ts[m]).unwrap()@.contains(p);
        assert(ts[m] == comps[m].0);
        let _c = comps[m];
        let id = type_lookup(v.types, comps[m].0).unwrap();
        lemma_type_lookup(v.types, comps[m].0);
        let q = choose|q: int| 0 <= q < v.types.len() && #[trigger] v.types[q].1 == id;
        CompId::lemma_slot_at(id, p);
        assert(data[m].0 == id);
    }
    lemma_positions(key.bits(), 64);
    assert forall|k: int|
        0 <= k < positions_below(key.bits(), 64).len() implies size_lookup(
        v.sizes,
        CompId::at(#[trigger] positions_below(key.bits(), 64)[k]),
    ).is_some() by {
        let p = positions_below(key.bits(), 64)[k];
        assert(bit_of(key.bits(), p));
        assert(key@.contains(p));
    }
}

/// The bucket an insert lands in gets, for each of its columns, a byte string of
/// the column's size.
proof fn lemma_queue_ready(
    v: CompyView,
    p: int,
    comps: Seq<(TypeId, Vec<u8>)>,
    data: Seq<(CompId, Vec<u8>)>,
)
    requires
        v.wf(),
        0 <= p < v.keys.len(),
        insertable(v, comps),
        data.len() == comps.len(),
        forall|m: int|
            0 <= m < comps.len() ==> Some((#[trigger] data[m]).0) == type_lookup(v.types, comps[m].0)
                && data[m].1@ == comps[m].1@,
        forall|q: nat|
            #[trigger] v.keys[p]@.contains(q) ==> exists|m: int|
                0 <= m < data.len() && (#[trigger] data[m]).0 == CompId::at(q),
    ensures
        forall|j: int|
            #![trigger v.buckets[p].columns[j]]
            0 <= j < v.buckets[p].columns.len() ==> match last_bytes(
                data,
                v.buckets[p].columns[j].0,
            ) {
                Some(b) => b.len() == v.buckets[p].columns[j].1,
                None => false,
            },
{
    let key = v.keys[p];
    let pos = positions_below(key.bits(), 64);
    let cols = v.buckets[p].columns;
    assert(v.buckets[p].shape());
    lemma_columns_for(v.sizes, pos);
    lemma_positions(key.bits(), 64);
    assert forall|j: int| #![trigger cols[j]] 0 <= j < cols.len() implies match last_bytes(data, cols[j].0) {
        Some(b) => b.len() == cols[j].1,
        None => false,
    } by {
        let k = choose|k: int|
            0 <= k < pos.len() && #[trigger] columns_for(v.sizes, pos)[j] == (
            CompId::at(pos[k]),
            size_lookup(v.sizes, CompId::at(pos[k])).unwrap(),
        );
        let q = pos[k];
        assert(bit_of(key.bits(), q));
        assert(key@.contains(q));
        let id = CompId::at(q);
        assert forall|m: int| 0 <= m < data.len() && (#[trigger] data[m]).0 == id implies data[m].1@.len()
            == cols[j].1 by {
            let _c = comps[m];
        }
        lemma_last_bytes(data, id, cols[j].1 as nat);
    }
}

/// Queueing the gathered bytes is queueing the components.
proof fn lemma_queued(
    b: BucketView,
    types: Seq<(TypeId, CompId)>,
    comps: Seq<(TypeId, Vec<u8>)>,
    data: Seq<(CompId, Vec<u8>)>,
)
    requires
        data.len() == comps.len(),
        forall|m: int|
            0 <= m < comps.len() ==> Some((#[trigger] data[m]).0) == type_lookup(types, comps[m].0)
                && data[m].1@ == comps[m].1@,
    ensures
        (BucketView {
            pending_len: b.pending_len + 1,
            pending_cap: grown_cap(b.pending_len, 1, b.pending_cap),
            pending: Seq::new(
                b.columns.len(),
                |j: int| b.pending[j].push(last_bytes(data, b.columns[j].0).unwrap()),
            ),
            ..b
        }) == queued(b, types, comps),
{
    assert forall|j: int| 0 <= j < b.columns.len() implies last_bytes(data, b.columns[j].0)
        == component_bytes(types, comps, b.columns[j].0) by {
        lemma_component_bytes(types, comps, data, b.columns[j].0);
    }
    assert(Seq::new(
        b.columns.len(),
        |j: int| b.pending[j].push(last_bytes(data, b.columns[j].0).unwrap()),
    ) =~= queued(b, types, comps).pending);
}

/// `b` after its waiting entities are moved into its store.
pub open spec fn drained(b: BucketView) -> BucketView {
    BucketView {
        len: b.len + b.pending_len,
        cap: grown_cap(b.len, b.pending_len, b.cap),
        pending_len: 0,
        data: Seq::new(b.columns.len(), |j: int| b.data[j] + b.pending[j]),
        pending: Seq::new(b.columns.len(), |j: int| Seq::<Seq<u8>>::empty()),
        ..b
    }
}

/// Whether every bucket of `v` can take in its waiting entities without its
/// counts passing `usize::MAX`.
pub open spec fn drainable(v: CompyView) -> bool {
    forall|p: int|
        0 <= p < v.buckets.len() ==> {
            &&& (#[trigger] v.buckets[p]).len + v.buckets[p].pending_len <= usize::MAX
            &&& v.buckets[p].len + v.buckets[p].pending_len > v.buckets[p].cap ==> (
            v.buckets[p].len + v.buckets[p].pending_len) * 2 <= usize::MAX
        }
}

/// The ids registered for the types `ts`.
pub open spec fn arg_ids(types: Seq<(TypeId, CompId)>, ts: Seq<TypeId>) -> Seq<CompId> {
    Seq::new(ts.len(), |a: int| type_lookup(types, ts[a]).unwrap())
}

/// The positions of the columns of `ids` among `columns`.
pub open spec fn arg_columns(columns: Seq<(CompId, usize)>, ids: Seq<CompId>) -> Seq<usize> {
    Seq::new(ids.len(), |a: int| column_index(columns, ids[a]).unwrap() as usize)
}

/// Whether an iteration over the buckets matching `pkey` and `nkey`, handing the
/// closure the components of the types `ts`, can run: every type is registered,
/// and every matching bucket has a column for each of them.
pub open spec fn iterable_with(v: CompyView, pkey: Key, nkey: Key, ts: Seq<TypeId>) -> bool {
    &&& all_registered(v.types, ts)
    &&& forall|p: int, a: int|
        0 <= p < v.keys.len() && matches(#[trigger] v.keys[p], pkey, nkey) && 0 <= a < ts.len()
            ==> column_index(v.buckets[p].columns, #[trigger] arg_ids(v.types, ts)[a]).is_some()
}

impl CompyView {
    /// The shape every `Compy` keeps: keys strictly increasing, and each bucket
    /// has one column per member of its key whose registered size is not zero.
    pub open spec fn wf(self) -> bool {
        &&& registry_wf(self.types, self.sizes)
        &&& self.keys.len() == self.buckets.len()
        &&& forall|a: int, b: int|
            0 <= a < b < self.keys.len() ==> (#[trigger] self.keys[a]).bits() < (
            #[trigger] self.keys[b]).bits()
        &&& forall|p: int|
            0 <= p < self.buckets.len() ==> {
                &&& (#[trigger] self.buckets[p]).shape()
                &&& self.buckets[p].columns == columns_for(
                    self.sizes,
                    positions_below(self.keys[p].bits(), 64),
                )
            }
    }
}

/// Overloadable function for iterating entities: visits the entities whose key
/// has every member of `pkey` and none of `nkey`, handing `f` the components its
/// arguments ask for, and returns the entities captured by its flags.
pub trait CompyIterate<In, Out, Sets, Func> {
    fn iterate_mut(&mut self, pkey: Key, nkey: Key, f: Func) -> Sets;
}

/// Overloadable function for inserting entities: queues an entity made of the
/// components in `t`.
pub trait CompyInsert<T> {
    fn insert(&self, t: T);
}

/// Whether two argument positions name the same type while one of them borrows
/// it mutably: such a closure cannot be handed its components.
pub open spec fn borrow_conflict(types: Seq<TypeId>, mutable: Seq<bool>) -> bool {
    exists|i: int, j: int|
        0 <= i < j < types.len() && types[i] == types[j] && (mutable[i] || mutable[j])
}

/// Checks whether two argument positions name the same type while one of them
/// borrows it mutably.
pub fn borrows_conflict(types: &Vec<TypeId>, mutable: &Vec<bool>) -> (r: bool)
    requires
        types.len() == mutable.len(),
    ensures
        r == borrow_conflict(types@, mutable@),
{
    let mut i: usize = 0;
    while i < types.len()
        invariant
            i <= types.len(),
            types.len() == mutable.len(),
            forall|a: int, b: int|
                0 <= a < i && a < b < types.len() ==> !(types@[a] == types@[b] && (mutable@[a]
                    || mutable@[b])),
        decreases types.len() - i,
    {
        let mut j: usize = i + 1;
        while j < types.len()
            invariant
                i < j <= types.len(),
                i < types.len(),
                types.len() == mutable.len(),
                forall|a: int, b: int|
                    0 <= a < i && a < b < types.len() ==> !(types@[a] == types@[b] && (mutable@[a]
                        || mutable@[b])),
                forall|b: int|
                    i < b < j ==> !(types@[i as int] == types@[b] && (mutable@[i as int]
                        || mutable@[b])),
            decreases types.len() - j,
        {
            if type_ids_equal(&types[i], &types[j]) && (mutable[i] || mutable[j]) {
                assert(types@[i as int] == types@[j as int]);
                return true;
            }
            j = j + 1;
        }
        i = i + 1;
    }
    false
}

/// The master type. Contains all the component/entity data.
pub struct Compy {
    typeid_to_compid: Vec<(TypeId, CompId)>,
    compid_to_size: Vec<(CompId, usize)>,
    buckets: Vec<(Key, Bucket)>,
}

impl View for Compy {
    type V = CompyView;

    closed spec fn view(&self) -> CompyView {
        CompyView {
            types: self.typeid_to_compid@,
            sizes: self.compid_to_size@,
            keys: self.buckets@.map_values(|e: (Key, Bucket)| e.0),
            buckets: self.buckets@.map_values(|e: (Key, Bucket)| e.1@),
        }
    }
}

impl Compy {
    /// The invariant of a `Compy`.
    pub closed spec fn wf(self) -> bool {
        &&& self@.wf()
        &&& forall|p: int| 0 <= p < self.buckets.len() ==> (#[trigger] self.buckets[p]).1.wf()
    }

    /// A well-formed `Compy` has the shape its view promises: one bucket per
    /// key, keys in increasing order, each bucket with its columns and shape.
    pub proof fn lemma_wf_view(&self)
        requires
            self.wf(),
        ensures
            self@.wf(),
    {
    }

    /// A `Compy` with the given registrations and no bucket.
    pub(crate) fn new(
        typeid_to_compid: Vec<(TypeId, CompId)>,
        compid_to_size: Vec<(CompId, usize)>,
    ) -> (r: Compy)
        requires
            registry_wf(typeid_to_compid@, compid_to_size@),
        ensures
            r.wf(),
            r@.types == typeid_to_compid@,
            r@.sizes == compid_to_size@,
            r@.keys == Seq::<Key>::empty(),
            r@.buckets == Seq::<BucketView>::empty(),
    {
        let r = Compy { typeid_to_compid, compid_to_size, buckets: Vec::new() };
        assert(r@.keys =~= Seq::<Key>::empty());
        assert(r@.buckets =~= Seq::<BucketView>::empty());
        r
    }

    /// (number of buckets, number of columns over all buckets, number of stored
    /// entities over all buckets).
    pub fn stats(&self) -> (r: (usize, usize, usize))
        requires
            self.wf(),
            total_columns(self@.buckets) <= usize::MAX,
            total_len(self@.buckets) <= usize::MAX,
        ensures
            r.0 == self@.buckets.len(),
            r.1 == total_columns(self@.buckets),
            r.2 == total_len(self@.buckets),
    {
        let ghost bs = self@.buckets;
        let mut bucket_count: usize = 0;
        let mut total_components: usize = 0;
        let mut total_len_acc: usize = 0;
        let mut i: usize = 0;
        while i < self.buckets.len()
            invariant
                i <= self.buckets.len(),
                bs == self@.buckets,
                bs.len() == self.buckets.len(),
                total_len(bs) <= usize::MAX,
                total_columns(bs) <= usize::MAX,
                bucket_count == i,
                total_len_acc == total_len(bs.take(i as int)),
                total_components == total_columns(bs.take(i as int)),
            decreases self.buckets.len() - i,
        {
            proof {
                lemma_sum_prefix(bs, |b: BucketView| b.len, i as int);
                lemma_sum_prefix(bs, |b: BucketView| b.len, i + 1);
                lemma_sum_prefix(bs, |b: BucketView| b.columns.len(), i as int);
                lemma_sum_prefix(bs, |b: BucketView| b.columns.len(), i + 1);
            }
            bucket_count = bucket_count + 1;
            total_components = total_components + self.buckets[i].1.get_component_count();
            total_len_acc = total_len_acc + self.buckets[i].1.get_len();
            i = i + 1;
        }
        assert(bs.take(i as int) =~= bs);
        (bucket_count, total_components, total_len_acc)
    }

    /// The key made of the ids registered for the types `type_ids`.
    pub fn get_key(&self, type_ids: &[TypeId]) -> (r: Key)
        requires
            all_registered(self@.types, type_ids@),
        ensures
            r@ == key_of(self@.types, type_ids@),
    {
        let mut acc = Key::default();
        let mut i: usize = 0;
        while i < type_ids.len()
            invariant
                i <= type_ids.len(),
                all_registered(self@.types, type_ids@),
                acc@ == key_of(self@.types, type_ids@.take(i as int)),
            decreases type_ids.len() - i,
        {
            assert(type_ids@.take(i + 1).drop_last() =~= type_ids@.take(i as int));
            assert(type_lookup(self@.types, type_ids@[i as int]).is_some());
            let id = lookup_type(&self.typeid_to_compid, &type_ids[i]).unwrap();
            acc = acc + id;
            i = i + 1;
        }
        assert(type_ids@.take(i as int) =~= type_ids@);
        acc
    }

    /// Whether type `type_id` is registered.
    pub fn is_registered(&self, type_id: &TypeId) -> (r: bool)
        ensures
            r == type_lookup(self@.types, *type_id).is_some(),
    {
        lookup_type(&self.typeid_to_compid, type_id).is_some()
    }

    /// The key of the id registered for type `type_id`, which must be registered.
    pub fn key_for_type_id(&self, type_id: &TypeId) -> (r: Key)
        requires
            type_lookup(self@.types, *type_id).is_some(),
        ensures
            r@ == type_lookup(self@.types, *type_id).unwrap()@,
    {
        let id = lookup_type(&self.typeid_to_compid, type_id).unwrap();
        Key::from(id)
    }

    /// The byte size registered for the id of type `type_id`, if it is registered.
    pub fn size_for_type_id(&self, type_id: &TypeId) -> (r: Option<usize>)
        ensures
            r == match type_lookup(self@.types, *type_id) {
                Some(id) => size_lookup(self@.sizes, id),
                None => None,
            },
    {
        match lookup_type(&self.typeid_to_compid, type_id) {
            Some(id) => crate::bucket::lookup_size(&self.compid_to_size, id),
            None => None,
        }
    }

    /// The key of the id registered for type `T`: `None` when `T` is not
    /// registered, where no key can be made.
    pub fn get_key_for<T: 'static>(&self) -> (r: Option<Key>)
        ensures
            exists|t: TypeId| key_of_lookup(r, type_lookup(self@.types, t)),
    {
        let t = type_id_of::<T>();
        if self.is_registered(&t) {
            Some(self.key_for_type_id(&t))
        } else {
            None
        }
    }

    /// The position of the bucket of `key`, if there is one.
    pub fn find_bucket(&self, key: Key) -> (r: Option<usize>)
        requires
            self.wf(),
        ensures
            match r {
                Some(p) => p < self@.keys.len() && self@.keys[p as int] == key,
                None => !self@.keys.contains(key),
            },
    {
        let mut p: usize = 0;
        while p < self.buckets.len()
            invariant
                p <= self.buckets.len(),
                forall|q: int| 0 <= q < p ==> self@.keys[q] != key,
            decreases self.buckets.len() - p,
        {
            if self.buckets[p].0 == key {
                return Some(p);
            }
            p = p + 1;
        }
        None
    }

    /// The position of the bucket of `key`, made (empty) and put in key order if
    /// there was none.
    pub(crate) fn get_bucket_or_make(&mut self, key: Key) -> (r: usize)
        requires
            old(self).wf(),
            forall|k: int|
                0 <= k < positions_below(key.bits(), 64).len() ==> size_lookup(
                    old(self)@.sizes,
                    CompId::at(#[trigger] positions_below(key.bits(), 64)[k]),
                ).is_some(),
        ensures
            final(self).wf(),
            final(self)@.types == old(self)@.types,
            final(self)@.sizes == old(self)@.sizes,
            r < final(self)@.keys.len(),
            r <= old(self)@.keys.len(),
            final(self)@.keys[r as int] == key,
            old(self)@.keys.contains(key) ==> final(self)@.keys == old(self)@.keys
                && final(self)@.buckets == old(self)@.buckets,
            !old(self)@.keys.contains(key) ==> final(self)@.keys == old(self)@.keys.insert(
                r as int,
                key,
            ) && final(self)@.buckets == old(self)@.buckets.insert(
                r as int,
                empty_bucket(columns_for(old(self)@.sizes, positions_below(key.bits(), 64))),
            ),
    {
        let kb = key.to_bits();
        let mut p: usize = 0;
        while p < self.buckets.len() && self.buckets[p].0.to_bits() < kb
            invariant
                p <= self.buckets.len(),
                kb == key.bits(),
                forall|q: int| 0 <= q < p ==> (#[trigger] self@.keys[q]).bits() < key.bits(),
            decreases self.buckets.len() - p,
        {
            assert(self@.keys[p as int] == self.buckets[p as int].0);
            p = p + 1;
        }
        if p < self.buckets.len() && self.buckets[p].0 == key {
            return p;
        }
        proof {
            assert forall|q: int| 0 <= q < self@.keys.len() implies self@.keys[q] != key by {
                if q >= p {
                    if q > p {
                        assert(self@.keys[p as int].bits() < self@.keys[q].bits());
                    }
                    Key::lemma_bits_injective(self@.keys[p as int], key);
                }
            }
        }
        let bucket = Bucket::new(key, &self.compid_to_size);
        let ghost old_entries = self.buckets@;
        self.buckets.insert(p, (key, bucket));
        proof {
            let o = old(self)@;
            let v = self@;
            assert(v.keys =~= o.keys.insert(p as int, key));
            assert(v.buckets =~= o.buckets.insert(p as int, bucket@));
            assert forall|a: int, b: int| 0 <= a < b < v.keys.len() implies (
            #[trigger] v.keys[a]).bits() < (#[trigger] v.keys[b]).bits() by {
                if a < p && b > p {
                    assert(v.keys[a] == o.keys[a]);
                    assert(v.keys[b] == o.keys[b - 1]);
                    if p < o.keys.len() {
                        assert(!(o.keys[p as int].bits() < key.bits()));
                        Key::lemma_bits_injective(o.keys[p as int], key);
                    }
                } else if a == p && b > p {
                    assert(!(o.keys[p as int].bits() < key.bits()));
                    Key::lemma_bits_injective(o.keys[p as int], key);
                    assert(v.keys[b] == o.keys[b - 1]);
                    if b - 1 > p {
                        assert(o.keys[p as int].bits() < o.keys[b - 1].bits());
                    }
                }
            }
            assert forall|q: int| 0 <= q < self.buckets.len() implies (
            #[trigger] self.buckets[q]).1.wf() by {
                if q < p {
                    assert(self.buckets[q] == old_entries[q]);
                } else if q > p {
                    assert(self.buckets[q] == old_entries[q - 1]);
                }
            }
            bucket.lemma_wf_shape();
        }
        p
    }

    /// Queues an entity made of the components `components` (a type, and the
    /// bytes of its value) in the bucket of the key of their types, making that
    /// bucket if there is none. The stored entities do not change until
    /// `insert_all`.
    pub fn insert(&mut self, components: &Vec<(TypeId, Vec<u8>)>)
        requires
            old(self).wf(),
            insertable(old(self)@, components@),
            forall|p: int|
                0 <= p < old(self)@.buckets.len() ==> (#[trigger] old(self)@.buckets[p]).pending_len
                    + 1 > old(self)@.buckets[p].pending_cap ==> (old(self)@.buckets[p].pending_len
                    + 1) * 2 <= usize::MAX,
        ensures
            final(self).wf(),
            final(self)@.types == old(self)@.types,
            final(self)@.sizes == old(self)@.sizes,
            exists|p: int| inserted_at(old(self)@, final(self)@, components@, p),
            total_len(final(self)@.buckets) == total_len(old(self)@.buckets),
            total_pending(final(self)@.buckets) == total_pending(old(self)@.buckets) + 1,
    {
        let ghost types = self@.types;
        let ghost sizes = self@.sizes;
        let ghost comps = components@;
        // gather the ids and bytes, and the key they make
        let mut key = Key::default();
        let mut data: Vec<(CompId, Vec<u8>)> = Vec::new();
        let mut k: usize = 0;
        while k < components.len()
            invariant
                k <= components.len(),
                types == self@.types,
                comps == components@,
                insertable(self@, comps),
                data.len() == k,
                forall|m: int|
                    0 <= m < k ==> Some((#[trigger] data@[m]).0) == type_lookup(types, comps[m].0)
                        && data@[m].1@ == comps[m].1@,
                key@ == key_of(types, type_list(comps.take(k as int))),
            decreases components.len() - k,
        {
            assert(type_list(comps.take(k + 1)).drop_last() =~= type_list(comps.take(k as int)));
            let id = lookup_type(&self.typeid_to_compid, &components[k].0).unwrap();
            let bytes = copy_bytes(&components[k].1);
            key = key + id;
            data.push((id, bytes));
            k = k + 1;
        }
        assert(comps.take(k as int) =~= comps);
        let ghost kset = key_of(types, type_list(comps));
        proof {
            lemma_component_ids(self@, comps, data@, kset, key);
        }
        let ghost old_keys = self@.keys;
        let ghost pre = self@;
        assert(pre == old(self)@);
        let p = self.get_bucket_or_make(key);
        let ghost mid = self@;
        proof {
            assert(self.buckets[p as int].1.wf());
            assert(mid.buckets[p as int] == self.buckets[p as int].1@);
            let b = mid.buckets[p as int];
            lemma_queue_ready(mid, p as int, comps, data@);
            assert(pre.keys.len() == pre.buckets.len());
            if !old_keys.contains(key) {
                assert(mid.keys.len() == pre.keys.len() + 1);
                assert(p <= pre.buckets.len());
                assert(mid.buckets == pre.buckets.insert(
                    p as int,
                    empty_bucket(columns_for(pre.sizes, positions_below(key.bits(), 64))),
                ));
                assert(b == empty_bucket(columns_for(sizes, positions_below(key.bits(), 64))));
            } else {
                assert(b == old(self)@.buckets[p as int]);
            }
        }
        let ghost entries_before = self.buckets@;
        self.buckets[p].1.queue_entity_insert(&data);
        proof {
            let v = self@;
            let b = mid.buckets[p as int];
            lemma_queued(b, types, comps, data@);
            assert(v.keys =~= mid.keys);
            assert(v.buckets =~= mid.buckets.update(p as int, queued(b, types, comps)));
            assert forall|q: int| 0 <= q < self.buckets.len() implies (
            #[trigger] self.buckets[q]).1.wf() by {
                if q != p {
                    assert(self.buckets[q] == entries_before[q]);
                }
            }
            self.buckets[p as int].1.lemma_wf_shape();
            assert forall|q: int| 0 <= q < v.buckets.len() implies {
                &&& (#[trigger] v.buckets[q]).shape()
                &&& v.buckets[q].columns == columns_for(v.sizes, positions_below(v.keys[q].bits(), 64))
            } by {
                if q != p {
                    assert(v.buckets[q] == mid.buckets[q]);
                }
            }
            let fl = |x: BucketView| x.len;
            let fp = |x: BucketView| x.pending_len;
            lemma_sum_update(mid.buckets, fl, p as int, queued(b, types, comps));
            lemma_sum_update(mid.buckets, fp, p as int, queued(b, types, comps));
            if !old_keys.contains(key) {
                lemma_sum_insert(old(self)@.buckets, fl, p as int, b);
                lemma_sum_insert(old(self)@.buckets, fp, p as int, b);
                assert(old(self)@.buckets.insert(p as int, b).update(p as int, queued(b, types, comps))
                    =~= old(self)@.buckets.insert(p as int, queued(b, types, comps)));
            }
            assert(v.keys[p as int] == key);
            assert(inserted_at(old(self)@, v, comps, p as int));
        }
    }

    /// Performs all pending inserts: every bucket moves its waiting entities into
    /// its store.
    pub fn insert_all(&mut self)
        requires
            old(self).wf(),
            drainable(old(self)@),
        ensures
            final(self).wf(),
            drained_all(old(self)@, final(self)@),
            total_len(final(self)@.buckets) == total_len(old(self)@.buckets) + total_pending(
                old(self)@.buckets,
            ),
            total_pending(final(self)@.buckets) == 0,
    {
        let ghost o = self@;
        let ghost entries = self.buckets@;
        let mut p: usize = 0;
        while p < self.buckets.len()
            invariant
                p <= self.buckets.len(),
                self.buckets.len() == entries.len(),
                o == old(self)@,
                entries == old(self).buckets@,
                o.wf(),
                drainable(o),
                self.typeid_to_compid == old(self).typeid_to_compid,
                self.compid_to_size == old(self).compid_to_size,
                forall|q: int| 0 <= q < entries.len() ==> (#[trigger] entries[q]).1.wf(),
                forall|q: int|
                    0 <= q < self.buckets.len() ==> {
                        &&& (#[trigger] self.buckets[q]).0 == entries[q].0
                        &&& self.buckets[q].1.wf()
                        &&& self.buckets[q].1@ == if q < p {
                            drained(entries[q].1@)
                        } else {
                            entries[q].1@
                        }
                    },
            decreases entries.len() - p,
        {
            assert(o.buckets[p as int] == entries[p as int].1@);
            let ghost before = self.buckets@;
            self.buckets[p].1.insert_pending_entities();
            proof {
                let b = entries[p as int].1@;
                assert(self.buckets[p as int].1@ == drained(b));
                assert forall|q: int| 0 <= q < self.buckets.len() && q != p implies self.buckets[q]
                    == before[q] by {}
            }
            p = p + 1;
        }
        proof {
            let v = self@;
            assert(v.keys =~= o.keys);
            assert(v.buckets =~= Seq::new(o.buckets.len(), |q: int| drained(o.buckets[q])));
            assert forall|q: int| 0 <= q < v.buckets.len() implies {
                &&& (#[trigger] v.buckets[q]).shape()
                &&& v.buckets[q].columns == columns_for(v.sizes, positions_below(v.keys[q].bits(), 64))
            } by {
                self.buckets[q].1.lemma_wf_shape();
                assert(v.buckets[q] == self.buckets[q].1@);
                assert(o.buckets[q] == entries[q].1@);
            }
            lemma_sum_pointwise(
                o.buckets,
                v.buckets,
                |b: BucketView| b.len,
                |b: BucketView| b.pending_len,
                |b: BucketView| b.len,
            );
            lemma_sum_pointwise(
                o.buckets,
                v.buckets,
                |b: BucketView| 0nat,
                |b: BucketView| 0nat,
                |b: BucketView| b.pending_len,
            );
            lemma_sum_zero(o.buckets);
        }
    }

    /// The ids registered for the types `type_ids`.
    fn ids_of(&self, type_ids: &Vec<TypeId>) -> (r: Vec<CompId>)
        requires
            all_registered(self@.types, type_ids@),
        ensures
            r@ == arg_ids(self@.types, type_ids@),
    {
        let mut ids: Vec<CompId> = Vec::new();
        let mut a: usize = 0;
        while a < type_ids.len()
            invariant
                a <= type_ids.len(),
                all_registered(self@.types, type_ids@),
                ids@ == arg_ids(self@.types, type_ids@).take(a as int),
            decreases type_ids.len() - a,
        {
            assert(type_lookup(self@.types, type_ids@[a as int]).is_some());
            let id = lookup_type(&self.typeid_to_compid, &type_ids[a]).unwrap();
            ids.push(id);
            assert(ids@ =~= arg_ids(self@.types, type_ids@).take(a + 1));
            a = a + 1;
        }
        assert(arg_ids(self@.types, type_ids@).take(a as int) =~= arg_ids(
            self@.types,
            type_ids@,
        ));
        ids
    }

    /// Whether `iterate_mut` can run for these keys and argument types: every type
    /// is registered, and every matching bucket has a column for each.
    pub fn iterable(&self, pkey: Key, nkey: Key, arg_types: &Vec<TypeId>) -> (r: bool)
        requires
            self.wf(),
        ensures
            r == iterable_with(self@, pkey, nkey, arg_types@),
    {
        let mut a: usize = 0;
        while a < arg_types.len()
            invariant
                a <= arg_types.len(),
                forall|b: int|
                    0 <= b < a ==> type_lookup(self@.types, #[trigger] arg_types@[b]).is_some(),
            decreases arg_types.len() - a,
        {
            if lookup_type(&self.typeid_to_compid, &arg_types[a]).is_none() {
                return false;
            }
            a = a + 1;
        }
        let ids = self.ids_of(arg_types);
        let ghost v = self@;
        let mut p: usize = 0;
        while p < self.buckets.len()
            invariant
                p <= self.buckets.len(),
                v == self@,
                v.keys.len() == self.buckets.len(),
                v.buckets.len() == self.buckets.len(),
                all_registered(v.types, arg_types@),
                ids@ == arg_ids(v.types, arg_types@),
                forall|q: int, b: int|
                    0 <= q < p && matches(#[trigger] v.keys[q], pkey, nkey) && 0 <= b
                        < arg_types.len() ==> column_index(
                        v.buckets[q].columns,
                        #[trigger] arg_ids(v.types, arg_types@)[b],
                    ).is_some(),
            decreases self.buckets.len() - p,
        {
            let key = self.buckets[p].0;
            assert(v.keys[p as int] == key);
            assert(v.buckets[p as int] == self.buckets[p as int].1@);
            if key.contains(pkey) && key.excludes(nkey) {
                let mut b: usize = 0;
                while b < ids.len()
                    invariant
                        b <= ids.len(),
                        p < self.buckets.len(),
                        v == self@,
                        v.buckets[p as int] == self.buckets[p as int].1@,
                        ids@ == arg_ids(v.types, arg_types@),
                        ids.len() == arg_types.len(),
                        v.keys[p as int] == key,
                        matches(key, pkey, nkey),
                        forall|c: int|
                            0 <= c < b ==> column_index(
                                v.buckets[p as int].columns,
                                #[trigger] ids@[c],
                            ).is_some(),
                    decreases ids.len() - b,
                {
                    if self.buckets[p].1.column_of(ids[b]).is_none() {
                        assert(!column_index(
                            v.buckets[p as int].columns,
                            arg_ids(v.types, arg_types@)[b as int],
                        ).is_some());
                        return false;
                    }
                    b = b + 1;
                }
            }
            p = p + 1;
        }
        true
    }

    /// Visits, in key order, every bucket whose key has all members of `pkey` and
    /// none of `nkey`. In each, every stored entity in turn: `f` is handed the
    /// bytes of the entity's components of the types `arg_types` (in that order),
    /// each output of the right size is written back, and for each capture
    /// `c < captures` the entity's index is recorded when `f` returned flag `c`.
    /// Returns, for each capture, the indices recorded per bucket key.
    pub fn iterate_mut<F: Fn(Vec<Vec<u8>>) -> (Vec<Vec<u8>>, Vec<bool>)>(
        &mut self,
        pkey: Key,
        nkey: Key,
        arg_types: &Vec<TypeId>,
        captures: usize,
        f: F,
    ) -> (r: Vec<IdSet>)
        requires
            old(self).wf(),
            iterable_with(old(self)@, pkey, nkey, arg_types@),
            forall|x: Vec<Vec<u8>>| call_requires(f, (x,)),
        ensures
            final(self).wf(),
            final(self)@.types == old(self)@.types,
            final(self)@.sizes == old(self)@.sizes,
            final(self)@.keys == old(self)@.keys,
            final(self)@.buckets.len() == old(self)@.buckets.len(),
            r.len() == captures,
            forall|c: int, k: Key|
                0 <= c < captures ==> (#[trigger] r[c]@.contains_key(k) <==> (old(
                    self,
                )@.keys.contains(k) && matches(k, pkey, nkey))),
            forall|c: int, k: Key|
                0 <= c < captures ==> (#[trigger] r[c]@.contains_key(k) <==> (old(
                    self,
                )@.keys.contains(k) && pkey@.subset_of(k@) && k@.disjoint(nkey@))),
            forall|p: int|
                0 <= p < old(self)@.keys.len() && !matches(
                    #[trigger] old(self)@.keys[p],
                    pkey,
                    nkey,
                ) ==> final(self)@.buckets[p] == old(self)@.buckets[p],
            forall|p: int|
                0 <= p < old(self)@.keys.len() && matches(#[trigger] old(self)@.keys[p], pkey, nkey)
                    ==> iterated(
                    old(self)@.buckets[p],
                    final(self)@.buckets[p],
                    arg_columns(
                        old(self)@.buckets[p].columns,
                        arg_ids(old(self)@.types, arg_types@),
                    ),
                    f,
                    Seq::new(captures as nat, |c: int| r[c]@[old(self)@.keys[p]]),
                ),
    {
        let ghost o = self@;
        let ghost entries = self.buckets@;
        let ids = self.ids_of(arg_types);
        let mut sets: Vec<IdSet> = Vec::new();
        let mut c: usize = 0;
        while c < captures
            invariant
                c <= captures,
                sets.len() == c,
                forall|d: int| 0 <= d < c ==> (#[trigger] sets[d])@ == Map::<Key, Seq<u32>>::empty(),
            decreases captures - c,
        {
            sets.push(IdSet::new());
            c = c + 1;
        }
        let mut p: usize = 0;
        while p < self.buckets.len()
            invariant
                p <= self.buckets.len(),
                self.buckets.len() == entries.len(),
                o == old(self)@,
                entries == old(self).buckets@,
                o.wf(),
                iterable_with(o, pkey, nkey, arg_types@),
                forall|x: Vec<Vec<u8>>| call_requires(f, (x,)),
                ids@ == arg_ids(o.types, arg_types@),
                self.typeid_to_compid == old(self).typeid_to_compid,
                self.compid_to_size == old(self).compid_to_size,
                forall|q: int| 0 <= q < entries.len() ==> (#[trigger] entries[q]).1.wf(),
                sets.len() == captures,
                forall|d: int, k: Key|
                    0 <= d < captures ==> (#[trigger] sets[d]@.contains_key(k) <==> exists|q: int|
                        0 <= q < p && o.keys[q] == k && matches(k, pkey, nkey)),
                forall|q: int|
                    0 <= q < self.buckets.len() ==> {
                        &&& (#[trigger] self.buckets[q]).0 == entries[q].0
                        &&& self.buckets[q].1.wf()
                        &&& self.buckets[q].1@.columns == entries[q].1@.columns
                        &&& if q < p && matches(o.keys[q], pkey, nkey) {
                            iterated(
                                entries[q].1@,
                                self.buckets[q].1@,
                                arg_columns(entries[q].1@.columns, ids@),
                                f,
                                Seq::new(captures as nat, |d: int| sets[d]@[o.keys[q]]),
                            )
                        } else {
                            self.buckets[q].1@ == entries[q].1@
                        }
                    },
            decreases entries.len() - p,
        {
            let key = self.buckets[p].0;
            assert(o.keys[p as int] == key);
            assert(o.buckets[p as int] == entries[p as int].1@);
            if key.contains(pkey) && key.excludes(nkey) {
                // the columns of the argument types in this bucket
                let mut cols: Vec<usize> = Vec::new();
                let mut a: usize = 0;
                while a < ids.len()
                    invariant
                        a <= ids.len(),
                        p < self.buckets.len(),
                        self.buckets[p as int].1@ == entries[p as int].1@,
                        ids@ == arg_ids(o.types, arg_types@),
                        o.buckets[p as int] == entries[p as int].1@,
                        matches(o.keys[p as int], pkey, nkey),
                        p < o.keys.len(),
                        iterable_with(o, pkey, nkey, arg_types@),
                        cols@ == arg_columns(entries[p as int].1@.columns, ids@).take(a as int),
                        forall|b: int|
                            0 <= b < a ==> #[trigger] cols@[b] < entries[p as int].1@.columns.len(),
                    decreases ids.len() - a,
                {
                    assert(column_index(o.buckets[p as int].columns, ids@[a as int]).is_some());
                    let j = self.buckets[p].1.column_of(ids[a]).unwrap();
                    proof {
                        lemma_column_index(entries[p as int].1@.columns, ids@[a as int], 0);
                    }
                    cols.push(j);
                    assert(cols@ =~= arg_columns(entries[p as int].1@.columns, ids@).take(a + 1));
                    a = a + 1;
                }
                assert(arg_columns(entries[p as int].1@.columns, ids@).take(a as int) =~= arg_columns(
                    entries[p as int].1@.columns,
                    ids@,
                ));
                let ghost before = self.buckets@;
                let mut caps = self.buckets[p].1.iterate(&cols, captures, &f);
                let ghost caps_v = caps@.map_values(|v: Vec<u32>| v@);
                let ghost sets_before = sets@;
                // record the captures of this bucket under its key
                let mut d = captures;
                while d > 0
                    invariant
                        d <= captures,
                        caps.len() == d,
                        caps_v.len() == captures,
                        forall|e: int| 0 <= e < d ==> (#[trigger] caps[e])@ == caps_v[e],
                        sets.len() == captures,
                        sets_before.len() == captures,
                        forall|e: int|
                            0 <= e < captures ==> (#[trigger] sets[e])@ == if e < d {
                                sets_before[e]@
                            } else {
                                sets_before[e]@.insert(key, caps_v[e])
                            },
                    decreases d,
                {
                    let v = caps.pop().unwrap();
                    sets[d - 1].insert(key, v);
                    d = d - 1;
                }
                proof {
                    assert forall|q: int| 0 <= q < self.buckets.len() && q != p implies self.buckets[q]
                        == before[q] by {}
                    assert(Seq::new(captures as nat, |e: int| sets[e]@[key]) =~= caps_v);
                    assert forall|q: int| 0 <= q < p && matches(o.keys[q], pkey, nkey) implies Seq::new(
                        captures as nat,
                        |e: int| sets[e]@[o.keys[q]],
                    ) == Seq::new(captures as nat, |e: int| sets_before[e]@[o.keys[q]]) by {
                        assert(o.keys[q].bits() < o.keys[p as int].bits());
                        assert(o.keys[q] != key);
                        assert(Seq::new(captures as nat, |e: int| sets[e]@[o.keys[q]]) =~= Seq::new(
                            captures as nat,
                            |e: int| sets_before[e]@[o.keys[q]],
                        ));
                    }
                    assert forall|e: int, k: Key|
                        0 <= e < captures implies (#[trigger] sets[e]@.contains_key(k) <==> exists|
                        q: int,
                    | 0 <= q < p + 1 && o.keys[q] == k && matches(k, pkey, nkey)) by {
                        if sets[e]@.contains_key(k) && k != key {
                            assert(sets_before[e]@.contains_key(k));
                        }
                        if exists|q: int| 0 <= q < p + 1 && o.keys[q] == k && matches(k, pkey, nkey) {
                            if k != key {
                                let q = choose|q: int|
                                    0 <= q < p + 1 && o.keys[q] == k && matches(k, pkey, nkey);
                                assert(q < p);
                                assert(sets_before[e]@.contains_key(k));
                            }
                        }
                    }
                }
            } else {
                proof {
                    assert forall|e: int, k: Key|
                        0 <= e < captures implies (#[trigger] sets[e]@.contains_key(k) <==> exists|
                        q: int,
                    | 0 <= q < p + 1 && o.keys[q] == k && matches(k, pkey, nkey)) by {
                        if exists|q: int| 0 <= q < p + 1 && o.keys[q] == k && matches(k, pkey, nkey) {
                            let q = choose|q: int|
                                0 <= q < p + 1 && o.keys[q] == k && matches(k, pkey, nkey);
                            assert(q < p);
                        }
                    }
                }
            }
            p = p + 1;
        }
        proof {
            let v = self@;
            assert(v.keys =~= o.keys);
            assert forall|q: int| 0 <= q < v.buckets.len() implies {
                &&& (#[trigger] v.buckets[q]).shape()
                &&& v.buckets[q].columns == columns_for(v.sizes, positions_below(v.keys[q].bits(), 64))
            } by {
                self.buckets[q].1.lemma_wf_shape();
                assert(v.buckets[q] == self.buckets[q].1@);
                assert(o.buckets[q] == entries[q].1@);
            }
            assert forall|q: int| 0 <= q < o.keys.len() implies o.buckets[q] == entries[q].1@
                && v.buckets[q] == self.buckets[q].1@ by {}
            assert forall|e: int, k: Key| 0 <= e < captures implies (#[trigger] sets[e]@.contains_key(
                k,
            ) <==> (o.keys.contains(k) && matches(k, pkey, nkey))) by {
                if o.keys.contains(k) && matches(k, pkey, nkey) {
                    let q = choose|q: int| 0 <= q < o.keys.len() && o.keys[q] == k;
                    assert(0 <= q < p && o.keys[q] == k && matches(k, pkey, nkey));
                }
            }
        }
        sets
    }

    /// The number of stored entities, over all buckets.
    pub fn entity_count(&self) -> (r: usize)
        requires
            self.wf(),
            total_len(self@.buckets) <= usize::MAX,
        ensures
            r == total_len(self@.buckets),
    {
        let ghost bs = self@.buckets;
        let mut acc: usize = 0;
        let mut i: usize = 0;
        while i < self.buckets.len()
            invariant
                i <= self.buckets.len(),
                bs == self@.buckets,
                bs.len() == self.buckets.len(),
                total_len(bs) <= usize::MAX,
                acc == total_len(bs.take(i as int)),
            decreases self.buckets.len() - i,
        {
            proof {
                lemma_sum_prefix(bs, |b: BucketView| b.len, i as int);
                lemma_sum_prefix(bs, |b: BucketView| b.len, i + 1);
            }
            acc = acc + self.buckets[i].1.get_len();
            i = i + 1;
        }
        assert(bs.take(i as int) =~= bs);
        acc
    }
}

} // verus!
