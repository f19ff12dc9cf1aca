use vstd::prelude::*;
use crate::compy::Compy;
use crate::key::{CompId, is_slot_id, nth_id};
use crate::bucket::size_lookup;
use std::any::TypeId;

verus! {

#[verifier::external_type_specification]
#[verifier::external_body]
pub struct ExTypeId(TypeId);

/// Calls `TypeId::of::<T>()`. Nothing is stated of the id it returns: which
/// value the compiler gives a type is not something the library can state.
#[verifier::external_body]
pub(crate) fn type_id_of<T: ?Sized + 'static>() -> TypeId {
    TypeId::of::<T>()
}

/// Calls `TypeId`'s `==`, which is true exactly when the two ids are the same
/// value.
#[verifier::external_body]
pub(crate) fn type_ids_equal(a: &TypeId, b: &TypeId) -> (r: bool)
    ensures
        r == (*a == *b),
{
    *a == *b
}

/// The component id registered last for type `t`, reading `types` as a sequence
/// of map inserts.
pub open spec fn type_lookup(types: Seq<(TypeId, CompId)>, t: TypeId) -> Option<CompId>
    decreases types.len(),
{
    if types.len() == 0 {
        None
    } else if types.last().0 == t {
        Some(types.last().1)
    } else {
        type_lookup(types.drop_last(), t)
    }
}

/// What a registry of component types must hold: each registered id occupies at
/// most one bit and has a size registered for it.
pub open spec fn registry_wf(types: Seq<(TypeId, CompId)>, sizes: Seq<(CompId, usize)>) -> bool {
    forall|k: int|
        0 <= k < types.len() ==> is_slot_id(#[trigger] types[k].1)
            && crate::bucket::size_lookup(sizes, types[k].1).is_some()
}

/// A registered type's id is one of the registered ids.
pub(crate) proof fn lemma_type_lookup(types: Seq<(TypeId, CompId)>, t: TypeId)
    ensures
        type_lookup(types, t) matches Some(id) ==> exists|k: int|
            0 <= k < types.len() && #[trigger] types[k].1 == id,
    decreases types.len(),
{
    if types.len() > 0 && types.last().0 != t {
        lemma_type_lookup(types.drop_last(), t);
        if let Some(id) = type_lookup(types, t) {
            let k = choose|k: int| 0 <= k < types.len() - 1 && #[trigger] types.drop_last()[k].1 == id;
            assert(types[k].1 == id);
        }
    } else if types.len() > 0 {
        assert(types[types.len() - 1].1 == types.last().1);
    }
}

/// Looks up the component id registered last for type `t`.
pub fn lookup_type(types: &Vec<(TypeId, CompId)>, t: &TypeId) -> (r: Option<CompId>)
    ensures
        r == type_lookup(types@, *t),
{
    let mut i = types.len();
    assert(types@.take(i as int) =~= types@);
    while i > 0
        invariant
            i <= types.len(),
            type_lookup(types@, *t) == type_lookup(types@.take(i as int), *t),
        decreases i,
    {
        assert(types@.take(i as int).drop_last() =~= types@.take(i - 1));
        if type_ids_equal(&types[i - 1].0, t) {
            return Some(types[i - 1].1);
        }
        i = i - 1;
    }
    None
}

/// What a builder holds, as plain values.
pub ghost struct BuilderView {
    /// The id the counter is at; the next type registered gets the id after it.
    pub counter: CompId,
    /// The (type, id) registrations, oldest first.
    pub types: Seq<(TypeId, CompId)>,
    /// The (id, byte size) registrations, oldest first.
    pub sizes: Seq<(CompId, usize)>,
}

/// Registers the component types a `Compy` will store.
pub struct CompyBuilder {
    id_counter: CompId,
    typeid_to_compid: Vec<(TypeId, CompId)>,
    compid_to_padding: Vec<(CompId, usize)>,
}

impl View for CompyBuilder {
    type V = BuilderView;

    closed spec fn view(&self) -> BuilderView {
        BuilderView {
            counter: self.id_counter,
            types: self.typeid_to_compid@,
            sizes: self.compid_to_padding@,
        }
    }
}

/// A registry built up one type at a time from a counter at bit 0: registration
/// `k` (from 0) has the id `nth_id(k + 1)` in both lists.
pub open spec fn registry_chain(types: Seq<(TypeId, CompId)>, sizes: Seq<(CompId, usize)>) -> bool {
    &&& types.len() == sizes.len()
    &&& forall|k: int|
        0 <= k < types.len() ==> (#[trigger] types[k]).1 == nth_id((k + 1) as nat)
            && sizes[k].0 == nth_id((k + 1) as nat)
}

/// The size found for an id is the one registered last for it.
proof fn lemma_size_lookup_at(sizes: Seq<(CompId, usize)>, k: int)
    requires
        0 <= k < sizes.len(),
        forall|j: int| k < j < sizes.len() ==> (#[trigger] sizes[j]).0 != sizes[k].0,
    ensures
        size_lookup(sizes, sizes[k].0) == Some(sizes[k].1),
    decreases sizes.len(),
{
    if k < sizes.len() - 1 {
        assert(sizes[sizes.len() - 1] == sizes.last());
        assert forall|j: int| k < j < sizes.drop_last().len() implies (
        #[trigger] sizes.drop_last()[j]).0 != sizes.drop_last()[k].0 by {
            assert(sizes.drop_last()[j] == sizes[j]);
        }
        lemma_size_lookup_at(sizes.drop_last(), k);
    }
}

/// An id with some registration has a size.
proof fn lemma_size_lookup_some(sizes: Seq<(CompId, usize)>, k: int)
    requires
        0 <= k < sizes.len(),
    ensures
        size_lookup(sizes, sizes[k].0).is_some(),
    decreases sizes.len(),
{
    if k < sizes.len() - 1 && sizes.last().0 != sizes[k].0 {
        assert(sizes.drop_last()[k] == sizes[k]);
        lemma_size_lookup_some(sizes.drop_last(), k);
    } else if k == sizes.len() - 1 {
        assert(sizes[k] == sizes.last());
    }
}

/// The id found for a type is the one registered last for it.
proof fn lemma_type_lookup_at(types: Seq<(TypeId, CompId)>, k: int)
    requires
        0 <= k < types.len(),
        forall|j: int| k < j < types.len() ==> (#[trigger] types[j]).0 != types[k].0,
    ensures
        type_lookup(types, types[k].0) == Some(types[k].1),
    decreases types.len(),
{
    if k < types.len() - 1 {
        assert(types[types.len() - 1] == types.last());
        assert forall|j: int| k < j < types.drop_last().len() implies (
        #[trigger] types.drop_last()[j]).0 != types.drop_last()[k].0 by {
            assert(types.drop_last()[j] == types[j]);
        }
        lemma_type_lookup_at(types.drop_last(), k);
    }
}

/// A chained registry meets what a `Compy` needs of its registrations.
pub(crate) proof fn lemma_chain_registry_wf(types: Seq<(TypeId, CompId)>, sizes: Seq<(CompId, usize)>)
    requires
        registry_chain(types, sizes),
    ensures
        registry_wf(types, sizes),
{
    assert forall|k: int| 0 <= k < types.len() implies is_slot_id(#[trigger] types[k].1)
        && size_lookup(sizes, types[k].1).is_some() by {
        CompId::lemma_nth_next((k + 1) as nat);
        lemma_size_lookup_some(sizes, k);
    }
}

/// Types registered one after another on a fresh builder get ids of their own:
/// while at most 63 are registered, registration `k` (from 0) gives its type the
/// single bit `k + 1`, the ids of different registrations share no bit, and the
/// size found for each id is the one registered with it. With the types all
/// different, the id found for each type is its registration's.
pub proof fn lemma_registered_ids(types: Seq<(TypeId, CompId)>, sizes: Seq<(CompId, usize)>)
    requires
        registry_chain(types, sizes),
        types.len() <= 63,
    ensures
        forall|k: int|
            0 <= k < types.len() ==> (#[trigger] types[k]).1 == CompId::at((k + 1) as nat)
                && types[k].1@ == set![(k + 1) as nat] && size_lookup(sizes, types[k].1) == Some(
                sizes[k].1,
            ),
        forall|j: int, k: int|
            0 <= j < types.len() && 0 <= k < types.len() && j != k ==> (#[trigger] types[j]).1@.disjoint(
                (#[trigger] types[k]).1@,
            ),
        (forall|j: int, k: int|
            0 <= j < k < types.len() ==> (#[trigger] types[j]).0 != (#[trigger] types[k]).0) ==> forall|
            k: int,
        | 0 <= k < types.len() ==> type_lookup(types, (#[trigger] types[k]).0) == Some(types[k].1),
{
    assert forall|k: int| 0 <= k < types.len() implies (#[trigger] types[k]).1 == CompId::at(
        (k + 1) as nat,
    ) && types[k].1@ == set![(k + 1) as nat] && size_lookup(sizes, types[k].1) == Some(sizes[k].1) by {
        CompId::lemma_at((k + 1) as nat);
        assert forall|j: int| k < j < sizes.len() implies (#[trigger] sizes[j]).0 != sizes[k].0 by {
            CompId::lemma_next_at((k + 1) as nat, (j + 1) as nat);
            let _t = types[j];
        }
        lemma_size_lookup_at(sizes, k);
    }
    assert forall|j: int, k: int|
        0 <= j < types.len() && 0 <= k < types.len() && j != k implies (#[trigger] types[j]).1@.disjoint(
        (#[trigger] types[k]).1@,
    ) by {
        CompId::lemma_at((j + 1) as nat);
        CompId::lemma_at((k + 1) as nat);
    }
    if forall|j: int, k: int| 0 <= j < k < types.len() ==> (#[trigger] types[j]).0 != (
    #[trigger] types[k]).0 {
        assert forall|k: int| 0 <= k < types.len() implies type_lookup(
            types,
            (#[trigger] types[k]).0,
        ) == Some(types[k].1) by {
            assert forall|j: int| k < j < types.len() implies (#[trigger] types[j]).0 != types[k].0 by {
                let _t = types[k];
            }
            lemma_type_lookup_at(types, k);
        }
    }
}

impl CompyBuilder {
    /// The builder's invariant: after `n` registrations the counter is at
    /// `nth_id(n)`, and registration `k` has the id `nth_id(k + 1)`.
    pub open spec fn wf(self) -> bool {
        &&& registry_chain(self@.types, self@.sizes)
        &&& self@.counter == nth_id(self@.types.len())
    }

    /// A builder with no type registered, its counter at the id of bit 0.
    pub fn new() -> (r: CompyBuilder)
        ensures
            r.wf(),
            r@.counter == CompId::at(0),
            r@.types == Seq::<(TypeId, CompId)>::empty(),
            r@.sizes == Seq::<(CompId, usize)>::empty(),
    {
        CompyBuilder {
            id_counter: CompId::default(),
            typeid_to_compid: Vec::new(),
            compid_to_padding: Vec::new(),
        }
    }

    /// Registers the type with id `type_id` and byte size `size`: the counter
    /// moves to the next id, and that id is given to the type and the size.
    /// While fewer than 63 types are registered, that id is the single bit
    /// after those of all earlier registrations.
    pub fn with_type_id(self, type_id: TypeId, size: usize) -> (r: CompyBuilder)
        requires
            self.wf(),
        ensures
            r.wf(),
            r@.counter == self@.counter.next(),
            r@.counter == nth_id((self@.types.len() + 1) as nat),
            r@.types == self@.types.push((type_id, self@.counter.next())),
            r@.sizes == self@.sizes.push((self@.counter.next(), size)),
            self@.types.len() < 63 ==> r@.counter == CompId::at((self@.types.len() + 1) as nat)
                && r@.counter@ == set![(self@.types.len() + 1) as nat] && forall|k: int|
                0 <= k < self@.sizes.len() ==> (#[trigger] self@.sizes[k]).0@.disjoint(
                    r@.counter@,
                ),
    {
        let mut s = self;
        s.id_counter = s.id_counter.inc();
        s.typeid_to_compid.push((type_id, s.id_counter));
        s.compid_to_padding.push((s.id_counter, size));
        proof {
            let n = self@.types.len();
            CompId::lemma_nth_next(n);
            assert forall|k: int| 0 <= k < s@.types.len() implies (#[trigger] s@.types[k]).1
                == nth_id((k + 1) as nat) && s@.sizes[k].0 == nth_id((k + 1) as nat) by {
                if k < n {
                    assert(s@.types[k] == self@.types[k]);
                    assert(s@.sizes[k] == self@.sizes[k]);
                }
            }
            if n < 63 {
                CompId::lemma_at(n + 1);
                assert forall|k: int| 0 <= k < self@.sizes.len() implies (
                #[trigger] self@.sizes[k]).0@.disjoint(s@.counter@) by {
                    let _t = self@.types[k];
                    CompId::lemma_at((k + 1) as nat);
                }
            }
        }
        s
    }

    /// Registers component type `T` with its byte size. The id value the
    /// compiler gives `T` is not stated; the registration is the last one.
    pub fn with<T: 'static>(self) -> (r: CompyBuilder)
        requires
            self.wf(),
        ensures
            r.wf(),
            r@.counter == self@.counter.next(),
            r@.counter == nth_id((self@.types.len() + 1) as nat),
            self@.types.len() < 63 ==> r@.counter == CompId::at((self@.types.len() + 1) as nat)
                && r@.counter@ == set![(self@.types.len() + 1) as nat] && forall|k: int|
                0 <= k < self@.sizes.len() ==> (#[trigger] self@.sizes[k]).0@.disjoint(
                    r@.counter@,
                ),
            r@.types.len() == self@.types.len() + 1,
            r@.types.drop_last() == self@.types,
            r@.types.last().1 == self@.counter.next(),
            r@.sizes == self@.sizes.push(
                (self@.counter.next(), vstd::layout::size_of::<T>() as usize),
            ),
    {
        let type_id = type_id_of::<T>();
        let size = core::mem::size_of::<T>();
        let r = self.with_type_id(type_id, size);
        assert(r@.types.drop_last() =~= self@.types);
        r
    }

    /// The `Compy` for the registered types, with no entity.
    pub fn build(self) -> (r: Compy)
        requires
            self.wf(),
        ensures
            r.wf(),
            r@.types == self@.types,
            r@.sizes == self@.sizes,
            r@.keys == Seq::<crate::key::Key>::empty(),
            r@.buckets == Seq::<crate::bucket::BucketView>::empty(),
    {
        proof {
            lemma_chain_registry_wf(self@.types, self@.sizes);
        }
        Compy::new(self.typeid_to_compid, self.compid_to_padding)
    }
}

} // verus!
