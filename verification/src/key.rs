use vstd::prelude::*;

verus! {

/// Whether bit `i` of `bits` is set.
pub open spec fn bit_of(bits: u64, i: nat) -> bool {
    i < 64 && (bits >> (i as u64)) & 1u64 == 1u64
}

/// The set of bit positions that are set in `bits`.
pub open spec fn bit_set(bits: u64) -> Set<nat> {
    Set::new(|i: nat| bit_of(bits, i))
}

/// The positions of the set bits among the lowest `n` bits of `bits`, lowest first.
pub open spec fn positions_below(bits: u64, n: nat) -> Seq<nat>
    decreases n,
{
    if n == 0 {
        Seq::empty()
    } else {
        let prev = positions_below(bits, (n - 1) as nat);
        if bit_of(bits, (n - 1) as nat) {
            prev.push((n - 1) as nat)
        } else {
            prev
        }
    }
}

proof fn lemma_or_bit(a: u64, b: u64, i: u64)
    requires
        i < 64,
    ensures
        ((a | b) >> i) & 1u64 == 1u64 <==> ((a >> i) & 1u64 == 1u64 || (b >> i) & 1u64 == 1u64),
{
    assert(((a | b) >> i) & 1u64 == 1u64 <==> ((a >> i) & 1u64 == 1u64 || (b >> i) & 1u64
        == 1u64)) by (bit_vector)
        requires
            i < 64,
    ;
}

proof fn lemma_and_bit(a: u64, b: u64, i: u64)
    requires
        i < 64,
    ensures
        ((a & b) >> i) & 1u64 == 1u64 <==> ((a >> i) & 1u64 == 1u64 && (b >> i) & 1u64 == 1u64),
{
    assert(((a & b) >> i) & 1u64 == 1u64 <==> ((a >> i) & 1u64 == 1u64 && (b >> i) & 1u64
        == 1u64)) by (bit_vector)
        requires
            i < 64,
    ;
}

proof fn lemma_and_not_bit(a: u64, b: u64, i: u64)
    requires
        i < 64,
    ensures
        ((!(!a | b)) >> i) & 1u64 == 1u64 <==> ((a >> i) & 1u64 == 1u64 && !((b >> i) & 1u64
            == 1u64)),
{
    assert(((!(!a | b)) >> i) & 1u64 == 1u64 <==> ((a >> i) & 1u64 == 1u64 && !((b >> i) & 1u64
        == 1u64))) by (bit_vector)
        requires
            i < 64,
    ;
}

proof fn lemma_shl_bit(a: u64, i: u64)
    requires
        i < 64,
    ensures
        ((a << 1u64) >> i) & 1u64 == 1u64 <==> (i >= 1 && (a >> ((i - 1) as u64)) & 1u64 == 1u64),
{
    if i == 0 {
        assert(((a << 1u64) >> 0u64) & 1u64 != 1u64) by (bit_vector);
    } else {
        let j: u64 = (i - 1) as u64;
        assert(((a << 1u64) >> i) & 1u64 == 1u64 <==> (a >> j) & 1u64 == 1u64) by (bit_vector)
            requires
                j < 63,
                i == j + 1,
        ;
    }
}

proof fn lemma_single_bit(n: u64, i: u64)
    requires
        n < 64,
        i < 64,
    ensures
        ((1u64 << n) >> i) & 1u64 == 1u64 <==> i == n,
{
    assert(((1u64 << n) >> i) & 1u64 == 1u64 <==> i == n) by (bit_vector)
        requires
            n < 64,
            i < 64,
    ;
}

proof fn lemma_zero_bits(i: u64)
    requires
        i < 64,
    ensures
        !((0u64 >> i) & 1u64 == 1u64),
{
    assert(!((0u64 >> i) & 1u64 == 1u64)) by (bit_vector);
}

proof fn lemma_eq_from_high(a: u64, b: u64, k: u64)
    requires
        k <= 64,
        forall|i: nat| i < k ==> bit_of(a, i) == bit_of(b, i),
        (a >> k) == (b >> k),
    ensures
        a == b,
    decreases k,
{
    if k == 0 {
        assert(a >> 0u64 == a && b >> 0u64 == b) by (bit_vector);
    } else {
        let j: u64 = (k - 1) as u64;
        assert(bit_of(a, j as nat) == bit_of(b, j as nat));
        assert((a >> j) == (b >> j)) by (bit_vector)
            requires
                j < 64,
                k == j + 1,
                (a >> k) == (b >> k),
                ((a >> j) & 1u64 == 1u64) == ((b >> j) & 1u64 == 1u64),
        ;
        lemma_eq_from_high(a, b, j);
    }
}

/// Two words with the same set bits are equal.
proof fn lemma_bits_ext(a: u64, b: u64)
    requires
        bit_set(a) == bit_set(b),
    ensures
        a == b,
{
    assert forall|i: nat| i < 64 implies bit_of(a, i) == bit_of(b, i) by {
        assert(bit_set(a).contains(i) == bit_of(a, i));
        assert(bit_set(b).contains(i) == bit_of(b, i));
        assert(bit_set(a).contains(i) == bit_set(b).contains(i));
    }
    assert((a >> 64u64) == 0u64 && (b >> 64u64) == 0u64) by (bit_vector);
    lemma_eq_from_high(a, b, 64);
}

proof fn lemma_or_set(a: u64, b: u64)
    ensures
        bit_set(a | b) == bit_set(a).union(bit_set(b)),
{
    assert forall|i: nat| bit_set(a | b).contains(i) == bit_set(a).union(bit_set(b)).contains(i) by {
        if i < 64 {
            lemma_or_bit(a, b, i as u64);
        }
    }
    assert(bit_set(a | b) =~= bit_set(a).union(bit_set(b)));
}

proof fn lemma_and_set(a: u64, b: u64)
    ensures
        bit_set(a & b) == bit_set(a).intersect(bit_set(b)),
{
    assert forall|i: nat|
        bit_set(a & b).contains(i) == bit_set(a).intersect(bit_set(b)).contains(i) by {
        if i < 64 {
            lemma_and_bit(a, b, i as u64);
        }
    }
    assert(bit_set(a & b) =~= bit_set(a).intersect(bit_set(b)));
}

proof fn lemma_and_not_set(a: u64, b: u64)
    ensures
        bit_set(!(!a | b)) == bit_set(a).difference(bit_set(b)),
{
    assert forall|i: nat|
        bit_set(!(!a | b)).contains(i) == bit_set(a).difference(bit_set(b)).contains(i) by {
        if i < 64 {
            lemma_and_not_bit(a, b, i as u64);
        }
    }
    assert(bit_set(!(!a | b)) =~= bit_set(a).difference(bit_set(b)));
}

proof fn lemma_zero_set()
    ensures
        bit_set(0u64) == Set::<nat>::empty(),
{
    assert forall|i: nat| !bit_set(0u64).contains(i) by {
        if i < 64 {
            lemma_zero_bits(i as u64);
        }
    }
    assert(bit_set(0u64) =~= Set::<nat>::empty());
}

/// The bits of a single shifted one.
proof fn lemma_single_set(n: u64)
    requires
        n < 64,
    ensures
        bit_set(1u64 << n) == set![n as nat],
{
    assert forall|i: nat| bit_set(1u64 << n).contains(i) == set![n as nat].contains(i) by {
        if i < 64 {
            lemma_single_bit(n, i as u64);
        }
    }
    assert(bit_set(1u64 << n) =~= set![n as nat]);
}

/// Represents a component ID
#[derive(Copy, Clone, Eq, Ord, PartialEq, PartialOrd, Hash, Debug, Structural)]
pub struct CompId(u64);

impl View for CompId {
    type V = Set<nat>;

    /// The bit positions this id occupies (one for an id handed out by a builder,
    /// none once the ids have run past the top bit).
    open spec fn view(&self) -> Set<nat> {
        bit_set(self.bits())
    }
}

impl CompId {
    /// The raw bits of this id.
    pub closed spec fn bits(self) -> u64 {
        self.0
    }

    /// The next id: the bits shifted up by one place, the top bit dropped.
    pub fn inc(self) -> (r: CompId)
        ensures
            r == self.next(),
            r.bits() == self.bits() << 1u64,
            r@ == Set::new(|i: nat| 1 <= i < 64 && self@.contains((i - 1) as nat)),
    {
        let r = CompId(self.0 << 1);
        proof {
            let m = Set::new(|i: nat| 1 <= i < 64 && self@.contains((i - 1) as nat));
            assert forall|i: nat| r@.contains(i) == m.contains(i) by {
                if i < 64 {
                    lemma_shl_bit(self.0, i as u64);
                }
            }
            assert(r@ =~= m);
        }
        r
    }
}

/// The id a counter started at bit 0 reaches after `m` steps: the id at bit `m`,
/// or the empty id once the bits have run out.
pub open spec fn nth_id(m: nat) -> CompId {
    if m < 64 {
        CompId::at(m)
    } else {
        CompId::none()
    }
}

/// Whether `id` occupies at most one bit: a single-bit id, or the empty id that
/// the counter reaches once it has shifted past the top bit.
pub open spec fn is_slot_id(id: CompId) -> bool {
    id@ == Set::<nat>::empty() || exists|p: nat| p < 64 && id == CompId::at(p)
}

impl CompId {
    /// The id after this one.
    pub closed spec fn next(self) -> CompId {
        CompId(self.0 << 1u64)
    }

    /// Ids with the same bits are the same id.
    pub proof fn lemma_view_eq(a: CompId, b: CompId)
        requires
            a@ == b@,
        ensures
            a == b,
    {
        lemma_bits_ext(a.0, b.0);
    }

    /// The id after the id at bit `p` is the id at bit `p + 1`, and ids at
    /// different bits differ: types registered one after another get ids of
    /// their own until the bits run out.
    pub proof fn lemma_next_at(p: nat, q: nat)
        requires
            p < 63,
            q < 64,
        ensures
            CompId::at(p).next() == CompId::at(p + 1),
            CompId::at(p) == CompId::at(q) <==> p == q,
    {
        let id = CompId::at(p);
        CompId::lemma_at(p);
        CompId::lemma_at(p + 1);
        CompId::lemma_at(q);
        let r = id.next();
        let m = Set::new(|i: nat| 1 <= i < 64 && id@.contains((i - 1) as nat));
        assert forall|i: nat| r@.contains(i) == m.contains(i) by {
            if i < 64 {
                lemma_shl_bit(id.0, i as u64);
            }
        }
        assert(r@ =~= m);
        assert(m =~= set![p + 1]);
        CompId::lemma_view_eq(r, CompId::at(p + 1));
        if CompId::at(p) == CompId::at(q) {
            assert(CompId::at(q)@.contains(p));
        }
    }

    /// The id with no bit.
    pub closed spec fn none() -> CompId {
        CompId(0)
    }

    /// The id with no bit has no bit.
    pub proof fn lemma_none()
        ensures
            CompId::none()@ == Set::<nat>::empty(),
    {
        lemma_zero_set();
    }

    /// Each step of the counter goes from `nth_id(m)` to `nth_id(m + 1)`, and
    /// every id it reaches occupies at most one bit.
    pub proof fn lemma_nth_next(m: nat)
        ensures
            nth_id(m).next() == nth_id(m + 1),
            is_slot_id(nth_id(m)),
    {
        CompId::lemma_none();
        if m < 63 {
            CompId::lemma_next_at(m, m);
            CompId::lemma_at(m);
        } else if m == 63 {
            CompId::lemma_at(63);
            assert((1u64 << 63u64) << 1u64 == 0u64) by (bit_vector);
        } else {
            assert(0u64 << 1u64 == 0u64) by (bit_vector);
        }
    }

    /// An id of at most one bit that holds bit `p` is the id at `p`.
    pub(crate) proof fn lemma_slot_at(id: CompId, p: nat)
        requires
            is_slot_id(id),
            id@.contains(p),
        ensures
            id == CompId::at(p),
            p < 64,
    {
        let q = choose|q: nat| q < 64 && id == CompId::at(q);
        CompId::lemma_at(q);
    }
}

impl CompId {
    /// The id that occupies exactly bit `n`.
    pub closed spec fn at(n: nat) -> CompId {
        CompId(1u64 << (n as u64))
    }

    /// The id at bit `n` has exactly that bit.
    pub proof fn lemma_at(n: nat)
        requires
            n < 64,
        ensures
            CompId::at(n)@ == set![n],
    {
        lemma_single_set(n as u64);
    }
}

impl Default for CompId {
    fn default() -> (r: CompId)
        ensures
            r == CompId::at(0),
            r.bits() == 1,
            r@ == set![0nat],
    {
        proof {
            lemma_single_set(0);
            assert(1u64 << 0u64 == 1u64) by (bit_vector);
        }
        CompId(1)
    }
}

/// Represents a group of component IDs
#[derive(Copy, Clone, Eq, Ord, PartialEq, PartialOrd, Debug, Structural)]
pub struct Key(u64);

impl View for Key {
    type V = Set<nat>;

    /// The bit positions of the component ids in this group.
    open spec fn view(&self) -> Set<nat> {
        bit_set(self.bits())
    }
}

impl Key {
    /// The raw bits of this key.
    pub closed spec fn bits(self) -> u64 {
        self.0
    }

    /// Keys with the same members are the same key.
    pub proof fn lemma_view_eq(a: Key, b: Key)
        requires
            a@ == b@,
        ensures
            a == b,
    {
        lemma_bits_ext(a.0, b.0);
    }

    /// Whether every member of `key` is a member of `self`.
    pub fn contains(self, key: Key) -> (r: bool)
        ensures
            r == key@.subset_of(self@),
    {
        proof {
            lemma_and_set(self.0, key.0);
            if key@.subset_of(self@) {
                assert(bit_set(self.0 & key.0) =~= bit_set(key.0));
                lemma_bits_ext(self.0 & key.0, key.0);
            }
        }
        self.0 & key.0 == key.0
    }

    /// Whether `self` and `key` have no member in common.
    pub fn excludes(self, key: Key) -> (r: bool)
        ensures
            r == self@.disjoint(key@),
    {
        proof {
            lemma_and_set(self.0, key.0);
            lemma_zero_set();
            if self@.disjoint(key@) {
                assert(bit_set(self.0 & key.0) =~= bit_set(0u64));
                lemma_bits_ext(self.0 & key.0, 0u64);
            } else {
                let i = choose|i: nat| self@.contains(i) && key@.contains(i);
                assert(bit_set(self.0 & key.0).contains(i));
            }
        }
        self.0 & key.0 == 0
    }
}

impl Key {
    /// The raw bits of this key.
    pub(crate) fn to_bits(self) -> (r: u64)
        ensures
            r == self.bits(),
    {
        self.0
    }

    /// Keys with the same bits are the same key.
    pub proof fn lemma_bits_injective(a: Key, b: Key)
        ensures
            a.bits() == b.bits() ==> a == b,
    {
    }
}

/// Adding a group of ids to a key and then removing the same group gives the key
/// back, when the key had none of those ids: `a + b - b == a`.
pub proof fn lemma_add_then_sub(a: Key, b: Key, sum: Key, diff: Key)
    requires
        a@.disjoint(b@),
        sum@ == a@.union(b@),
        diff@ == sum@.difference(b@),
    ensures
        diff == a,
{
    assert(diff@ =~= a@);
    Key::lemma_view_eq(diff, a);
}

/// Combining keys does not depend on order or repetition: `a + b == b + a`,
/// `(a + b) + c == a + (b + c)`, `a + a == a`, and `a + Key::default() == a`.
pub proof fn lemma_add_group(a: Key, b: Key, c: Key, ab: Key, ba: Key, ab_c: Key, bc: Key, a_bc: Key)
    requires
        ab@ == a@.union(b@),
        ba@ == b@.union(a@),
        ab_c@ == ab@.union(c@),
        bc@ == b@.union(c@),
        a_bc@ == a@.union(bc@),
    ensures
        ab == ba,
        ab_c == a_bc,
        a@.union(a@) == a@,
        a@.union(Set::<nat>::empty()) == a@,
{
    assert(ab@ =~= ba@);
    Key::lemma_view_eq(ab, ba);
    assert(ab_c@ =~= a_bc@);
    Key::lemma_view_eq(ab_c, a_bc);
    assert(a@.union(a@) =~= a@);
    assert(a@.union(Set::<nat>::empty()) =~= a@);
}

/// Every key contains the empty key and excludes it, and a key contains every
/// key made of some of its members.
pub proof fn lemma_contains_laws(a: Key, b: Key, sum: Key)
    requires
        sum@ == a@.union(b@),
    ensures
        Set::<nat>::empty().subset_of(a@),
        a@.disjoint(Set::<nat>::empty()),
        a@.subset_of(sum@),
        b@.subset_of(sum@),
{
}

impl Default for Key {
    fn default() -> (r: Key)
        ensures
            r@ == Set::<nat>::empty(),
            r.bits() == 0,
    {
        proof {
            lemma_zero_set();
        }
        Key(0)
    }
}

impl Key {
    /// Calls `f` on the id of each member of this key, lowest bit first, and
    /// returns the results in that order.
    pub fn for_each_comp_id<R, F: Fn(CompId) -> R>(self, f: F) -> (r: Vec<R>)
        requires
            forall|id: CompId| call_requires(f, (id,)),
        ensures
            r.len() == comp_ids_below(self, 64).len(),
            forall|k: int|
                0 <= k < r.len() ==> call_ensures(f, (comp_ids_below(self, 64)[k],), #[trigger] r[k]),
    {
        let mut out: Vec<R> = Vec::new();
        let mut i: u64 = 0;
        while i < 64
            invariant
                i <= 64,
                forall|id: CompId| call_requires(f, (id,)),
                out.len() == positions_below(self.0, i as nat).len(),
                forall|k: int|
                    0 <= k < out.len() ==> call_ensures(
                        f,
                        (CompId::at(positions_below(self.0, i as nat)[k]),),
                        #[trigger] out[k],
                    ),
            decreases 64 - i,
        {
            let ghost before = positions_below(self.0, i as nat);
            assert(positions_below(self.0, (i + 1) as nat) == if bit_of(self.0, i as nat) {
                before.push(i as nat)
            } else {
                before
            });
            if (self.0 >> i) & 1 == 1 {
                let id = CompId(1u64 << i);
                assert(id == CompId::at(i as nat));
                let v = f(id);
                out.push(v);
            }
            i = i + 1;
        }
        out
    }
}

/// The positions listed for a word are exactly its set bits, in increasing order.
pub proof fn lemma_positions(bits: u64, n: nat)
    requires
        n <= 64,
    ensures
        forall|k: int|
            0 <= k < positions_below(bits, n).len() ==> #[trigger] positions_below(bits, n)[k] < n
                && bit_of(bits, positions_below(bits, n)[k]),
        forall|j: int, k: int|
            0 <= j < k < positions_below(bits, n).len() ==> positions_below(bits, n)[j]
                < positions_below(bits, n)[k],
        forall|i: nat| i < n && bit_of(bits, i) ==> positions_below(bits, n).contains(i),
    decreases n,
{
    if n > 0 {
        lemma_positions(bits, (n - 1) as nat);
        let prev = positions_below(bits, (n - 1) as nat);
        if bit_of(bits, (n - 1) as nat) {
            assert forall|i: nat| i < n && bit_of(bits, i) implies positions_below(
                bits,
                n,
            ).contains(i) by {
                if i < n - 1 {
                    let k = choose|k: int| 0 <= k < prev.len() && prev[k] == i;
                    assert(positions_below(bits, n)[k] == i);
                } else {
                    assert(positions_below(bits, n)[prev.len() as int] == i);
                }
            }
        }
    }
}

/// The union of the bits of `ids`: what folding them with `+` from
/// `Key::default()` gives.
pub open spec fn ids_union(ids: Seq<CompId>) -> Set<nat>
    decreases ids.len(),
{
    if ids.len() == 0 {
        Set::empty()
    } else {
        ids_union(ids.drop_last()).union(ids.last()@)
    }
}

/// The ids `for_each_comp_id` hands out for the lowest `n` bits of `key`, in order.
pub open spec fn comp_ids_below(key: Key, n: nat) -> Seq<CompId> {
    Seq::new(positions_below(key.bits(), n).len(), |a: int| CompId::at(positions_below(key.bits(), n)[a]))
}

proof fn lemma_union_below(key: Key, n: nat)
    requires
        n <= 64,
    ensures
        ids_union(comp_ids_below(key, n)) == Set::new(|i: nat| i < n && bit_of(key.bits(), i)),
    decreases n,
{
    let ids = comp_ids_below(key, n);
    let target = Set::new(|i: nat| i < n && bit_of(key.bits(), i));
    if n == 0 {
        assert(ids_union(ids) =~= target);
    } else {
        let m = (n - 1) as nat;
        lemma_union_below(key, m);
        let prev = comp_ids_below(key, m);
        let prev_target = Set::new(|i: nat| i < m && bit_of(key.bits(), i));
        if bit_of(key.bits(), m) {
            assert(ids.drop_last() =~= prev);
            CompId::lemma_at(m);
            assert(ids.last() == CompId::at(m));
            assert(ids_union(ids) =~= target);
        } else {
            assert(ids =~= prev);
            assert(target =~= prev_target);
        }
    }
}

/// The ids `for_each_comp_id` hands out are distinct single bits of the key,
/// and folding them back together with `+` gives the key.
pub proof fn lemma_comp_ids_fold(key: Key)
    ensures
        ids_union(comp_ids_below(key, 64)) == key@,
        forall|a: int|
            0 <= a < comp_ids_below(key, 64).len() ==> (#[trigger] comp_ids_below(key, 64)[a])@
                == set![positions_below(key.bits(), 64)[a]] && key@.contains(
                positions_below(key.bits(), 64)[a],
            ),
        forall|a: int, b: int|
            0 <= a < b < comp_ids_below(key, 64).len() ==> (#[trigger] comp_ids_below(key, 64)[a])@.disjoint(
                (#[trigger] comp_ids_below(key, 64)[b])@,
            ),
{
    lemma_union_below(key, 64);
    assert(Set::new(|i: nat| i < 64 && bit_of(key.bits(), i)) =~= key@);
    lemma_positions(key.bits(), 64);
    let pos = positions_below(key.bits(), 64);
    assert forall|a: int| 0 <= a < comp_ids_below(key, 64).len() implies (
    #[trigger] comp_ids_below(key, 64)[a])@ == set![pos[a]] && key@.contains(pos[a]) by {
        CompId::lemma_at(pos[a]);
    }
    assert forall|a: int, b: int| 0 <= a < b < comp_ids_below(key, 64).len() implies (
    #[trigger] comp_ids_below(key, 64)[a])@.disjoint((#[trigger] comp_ids_below(key, 64)[b])@) by {
        CompId::lemma_at(pos[a]);
        CompId::lemma_at(pos[b]);
    }
}

impl core::ops::Add<CompId> for CompId {
    type Output = Key;

    fn add(self, rhs: CompId) -> (r: Key)
        ensures
            r@ == self@.union(rhs@),
    {
        proof {
            lemma_or_set(self.0, rhs.0);
        }
        Key(self.0 | rhs.0)
    }
}

impl vstd::std_specs::ops::AddSpecImpl<CompId> for CompId {
    open spec fn obeys_add_spec() -> bool {
        true
    }

    open spec fn add_req(self, rhs: CompId) -> bool {
        true
    }

    closed spec fn add_spec(self, rhs: CompId) -> Key {
        Key(self.0 | rhs.0)
    }
}

impl core::ops::Sub<CompId> for CompId {
    type Output = Key;

    fn sub(self, rhs: CompId) -> (r: Key)
        ensures
            r@ == self@.difference(rhs@),
    {
        proof {
            lemma_and_not_set(self.0, rhs.0);
        }
        Key(!(!self.0 | rhs.0))
    }
}

impl vstd::std_specs::ops::SubSpecImpl<CompId> for CompId {
    open spec fn obeys_sub_spec() -> bool {
        true
    }

    open spec fn sub_req(self, rhs: CompId) -> bool {
        true
    }

    closed spec fn sub_spec(self, rhs: CompId) -> Key {
        Key(!(!self.0 | rhs.0))
    }
}

impl From<CompId> for Key {
    fn from(comp_id: CompId) -> (r: Key)
        ensures
            r@ == comp_id@,
    {
        Key(comp_id.0)
    }
}

impl vstd::std_specs::convert::FromSpecImpl<CompId> for Key {
    open spec fn obeys_from_spec() -> bool {
        true
    }

    closed spec fn from_spec(comp_id: CompId) -> Key {
        Key(comp_id.0)
    }
}

impl core::ops::Add<Key> for Key {
    type Output = Self;

    fn add(self, rhs: Key) -> (r: Key)
        ensures
            r@ == self@.union(rhs@),
    {
        proof {
            lemma_or_set(self.0, rhs.0);
        }
        Key(self.0 | rhs.0)
    }
}

impl vstd::std_specs::ops::AddSpecImpl<Key> for Key {
    open spec fn obeys_add_spec() -> bool {
        true
    }

    open spec fn add_req(self, rhs: Key) -> bool {
        true
    }

    closed spec fn add_spec(self, rhs: Key) -> Key {
        Key(self.0 | rhs.0)
    }
}

impl core::ops::Add<CompId> for Key {
    type Output = Self;

    fn add(self, rhs: CompId) -> (r: Key)
        ensures
            r@ == self@.union(rhs@),
    {
        proof {
            lemma_or_set(self.0, rhs.0);
        }
        Key(self.0 | rhs.0)
    }
}

impl vstd::std_specs::ops::AddSpecImpl<CompId> for Key {
    open spec fn obeys_add_spec() -> bool {
        true
    }

    open spec fn add_req(self, rhs: CompId) -> bool {
        true
    }

    closed spec fn add_spec(self, rhs: CompId) -> Key {
        Key(self.0 | rhs.0)
    }
}

impl core::ops::Sub<Key> for Key {
    type Output = Self;

    fn sub(self, rhs: Key) -> (r: Key)
        ensures
            r@ == self@.difference(rhs@),
    {
        proof {
            lemma_and_not_set(self.0, rhs.0);
        }
        Key(!(!self.0 | rhs.0))
    }
}

impl vstd::std_specs::ops::SubSpecImpl<Key> for Key {
    open spec fn obeys_sub_spec() -> bool {
        true
    }

    open spec fn sub_req(self, rhs: Key) -> bool {
        true
    }

    closed spec fn sub_spec(self, rhs: Key) -> Key {
        Key(!(!self.0 | rhs.0))
    }
}

impl core::ops::Sub<CompId> for Key {
    type Output = Self;

    fn sub(self, rhs: CompId) -> (r: Key)
        ensures
            r@ == self@.difference(rhs@),
    {
        proof {
            lemma_and_not_set(self.0, rhs.0);
        }
        Key(!(!self.0 | rhs.0))
    }
}

impl vstd::std_specs::ops::SubSpecImpl<CompId> for Key {
    open spec fn obeys_sub_spec() -> bool {
        true
    }

    open spec fn sub_req(self, rhs: CompId) -> bool {
        true
    }

    closed spec fn sub_spec(self, rhs: CompId) -> Key {
        Key(!(!self.0 | rhs.0))
    }
}

} // verus!
