use vstd::prelude::*;
use crate::key::{CompId, Key, positions_below, lemma_positions};

verus! {

/// How many entities a new bucket has room for before it grows.
pub const BUCKET_CAP: usize = 100000;

/// The size registered last for `id` in `table`, read as a sequence of map inserts.
pub open spec fn size_lookup(table: Seq<(CompId, usize)>, id: CompId) -> Option<usize>
    decreases table.len(),
{
    if table.len() == 0 {
        None
    } else if table.last().0 == id {
        Some(table.last().1)
    } else {
        size_lookup(table.drop_last(), id)
    }
}

/// The columns a bucket gets for the ids at `positions`: one per id, in order, that
/// is registered with a size other than zero.
pub open spec fn columns_for(table: Seq<(CompId, usize)>, positions: Seq<nat>) -> Seq<
    (CompId, usize),
>
    decreases positions.len(),
{
    if positions.len() == 0 {
        Seq::empty()
    } else {
        let prev = columns_for(table, positions.drop_last());
        let id = CompId::at(positions.last());
        let size = size_lookup(table, id).unwrap();
        if size == 0 {
            prev
        } else {
            prev.push((id, size))
        }
    }
}

/// A bucket with the given columns and no entity, stored or waiting.
pub open spec fn empty_bucket(columns: Seq<(CompId, usize)>) -> BucketView {
    BucketView {
        len: 0,
        cap: BUCKET_CAP as nat,
        pending_len: 0,
        pending_cap: BUCKET_CAP as nat,
        columns,
        data: Seq::new(columns.len(), |j: int| Seq::<Seq<u8>>::empty()),
        pending: Seq::new(columns.len(), |j: int| Seq::<Seq<u8>>::empty()),
    }
}

/// The bytes of the last entry for `id` in `data`.
pub open spec fn last_bytes(data: Seq<(CompId, Vec<u8>)>, id: CompId) -> Option<Seq<u8>>
    decreases data.len(),
{
    if data.len() == 0 {
        None
    } else if data.last().0 == id {
        Some(data.last().1@)
    } else {
        last_bytes(data.drop_last(), id)
    }
}

/// The capacity after making room for `len + extra` entities in a store of
/// capacity `cap`: doubled past the need when the need exceeds it.
pub open spec fn grown_cap(len: nat, extra: nat, cap: nat) -> nat {
    if len + extra > cap {
        ((len + extra) * 2) as nat
    } else {
        cap
    }
}

/// `s` with the element at `i` replaced by the last one, and the last one dropped.
pub open spec fn swap_remove_seq<A>(s: Seq<A>, i: int) -> Seq<A> {
    s.update(i, s.last()).drop_last()
}

/// `s` after swap-removing the positions in `idx`, greatest position first.
pub open spec fn remove_indices<A>(s: Seq<A>, idx: Seq<u32>) -> Seq<A>
    decreases idx.len(),
{
    if idx.len() == 0 {
        s
    } else {
        remove_indices(swap_remove_seq(s, idx.last() as int), idx.drop_last())
    }
}

/// Whether `idx` is strictly increasing.
pub open spec fn strictly_increasing(idx: Seq<u32>) -> bool {
    forall|a: int, b: int| 0 <= a < b < idx.len() ==> idx[a] < idx[b]
}

proof fn lemma_increasing_gap(idx: Seq<u32>, a: int, b: int)
    requires
        strictly_increasing(idx),
        0 <= a <= b < idx.len(),
    ensures
        idx[a] + (b - a) <= idx[b],
    decreases b - a,
{
    if a < b {
        lemma_increasing_gap(idx, a, b - 1);
    }
}

proof fn lemma_swap_remove_map<A, B>(s: Seq<A>, i: int, f: spec_fn(A) -> B)
    requires
        0 <= i < s.len(),
    ensures
        swap_remove_seq(s, i).map_values(f) == swap_remove_seq(s.map_values(f), i),
{
    assert(swap_remove_seq(s, i).map_values(f) =~= swap_remove_seq(s.map_values(f), i));
}

/// The byte strings held by `v`.
pub open spec fn bytes_of(v: Vec<Vec<u8>>) -> Seq<Seq<u8>> {
    v@.map_values(|e: Vec<u8>| e@)
}

/// What the closure is handed for entity `i`: the entity's bytes in each of the
/// columns `cols`, in that order.
pub open spec fn entity_args(v: BucketView, cols: Seq<usize>, i: int) -> Seq<Seq<u8>> {
    Seq::new(cols.len(), |a: int| v.data[cols[a] as int][i])
}

/// The bytes of an entity in column `c` after the closure's outputs for the first
/// `n` argument positions are written back: a position writes its output into its
/// column when the output has the column's size, later positions last.
pub open spec fn written_back(
    old_bytes: Seq<u8>,
    c: int,
    cols: Seq<usize>,
    out: Seq<Seq<u8>>,
    size: nat,
    n: nat,
) -> Seq<u8>
    decreases n,
{
    if n == 0 {
        old_bytes
    } else {
        let a = n - 1;
        if cols[a] == c && a < out.len() && out[a].len() == size {
            out[a]
        } else {
            written_back(old_bytes, c, cols, out, size, (n - 1) as nat)
        }
    }
}

/// Whether capture `c` is set in `flags`.
pub open spec fn flag(flags: Seq<bool>, c: int) -> bool {
    0 <= c < flags.len() && flags[c]
}

/// The indices below `n` at which `fl` holds, increasing, as `u32`.
pub open spec fn captured(n: nat, fl: spec_fn(int) -> bool) -> Seq<u32>
    decreases n,
{
    if n == 0 {
        Seq::empty()
    } else {
        let prev = captured((n - 1) as nat, fl);
        if fl(n - 1) {
            prev.push((n - 1) as u32)
        } else {
            prev
        }
    }
}

proof fn lemma_captured_agree(n: nat, f1: spec_fn(int) -> bool, f2: spec_fn(int) -> bool)
    requires
        forall|i: int| 0 <= i < n ==> #[trigger] f1(i) == f2(i),
    ensures
        captured(n, f1) == captured(n, f2),
    decreases n,
{
    if n > 0 {
        lemma_captured_agree((n - 1) as nat, f1, f2);
    }
}

/// One call of the closure: what it was handed, and what it returned.
pub type ClosureCall = (Vec<Vec<u8>>, (Vec<Vec<u8>>, Vec<bool>));

/// The stored data of `old` after entity `i` of each column has had the outputs
/// of `calls[i]` written back.
pub open spec fn data_after(old: BucketView, cols: Seq<usize>, calls: Seq<ClosureCall>) -> Seq<
    Seq<Seq<u8>>,
> {
    Seq::new(
        old.columns.len(),
        |c: int|
            Seq::new(
                old.len,
                |i: int|
                    written_back(
                        old.data[c][i],
                        c,
                        cols,
                        bytes_of(calls[i].1.0),
                        old.columns[c].1 as nat,
                        cols.len(),
                    ),
            ),
    )
}

/// `new` and `caps` are what visiting every stored entity of `old` in order gives,
/// with `calls[i]` the closure's call for entity `i`.
pub open spec fn iterated_with<F: Fn(Vec<Vec<u8>>) -> (Vec<Vec<u8>>, Vec<bool>)>(
    old: BucketView,
    new: BucketView,
    cols: Seq<usize>,
    f: F,
    caps: Seq<Seq<u32>>,
    calls: Seq<ClosureCall>,
) -> bool {
    &&& calls.len() == old.len
    &&& forall|i: int|
        0 <= i < old.len ==> bytes_of(#[trigger] calls[i].0) == entity_args(old, cols, i)
            && call_ensures(f, (calls[i].0,), calls[i].1)
    &&& new == BucketView { data: data_after(old, cols, calls), ..old }
    &&& forall|c: int|
        0 <= c < caps.len() ==> #[trigger] caps[c] == captured(
            old.len,
            |i: int| flag(calls[i].1.1@, c),
        )
}

/// `new` and `caps` are what visiting every stored entity of `old` in order with `f`
/// gives: `f` is handed the entity's bytes in the columns `cols`, the outputs it
/// returns are written back, and capture `c` lists the entities for which it
/// returned flag `c`.
pub open spec fn iterated<F: Fn(Vec<Vec<u8>>) -> (Vec<Vec<u8>>, Vec<bool>)>(
    old: BucketView,
    new: BucketView,
    cols: Seq<usize>,
    f: F,
    caps: Seq<Seq<u32>>,
) -> bool {
    exists|calls: Seq<ClosureCall>| iterated_with(old, new, cols, f, caps, calls)
}

/// Each column a bucket gets is the id at one of the positions, with the size
/// registered for it.
pub(crate) proof fn lemma_columns_for(table: Seq<(CompId, usize)>, positions: Seq<nat>)
    ensures
        forall|j: int|
            #![trigger columns_for(table, positions)[j]]
            0 <= j < columns_for(table, positions).len() ==> exists|k: int|
                0 <= k < positions.len() && #[trigger] columns_for(table, positions)[j] == (
                CompId::at(positions[k]),
                size_lookup(table, CompId::at(positions[k])).unwrap(),
            ),
    decreases positions.len(),
{
    if positions.len() > 0 {
        let prev = positions.drop_last();
        lemma_columns_for(table, prev);
        let cs = columns_for(table, positions);
        assert forall|j: int| #![trigger cs[j]] 0 <= j < cs.len() implies exists|k: int|
            0 <= k < positions.len() && #[trigger] cs[j] == (
            CompId::at(positions[k]),
            size_lookup(table, CompId::at(positions[k])).unwrap(),
        ) by {
            if j < columns_for(table, prev).len() {
                let k = choose|k: int|
                    0 <= k < prev.len() && #[trigger] columns_for(table, prev)[j] == (
                    CompId::at(prev[k]),
                    size_lookup(table, CompId::at(prev[k])).unwrap(),
                );
                assert(positions[k] == prev[k]);
            } else {
                assert(positions[positions.len() - 1] == positions.last());
            }
        }
    }
}

/// The columns a bucket gets are exactly its ids of nonzero size: when every id
/// at a listed position has a registered size, each one whose size is not zero
/// has a column of that size (whatever the size), and every column is such an id.
pub proof fn lemma_columns_for_exact(table: Seq<(CompId, usize)>, positions: Seq<nat>)
    requires
        forall|k: int|
            0 <= k < positions.len() ==> size_lookup(table, CompId::at(#[trigger] positions[k]))
                .is_some(),
    ensures
        forall|k: int, sz: usize|
            0 <= k < positions.len() && size_lookup(table, CompId::at(#[trigger] positions[k]))
                == Some(sz) && sz != 0 ==> #[trigger] columns_for(table, positions).contains(
                (CompId::at(positions[k]), sz),
            ),
        forall|j: int|
            #![trigger columns_for(table, positions)[j]]
            0 <= j < columns_for(table, positions).len() ==> exists|k: int|
                0 <= k < positions.len() && columns_for(table, positions)[j].0
                    == CompId::at(#[trigger] positions[k]) && size_lookup(table, CompId::at(positions[k]))
                    == Some(columns_for(table, positions)[j].1) && columns_for(
                    table,
                    positions,
                )[j].1 != 0,
    decreases positions.len(),
{
    if positions.len() > 0 {
        let prev = positions.drop_last();
        assert forall|k: int| 0 <= k < prev.len() implies size_lookup(
            table,
            CompId::at(#[trigger] prev[k]),
        ).is_some() by {
            assert(prev[k] == positions[k]);
        }
        lemma_columns_for_exact(table, prev);
        let cs = columns_for(table, positions);
        let pcs = columns_for(table, prev);
        let n = positions.len() - 1;
        assert(positions[n] == positions.last());
        assert forall|k: int, sz: usize|
            0 <= k < positions.len() && size_lookup(table, CompId::at(#[trigger] positions[k]))
                == Some(sz) && sz != 0 implies #[trigger] cs.contains(
            (CompId::at(positions[k]), sz),
        ) by {
            if k < n {
                assert(prev[k] == positions[k]);
                assert(pcs.contains((CompId::at(prev[k]), sz)));
                let m = choose|m: int| 0 <= m < pcs.len() && pcs[m] == (CompId::at(positions[k]), sz);
                assert(cs[m] == pcs[m]);
            } else {
                assert(cs[cs.len() - 1] == (CompId::at(positions[k]), sz));
            }
        }
        assert forall|j: int| #![trigger cs[j]] 0 <= j < cs.len() implies exists|k: int|
            0 <= k < positions.len() && cs[j].0 == CompId::at(#[trigger] positions[k])
                && size_lookup(table, CompId::at(positions[k])) == Some(cs[j].1) && cs[j].1 != 0 by {
            if j < pcs.len() {
                let k = choose|k: int|
                    0 <= k < prev.len() && pcs[j].0 == CompId::at(#[trigger] prev[k])
                        && size_lookup(table, CompId::at(prev[k])) == Some(pcs[j].1) && pcs[j].1
                        != 0;
                assert(prev[k] == positions[k]);
                assert(cs[j] == pcs[j]);
            } else {
                assert(cs[j].0 == CompId::at(positions[n]));
                assert(size_lookup(table, CompId::at(positions[n])) == Some(cs[j].1));
            }
        }
    }
}

/// A new bucket for `key` has a column for exactly the members of `key` whose
/// registered size is not zero, whatever that size is, each with its size.
pub proof fn lemma_new_bucket_columns(key: Key, table: Seq<(CompId, usize)>)
    requires
        forall|p: nat| key@.contains(p) ==> size_lookup(table, #[trigger] CompId::at(p)).is_some(),
    ensures
        forall|p: nat, sz: usize|
            key@.contains(p) && size_lookup(table, CompId::at(p)) == Some(sz) && sz != 0
                ==> #[trigger] columns_for(table, positions_below(key.bits(), 64)).contains(
                (CompId::at(p), sz),
            ),
        forall|j: int|
            #![trigger columns_for(table, positions_below(key.bits(), 64))[j]]
            0 <= j < columns_for(table, positions_below(key.bits(), 64)).len() ==> exists|p: nat|
                key@.contains(p) && columns_for(table, positions_below(key.bits(), 64))[j].0
                    == #[trigger] CompId::at(p) && size_lookup(table, CompId::at(p)) == Some(
                    columns_for(table, positions_below(key.bits(), 64))[j].1,
                ) && columns_for(table, positions_below(key.bits(), 64))[j].1 != 0,
{
    let pos = positions_below(key.bits(), 64);
    lemma_positions(key.bits(), 64);
    assert forall|k: int| 0 <= k < pos.len() implies size_lookup(
        table,
        CompId::at(#[trigger] pos[k]),
    ).is_some() by {
        assert(crate::key::bit_of(key.bits(), pos[k]));
        assert(key@.contains(pos[k]));
    }
    lemma_columns_for_exact(table, pos);
    let cs = columns_for(table, pos);
    assert forall|p: nat, sz: usize|
        key@.contains(p) && size_lookup(table, CompId::at(p)) == Some(sz) && sz != 0 implies #[trigger] cs.contains(
        (CompId::at(p), sz),
    ) by {
        assert(crate::key::bit_of(key.bits(), p));
        let k = choose|k: int| 0 <= k < pos.len() && pos[k] == p;
        assert(pos[k] == p);
    }
    assert forall|j: int| #![trigger cs[j]] 0 <= j < cs.len() implies exists|p: nat|
        key@.contains(p) && cs[j].0 == #[trigger] CompId::at(p) && size_lookup(table, CompId::at(p))
            == Some(cs[j].1) && cs[j].1 != 0 by {
        let k = choose|k: int|
            0 <= k < pos.len() && cs[j].0 == CompId::at(#[trigger] pos[k]) && size_lookup(
                table,
                CompId::at(pos[k]),
            ) == Some(cs[j].1) && cs[j].1 != 0;
        assert(crate::key::bit_of(key.bits(), pos[k]));
        assert(key@.contains(pos[k]));
    }
}

/// `last_bytes` finds an entry when one has the id, and the entry's length is
/// the one all entries with the id share.
pub(crate) proof fn lemma_last_bytes(data: Seq<(CompId, Vec<u8>)>, id: CompId, len: nat)
    requires
        exists|m: int| 0 <= m < data.len() && (#[trigger] data[m]).0 == id,
        forall|m: int| 0 <= m < data.len() && (#[trigger] data[m]).0 == id ==> data[m].1@.len() == len,
    ensures
        last_bytes(data, id) matches Some(b) && b.len() == len,
    decreases data.len(),
{
    if data.last().0 != id {
        let m = choose|m: int| 0 <= m < data.len() && (#[trigger] data[m]).0 == id;
        assert(data.drop_last()[m] == data[m]);
        assert forall|q: int|
            0 <= q < data.drop_last().len() && (#[trigger] data.drop_last()[q]).0
                == id implies data.drop_last()[q].1@.len() == len by {
            assert(data.drop_last()[q] == data[q]);
        }
        lemma_last_bytes(data.drop_last(), id, len);
    } else {
        assert(data[data.len() - 1] == data.last());
    }
}

/// The position of the first column at or after `i` with id `id`.
pub open spec fn column_index_from(columns: Seq<(CompId, usize)>, id: CompId, i: nat) -> Option<
    nat,
>
    decreases columns.len() - i,
{
    if i >= columns.len() {
        None
    } else if columns[i as int].0 == id {
        Some(i)
    } else {
        column_index_from(columns, id, i + 1)
    }
}

/// The position of the first column with id `id`.
pub open spec fn column_index(columns: Seq<(CompId, usize)>, id: CompId) -> Option<nat> {
    column_index_from(columns, id, 0)
}

/// A column found by `column_index` is in range.
pub(crate) proof fn lemma_column_index(columns: Seq<(CompId, usize)>, id: CompId, i: nat)
    ensures
        column_index_from(columns, id, i) matches Some(j) ==> i <= j < columns.len()
            && columns[j as int].0 == id,
    decreases columns.len() - i,
{
    if i < columns.len() && columns[i as int].0 != id {
        lemma_column_index(columns, id, i + 1);
    }
}

proof fn lemma_remove_map<A, B>(s: Seq<A>, idx: Seq<u32>, f: spec_fn(A) -> B)
    requires
        strictly_increasing(idx),
        forall|k: int| 0 <= k < idx.len() ==> idx[k] < s.len(),
    ensures
        remove_indices(s.map_values(f), idx) == remove_indices(s, idx).map_values(f),
        remove_indices(s, idx).len() == s.len() - idx.len(),
    decreases idx.len(),
{
    if idx.len() > 0 {
        let i = idx.last() as int;
        let rest = idx.drop_last();
        assert(idx[idx.len() - 1] == idx.last());
        let s2 = swap_remove_seq(s, i);
        assert forall|k: int| 0 <= k < rest.len() implies rest[k] < s2.len() by {
            assert(rest[k] == idx[k]);
            assert(idx[k] < idx[idx.len() - 1]);
        }
        lemma_swap_remove_map(s, i, f);
        lemma_remove_map(s2, rest, f);
    }
}

proof fn lemma_remove_distinct(s: Seq<int>, idx: Seq<u32>)
    requires
        strictly_increasing(idx),
        forall|k: int| 0 <= k < idx.len() ==> idx[k] < s.len(),
        s.no_duplicates(),
    ensures
        remove_indices(s, idx).no_duplicates(),
        forall|r: int| 0 <= r < remove_indices(s, idx).len() ==> s.contains(
            #[trigger] remove_indices(s, idx)[r],
        ),
    decreases idx.len(),
{
    if idx.len() > 0 {
        let i = idx.last() as int;
        let rest = idx.drop_last();
        assert(idx[idx.len() - 1] == idx.last());
        let s2 = swap_remove_seq(s, i);
        assert forall|k: int| 0 <= k < rest.len() implies rest[k] < s2.len() by {
            assert(rest[k] == idx[k]);
            assert(idx[k] < idx[idx.len() - 1]);
        }
        assert forall|a: int, b: int| 0 <= a < s2.len() && 0 <= b < s2.len() && a != b implies s2[a]
            != s2[b] by {
            let oa = if a == i {
                s.len() - 1
            } else {
                a
            };
            let ob = if b == i {
                s.len() - 1
            } else {
                b
            };
            assert(s2[a] == s[oa] && s2[b] == s[ob]);
        }
        assert forall|r: int| 0 <= r < s2.len() implies s.contains(#[trigger] s2[r]) by {
            if r == i {
                assert(s2[r] == s[s.len() - 1]);
            } else {
                assert(s2[r] == s[r]);
            }
        }
        lemma_remove_distinct(s2, rest);
        assert forall|r: int| 0 <= r < remove_indices(s, idx).len() implies s.contains(
            #[trigger] remove_indices(s, idx)[r],
        ) by {
            assert(s2.contains(remove_indices(s2, rest)[r]));
        }
    }
}

/// Removal moves whole rows: the row at each position after removal is the row
/// that was at position `rows[r]` before, where `rows` depends only on the
/// number of rows and the removed positions, never on what the rows hold, and
/// no old row is used twice. Every column of a bucket is removed with the same
/// positions, so each kept entity keeps all its components together.
pub proof fn lemma_remove_moves_rows<A>(s: Seq<A>, idx: Seq<u32>)
    requires
        strictly_increasing(idx),
        forall|k: int| 0 <= k < idx.len() ==> idx[k] < s.len(),
    ensures
        ({
            let rows = remove_indices(Seq::new(s.len(), |p: int| p), idx);
            &&& rows.len() == s.len() - idx.len()
            &&& rows.no_duplicates()
            &&& forall|r: int| 0 <= r < rows.len() ==> 0 <= #[trigger] rows[r] < s.len()
            &&& remove_indices(s, idx) == rows.map_values(|p: int| s[p])
        }),
{
    let iota = Seq::new(s.len(), |p: int| p);
    let rows = remove_indices(iota, idx);
    let f = |p: int| s[p];
    lemma_remove_map(iota, idx, f);
    assert(iota.map_values(f) =~= s);
    lemma_remove_distinct(iota, idx);
    assert forall|r: int| 0 <= r < rows.len() implies 0 <= #[trigger] rows[r] < s.len() by {
        assert(iota.contains(rows[r]));
    }
}

/// The rows of a bucket after `remove`: each kept entity is one old row, with
/// all its components, found at the same old position in every column.
pub proof fn lemma_bucket_remove_rows(old: BucketView, new: BucketView, idx: Seq<u32>)
    requires
        old.shape(),
        strictly_increasing(idx),
        forall|k: int| 0 <= k < idx.len() ==> idx[k] < old.len,
        new == (BucketView {
            len: (old.len - idx.len()) as nat,
            data: Seq::new(old.columns.len(), |j: int| remove_indices(old.data[j], idx)),
            ..old
        }),
    ensures
        ({
            let rows = remove_indices(Seq::new(old.len, |p: int| p), idx);
            &&& rows.len() == new.len
            &&& rows.no_duplicates()
            &&& forall|r: int| 0 <= r < rows.len() ==> 0 <= #[trigger] rows[r] < old.len
            &&& forall|c: int, r: int|
                0 <= c < old.columns.len() && 0 <= r < new.len ==> #[trigger] new.data[c][r]
                    == old.data[c][rows[r]]
        }),
{
    let rows = remove_indices(Seq::new(old.len, |p: int| p), idx);
    assert forall|c: int, r: int|
        0 <= c < old.columns.len() && 0 <= r < new.len implies #[trigger] new.data[c][r]
        == old.data[c][rows[r]] by {
        let _t = old.columns[c];
        lemma_remove_moves_rows(old.data[c], idx);
        assert(Seq::new(old.data[c].len(), |p: int| p) =~= Seq::new(old.len, |p: int| p));
    }
    if old.columns.len() == 0 {
        lemma_remove_moves_rows(Seq::new(old.len, |p: int| p), idx);
    } else {
        let _t = old.columns[0];
        lemma_remove_moves_rows(old.data[0], idx);
        assert(Seq::new(old.data[0].len(), |p: int| p) =~= Seq::new(old.len, |p: int| p));
    }
}

/// Removing entities keeps every entity whose position is not removed, and
/// leaves as many entities as there were less the number removed.
pub proof fn lemma_remove_keeps_others<A>(s: Seq<A>, idx: Seq<u32>, j: int)
    requires
        strictly_increasing(idx),
        forall|k: int| 0 <= k < idx.len() ==> idx[k] < s.len(),
        0 <= j < s.len(),
        !idx.contains(j as u32),
    ensures
        remove_indices(s, idx).contains(s[j]),
        remove_indices(s, idx).len() == s.len() - idx.len(),
    decreases idx.len(),
{
    if idx.len() > 0 {
        let i = idx.last() as int;
        let s2 = swap_remove_seq(s, i);
        let rest = idx.drop_last();
        assert(idx[idx.len() - 1] == idx.last());
        assert forall|k: int| 0 <= k < rest.len() implies rest[k] < s2.len() by {
            assert(rest[k] == idx[k]);
            assert(idx[k] < idx[idx.len() - 1]);
        }
        let j2 = if j == s.len() - 1 {
            i
        } else {
            j
        };
        assert(j != i);
        assert(s2[j2] == s[j]);
        assert(!rest.contains(j2 as u32)) by {
            if rest.contains(j2 as u32) {
                let k = choose|k: int| 0 <= k < rest.len() && rest[k] == j2 as u32;
                assert(rest[k] == idx[k]);
                if j2 == i {
                    assert(idx[k] < idx[idx.len() - 1]);
                } else {
                    assert(idx.contains(j as u32));
                }
            }
        }
        lemma_remove_keeps_others(s2, rest, j2);
    } else {
    }
}

/// Looks up the size registered last for `id`.
pub fn lookup_size(table: &Vec<(CompId, usize)>, id: CompId) -> (r: Option<usize>)
    ensures
        r == size_lookup(table@, id),
{
    let mut i = table.len();
    assert(table@.take(i as int) =~= table@);
    while i > 0
        invariant
            i <= table.len(),
            size_lookup(table@, id) == size_lookup(table@.take(i as int), id),
        decreases i,
    {
        assert(table@.take(i as int).drop_last() =~= table@.take(i - 1));
        if table[i - 1].0 == id {
            return Some(table[i - 1].1);
        }
        i = i - 1;
    }
    None
}

/// Finds the bytes of the last entry for `id`.
pub fn find_last_bytes(data: &Vec<(CompId, Vec<u8>)>, id: CompId) -> (r: Option<&Vec<u8>>)
    ensures
        match r {
            Some(b) => last_bytes(data@, id) == Some(b@),
            None => last_bytes(data@, id).is_none(),
        },
{
    let mut i = data.len();
    assert(data@.take(i as int) =~= data@);
    while i > 0
        invariant
            i <= data.len(),
            last_bytes(data@, id) == last_bytes(data@.take(i as int), id),
        decreases i,
    {
        assert(data@.take(i as int).drop_last() =~= data@.take(i - 1));
        if data[i - 1].0 == id {
            return Some(&data[i - 1].1);
        }
        i = i - 1;
    }
    None
}

/// Copies a byte string.
pub fn copy_bytes(b: &Vec<u8>) -> (r: Vec<u8>)
    ensures
        r@ == b@,
{
    let r = b.clone();
    proof {
        assert forall|i: int| 0 <= i < b.len() implies r@[i] == b@[i] by {
            assert(cloned::<u8>(b[i], r[i]));
        }
        assert(r@ =~= b@);
    }
    r
}

fn same_id(id: CompId) -> (r: CompId)
    ensures
        r == id,
{
    id
}

/// Appends `i` to each capture list whose flag is set.
fn record_captures(caps: &mut Vec<Vec<u32>>, flags: &Vec<bool>, i: usize)
    ensures
        final(caps).len() == old(caps).len(),
        forall|c: int|
            0 <= c < old(caps).len() ==> (#[trigger] final(caps)[c])@ == if flag(flags@, c) {
                old(caps)[c]@.push(i as u32)
            } else {
                old(caps)[c]@
            },
{
    let ghost o = caps@;
    let mut c: usize = 0;
    while c < caps.len()
        invariant
            c <= caps.len(),
            caps.len() == o.len(),
            o == old(caps)@,
            forall|d: int|
                0 <= d < caps.len() ==> (#[trigger] caps[d])@ == if d < c && flag(flags@, d) {
                    o[d]@.push(i as u32)
                } else {
                    o[d]@
                },
        decreases o.len() - c,
    {
        if c < flags.len() && flags[c] {
            caps[c].push(i as u32);
        }
        c = c + 1;
    }
}

/// The data of one component type in a bucket: one byte string per entity.
pub struct Column {
    id: CompId,
    size: usize,
    entities: Vec<Vec<u8>>,
}

impl Column {
    pub closed spec fn bytes(self) -> Seq<Seq<u8>> {
        self.entities@.map_values(|e: Vec<u8>| e@)
    }

    pub closed spec fn wf(self, len: nat) -> bool {
        &&& self.size > 0
        &&& self.entities.len() == len
        &&& forall|k: int| 0 <= k < len ==> (#[trigger] self.entities@[k]).len() == self.size
    }
}

/// What a bucket holds, as plain values.
pub ghost struct BucketView {
    /// Entities stored.
    pub len: nat,
    /// Entities that fit before the store grows.
    pub cap: nat,
    /// Entities waiting to be inserted.
    pub pending_len: nat,
    /// Waiting entities that fit before the queue grows.
    pub pending_cap: nat,
    /// The id and byte size of each column, in order.
    pub columns: Seq<(CompId, usize)>,
    /// For each column, the bytes of each stored entity.
    pub data: Seq<Seq<Seq<u8>>>,
    /// For each column, the bytes of each waiting entity.
    pub pending: Seq<Seq<Seq<u8>>>,
}

/// The entities of one archetype: those with exactly the same set of component types.
pub struct Bucket {
    len: usize,
    cap: usize,
    data: Vec<Column>,
    ins_len: usize,
    ins_cap: usize,
    ins: Vec<Column>,
}

impl View for Bucket {
    type V = BucketView;

    closed spec fn view(&self) -> BucketView {
        BucketView {
            len: self.len as nat,
            cap: self.cap as nat,
            pending_len: self.ins_len as nat,
            pending_cap: self.ins_cap as nat,
            columns: self.data@.map_values(|c: Column| (c.id, c.size)),
            data: self.data@.map_values(|c: Column| c.bytes()),
            pending: self.ins@.map_values(|c: Column| c.bytes()),
        }
    }
}

impl BucketView {
    /// The shape every bucket keeps: each column holds one byte string of the
    /// column's size per stored and per waiting entity.
    pub open spec fn shape(self) -> bool {
        &&& self.data.len() == self.columns.len()
        &&& self.pending.len() == self.columns.len()
        &&& self.len <= self.cap
        &&& self.pending_len <= self.pending_cap
        &&& self.cap <= usize::MAX
        &&& self.pending_cap <= usize::MAX
        &&& forall|j: int|
            #![trigger self.columns[j]]
            0 <= j < self.columns.len() ==> {
                &&& self.columns[j].1 > 0
                &&& self.data[j].len() == self.len
                &&& self.pending[j].len() == self.pending_len
                &&& forall|k: int|
                    0 <= k < self.len ==> (#[trigger] self.data[j][k]).len() == self.columns[j].1
                &&& forall|k: int|
                    0 <= k < self.pending_len ==> (#[trigger] self.pending[j][k]).len()
                        == self.columns[j].1
            }
    }
}

impl Bucket {
    /// The bucket's internal invariant.
    pub closed spec fn wf(self) -> bool {
        &&& self.len <= self.cap
        &&& self.ins_len <= self.ins_cap
        &&& self.data.len() == self.ins.len()
        &&& forall|j: int|
            #![trigger self.data[j]]
            0 <= j < self.data.len() ==> {
                &&& self.data[j].wf(self.len as nat)
                &&& self.ins[j].wf(self.ins_len as nat)
                &&& self.ins[j].id == self.data[j].id
                &&& self.ins[j].size == self.data[j].size
            }
    }

    /// A well-formed bucket has the shape its view promises.
    pub proof fn lemma_wf_shape(self)
        requires
            self.wf(),
        ensures
            self@.shape(),
    {
        let v = self@;
        assert forall|j: int| 0 <= j < v.columns.len() implies {
            &&& v.columns[j].1 > 0
            &&& v.data[j].len() == v.len
            &&& v.pending[j].len() == v.pending_len
            &&& forall|k: int| 0 <= k < v.len ==> (#[trigger] v.data[j][k]).len() == v.columns[j].1
            &&& forall|k: int|
                0 <= k < v.pending_len ==> (#[trigger] v.pending[j][k]).len() == v.columns[j].1
        } by {
            assert(self.data[j].wf(self.len as nat));
            assert(self.ins[j].wf(self.ins_len as nat));
        }
    }

    /// A new, empty bucket for the entities whose component types are the members
    /// of `key`: one column for each member whose registered size is not zero.
    pub fn new(key: Key, compid_to_size: &Vec<(CompId, usize)>) -> (r: Bucket)
        requires
            forall|k: int|
                0 <= k < positions_below(key.bits(), 64).len() ==> size_lookup(
                    compid_to_size@,
                    CompId::at(#[trigger] positions_below(key.bits(), 64)[k]),
                ).is_some(),
        ensures
            r.wf(),
            r@ == empty_bucket(columns_for(compid_to_size@, positions_below(key.bits(), 64))),
    {
        let ghost pos = positions_below(key.bits(), 64);
        let ids = key.for_each_comp_id(same_id);
        let mut data: Vec<Column> = Vec::new();
        let mut ins: Vec<Column> = Vec::new();
        let mut k: usize = 0;
        while k < ids.len()
            invariant
                k <= ids.len(),
                ids.len() == pos.len(),
                forall|m: int| 0 <= m < ids.len() ==> #[trigger] ids[m] == CompId::at(pos[m]),
                forall|m: int|
                    0 <= m < pos.len() ==> size_lookup(
                        compid_to_size@,
                        CompId::at(#[trigger] pos[m]),
                    ).is_some(),
                data.len() == ins.len(),
                data@.map_values(|c: Column| (c.id, c.size)) == columns_for(
                    compid_to_size@,
                    pos.take(k as int),
                ),
                forall|j: int|
                    #![trigger data[j]]
                    0 <= j < data.len() ==> {
                        &&& data[j].wf(0)
                        &&& ins[j].wf(0)
                        &&& ins[j].id == data[j].id
                        &&& ins[j].size == data[j].size
                    },
            decreases ids.len() - k,
        {
            let id = ids[k];
            assert(pos.take(k + 1).drop_last() =~= pos.take(k as int));
            let size = lookup_size(compid_to_size, id).unwrap();
            if size != 0 {
                let ghost before = data@;
                let ghost before_ins = ins@;
                let c1 = Column { id, size, entities: Vec::with_capacity(BUCKET_CAP) };
                let c2 = Column { id, size, entities: Vec::with_capacity(BUCKET_CAP) };
                assert(c1.wf(0) && c2.wf(0));
                data.push(c1);
                ins.push(c2);
                assert forall|j: int| 0 <= j < data.len() implies {
                    &&& data[j].wf(0)
                    &&& ins[j].wf(0)
                    &&& ins[j].id == data[j].id
                    &&& ins[j].size == data[j].size
                } by {
                    if j < before.len() {
                        assert(data[j] == before[j]);
                        assert(ins[j] == before_ins[j]);
                    }
                }
                assert(data@.map_values(|c: Column| (c.id, c.size)) =~= before.map_values(
                    |c: Column| (c.id, c.size),
                ).push((id, size)));
            }
            assert(forall|j: int|
                #![trigger data[j]]
                0 <= j < data.len() ==> {
                    &&& data[j].wf(0)
                    &&& ins[j].wf(0)
                    &&& ins[j].id == data[j].id
                    &&& ins[j].size == data[j].size
                });
            k = k + 1;
        }
        assert(pos.take(pos.len() as int) =~= pos);
        let r = Bucket { len: 0, cap: BUCKET_CAP, data, ins_len: 0, ins_cap: BUCKET_CAP, ins };
        proof {
            let e = empty_bucket(r@.columns);
            assert forall|j: int| 0 <= j < r@.columns.len() implies r@.data[j] =~= e.data[j]
                && r@.pending[j] =~= e.pending[j] by {
                assert(r.data[j].wf(0));
                assert(r.ins[j].wf(0));
            }
            assert(r@.data =~= e.data);
            assert(r@.pending =~= e.pending);
        }
        r
    }

    /// Queues one entity for insertion: each column receives the bytes of the last
    /// entry of `data` with the column's id. The stored entities do not change
    /// until the queue is drained.
    pub fn queue_entity_insert(&mut self, data: &Vec<(CompId, Vec<u8>)>)
        requires
            old(self).wf(),
            forall|j: int|
                #![trigger old(self)@.columns[j]]
                0 <= j < old(self)@.columns.len() ==> match last_bytes(
                    data@,
                    old(self)@.columns[j].0,
                ) {
                    Some(b) => b.len() == old(self)@.columns[j].1,
                    None => false,
                },
            old(self)@.pending_len + 1 > old(self)@.pending_cap ==> (old(self)@.pending_len + 1)
                * 2 <= usize::MAX,
        ensures
            final(self).wf(),
            final(self)@ == (BucketView {
                pending_len: old(self)@.pending_len + 1,
                pending_cap: grown_cap(old(self)@.pending_len, 1, old(self)@.pending_cap),
                pending: Seq::new(
                    old(self)@.columns.len(),
                    |j: int|
                        old(self)@.pending[j].push(
                            last_bytes(data@, old(self)@.columns[j].0).unwrap(),
                        ),
                ),
                ..old(self)@
            }),
    {
        let ghost old_ins = self.ins@;
        assert forall|m: int|
            #![trigger old_ins[m]]
            0 <= m < old_ins.len() implies match last_bytes(data@, old_ins[m].id) {
            Some(b) => b.len() == old_ins[m].size,
            None => false,
        } by {
            assert(old(self).data[m].wf(old(self).len as nat));
            assert(old(self)@.columns[m] == (old(self).data[m].id, old(self).data[m].size));
        }
        let grow = self.ins_len + 1 > self.ins_cap;
        if grow {
            self.ins_cap = (self.ins_len + 1) * 2;
        }
        let mut j: usize = 0;
        while j < self.ins.len()
            invariant
                j <= self.ins.len(),
                self.ins.len() == old_ins.len(),
                self.data == old(self).data,
                self.len == old(self).len,
                self.cap == old(self).cap,
                self.ins_len == old(self).ins_len,
                self.ins_cap == grown_cap(
                    old(self).ins_len as nat,
                    1,
                    old(self).ins_cap as nat,
                ),
                old(self).wf(),
                old_ins == old(self).ins@,
                forall|m: int|
                    #![trigger self.ins[m]]
                    0 <= m < self.ins.len() ==> {
                        &&& self.ins[m].id == old_ins[m].id
                        &&& self.ins[m].size == old_ins[m].size
                        &&& if m < j {
                            &&& self.ins[m].wf((self.ins_len + 1) as nat)
                            &&& self.ins[m].bytes() == old_ins[m].bytes().push(
                                last_bytes(data@, old_ins[m].id).unwrap(),
                            )
                        } else {
                            self.ins[m] == old_ins[m]
                        }
                    },
                forall|m: int|
                    #![trigger old_ins[m]]
                    0 <= m < old_ins.len() ==> match last_bytes(data@, old_ins[m].id) {
                        Some(b) => b.len() == old_ins[m].size,
                        None => false,
                    },
            decreases old_ins.len() - j,
        {
            assert(old(self).data[j as int].wf(old(self).len as nat));
            assert(old_ins[j as int].id == old(self)@.columns[j as int].0);
            let id = self.ins[j].id;
            let b = find_last_bytes(data, id).unwrap();
            let c = copy_bytes(b);
            let ghost before = self.ins[j as int];
            if grow {
                self.ins[j].entities.reserve(1);
            }
            self.ins[j].entities.push(c);
            proof {
                let after = self.ins[j as int];
                assert(after.entities@ == before.entities@.push(c));
                assert(after.bytes() =~= before.bytes().push(c@));
                assert forall|k: int| 0 <= k < self.ins_len + 1 implies (
                #[trigger] after.entities@[k]).len() == after.size by {
                    if k < self.ins_len {
                        assert(after.entities@[k] == before.entities@[k]);
                    }
                }
            }
            j = j + 1;
        }
        self.ins_len = self.ins_len + 1;
        proof {
            let v = self@;
            let o = old(self)@;
            assert forall|m: int| 0 <= m < o.columns.len() implies v.pending[m] == o.pending[m].push(
                last_bytes(data@, o.columns[m].0).unwrap(),
            ) by {
                assert(self.ins[m].bytes() == old_ins[m].bytes().push(
                    last_bytes(data@, old_ins[m].id).unwrap(),
                ));
            }
            assert(v.pending =~= Seq::new(
                o.columns.len(),
                |m: int| o.pending[m].push(last_bytes(data@, o.columns[m].0).unwrap()),
            ));
            assert(v.columns =~= o.columns);
            assert(v.data =~= o.data);
            assert forall|m: int|
                #![trigger self.data[m]]
                0 <= m < self.data.len() implies {
                &&& self.data[m].wf(self.len as nat)
                &&& self.ins[m].wf(self.ins_len as nat)
                &&& self.ins[m].id == self.data[m].id
                &&& self.ins[m].size == self.data[m].size
            } by {
                assert(old(self).data[m].wf(old(self).len as nat));
            }
        }
    }

    /// Moves every queued entity into the store, after the stored ones, and empties
    /// the queue.
    pub fn insert_pending_entities(&mut self)
        requires
            old(self).wf(),
            old(self)@.len + old(self)@.pending_len <= usize::MAX,
            old(self)@.len + old(self)@.pending_len > old(self)@.cap ==> (old(self)@.len + old(
                self,
            )@.pending_len) * 2 <= usize::MAX,
        ensures
            final(self).wf(),
            final(self)@ == (BucketView {
                len: old(self)@.len + old(self)@.pending_len,
                cap: grown_cap(old(self)@.len, old(self)@.pending_len, old(self)@.cap),
                pending_len: 0,
                data: Seq::new(
                    old(self)@.columns.len(),
                    |j: int| old(self)@.data[j] + old(self)@.pending[j],
                ),
                pending: Seq::new(old(self)@.columns.len(), |j: int| Seq::<Seq<u8>>::empty()),
                ..old(self)@
            }),
    {
        let ghost old_data = self.data@;
        let ghost old_ins = self.ins@;
        proof {
            self.lemma_wf_shape();
        }
        if self.ins_len == 0 {
            proof {
                let v = self@;
                assert forall|j: int| 0 <= j < v.columns.len() implies v.pending[j] =~= Seq::<
                    Seq<u8>,
                >::empty() && v.data[j] + v.pending[j] =~= v.data[j] by {
                    let _c = v.columns[j];
                    assert(v.pending[j].len() == 0);
                }
                assert(v.data =~= Seq::new(v.columns.len(), |j: int| v.data[j] + v.pending[j]));
                assert(v.pending =~= Seq::new(v.columns.len(), |j: int| Seq::<Seq<u8>>::empty()));
            }
            assert(self.wf());
            return ;
        }
        let grow = self.len + self.ins_len > self.cap;
        if grow {
            self.cap = (self.len + self.ins_len) * 2;
        }
        let mut j: usize = 0;
        while j < self.data.len()
            invariant
                j <= self.data.len(),
                self.data.len() == old_data.len(),
                self.ins.len() == old_ins.len(),
                old_data.len() == old_ins.len(),
                self.len == old(self).len,
                self.cap == grown_cap(
                    old(self).len as nat,
                    old(self).ins_len as nat,
                    old(self).cap as nat,
                ),
                self.ins_len == old(self).ins_len,
                self.ins_cap == old(self).ins_cap,
                old(self).wf(),
                old_data == old(self).data@,
                old_ins == old(self).ins@,
                forall|m: int|
                    #![trigger self.data[m]]
                    0 <= m < self.data.len() ==> {
                        &&& self.data[m].id == old_data[m].id
                        &&& self.data[m].size == old_data[m].size
                        &&& self.ins[m].id == old_ins[m].id
                        &&& self.ins[m].size == old_ins[m].size
                        &&& if m < j {
                            &&& self.data[m].wf((self.len + self.ins_len) as nat)
                            &&& self.ins[m].wf(0)
                            &&& self.data[m].bytes() == old_data[m].bytes() + old_ins[m].bytes()
                        } else {
                            &&& self.data[m] == old_data[m]
                            &&& self.ins[m] == old_ins[m]
                        }
                    },
            decreases old_data.len() - j,
        {
            assert(old(self).data[j as int].wf(old(self).len as nat));
            let ghost d0 = self.data[j as int];
            let ghost i0 = self.ins[j as int];
            let ghost dv = self.data@;
            let ghost iv = self.ins@;
            if grow {
                let extra = self.ins_len;
                self.data[j].entities.reserve(extra);
            }
            self.data[j].entities.append(&mut self.ins[j].entities);
            proof {
                let d1 = self.data[j as int];
                let i1 = self.ins[j as int];
                assert(d1.entities@ == d0.entities@ + i0.entities@);
                assert(d1.bytes() =~= d0.bytes() + i0.bytes());
                assert(i1.entities@.len() == 0);
                assert forall|k: int| 0 <= k < self.len + self.ins_len implies (
                #[trigger] d1.entities@[k]).len() == d1.size by {
                    if k < self.len {
                        assert(d1.entities@[k] == d0.entities@[k]);
                    } else {
                        assert(d1.entities@[k] == i0.entities@[k - self.len]);
                    }
                }
                assert(d1.wf((self.len + self.ins_len) as nat));
                assert(i1.wf(0));
                assert(self.data@ == dv.update(j as int, d1));
                assert(self.ins@ == iv.update(j as int, i1));
                assert forall|m: int|
                    #![trigger self.data[m]]
                    0 <= m < self.data.len() && m != j implies self.data[m] == dv[m]
                    && self.ins[m] == iv[m] by {}
            }
            j = j + 1;
        }
        self.len = self.len + self.ins_len;
        self.ins_len = 0;
        proof {
            let v = self@;
            let o = old(self)@;
            assert forall|m: int| 0 <= m < o.columns.len() implies v.data[m] == o.data[m]
                + o.pending[m] && v.pending[m] == Seq::<Seq<u8>>::empty() by {
                assert(self.data[m].bytes() == old_data[m].bytes() + old_ins[m].bytes());
                assert(self.ins[m].wf(0));
                assert(v.pending[m] =~= Seq::<Seq<u8>>::empty());
            }
            assert(v.data =~= Seq::new(o.columns.len(), |j: int| o.data[j] + o.pending[j]));
            assert(v.pending =~= Seq::new(o.columns.len(), |j: int| Seq::<Seq<u8>>::empty()));
            assert(v.columns =~= o.columns);
            assert forall|m: int|
                #![trigger self.data[m]]
                0 <= m < self.data.len() implies {
                &&& self.data[m].wf(self.len as nat)
                &&& self.ins[m].wf(self.ins_len as nat)
                &&& self.ins[m].id == self.data[m].id
                &&& self.ins[m].size == self.data[m].size
            } by {
                assert(old(self).data[m].wf(old(self).len as nat));
            }
            assert(self.wf());
        }
    }

    /// Removes the stored entities at `indices` (given from least to greatest):
    /// greatest first, each is replaced by the last stored entity.
    pub fn remove(&mut self, indices: &[u32])
        requires
            old(self).wf(),
            strictly_increasing(indices@),
            forall|k: int| 0 <= k < indices.len() ==> indices[k] < old(self)@.len,
        ensures
            final(self).wf(),
            final(self)@ == (BucketView {
                len: (old(self)@.len - indices.len()) as nat,
                data: Seq::new(
                    old(self)@.columns.len(),
                    |j: int| remove_indices(old(self)@.data[j], indices@),
                ),
                ..old(self)@
            }),
    {
        let ghost old_data = self.data@;
        let n = indices.len();
        proof {
            if n > 0 {
                lemma_increasing_gap(indices@, 0, n - 1);
            }
        }
        let mut j: usize = 0;
        while j < self.data.len()
            invariant
                j <= self.data.len(),
                self.data.len() == old_data.len(),
                self.ins == old(self).ins,
                self.len == old(self).len,
                self.cap == old(self).cap,
                self.ins_len == old(self).ins_len,
                self.ins_cap == old(self).ins_cap,
                old(self).wf(),
                old_data == old(self).data@,
                n == indices.len(),
                n <= self.len,
                strictly_increasing(indices@),
                forall|k: int| 0 <= k < indices.len() ==> indices[k] < self.len,
                forall|m: int|
                    #![trigger self.data[m]]
                    0 <= m < self.data.len() ==> {
                        &&& self.data[m].id == old_data[m].id
                        &&& self.data[m].size == old_data[m].size
                        &&& if m < j {
                            &&& self.data[m].wf((self.len - n) as nat)
                            &&& self.data[m].bytes() == remove_indices(
                                old_data[m].bytes(),
                                indices@,
                            )
                        } else {
                            self.data[m] == old_data[m]
                        }
                    },
            decreases old_data.len() - j,
        {
            assert(old(self).data[j as int].wf(old(self).len as nat));
            let ghost dv = self.data@;
            let ghost orig = self.data[j as int].bytes();
            let mut k = n;
            assert(indices@.take(n as int) =~= indices@);
            while k > 0
                invariant
                    k <= n,
                    self.ins == old(self).ins,
                    self.len == old(self).len,
                    self.cap == old(self).cap,
                    self.ins_len == old(self).ins_len,
                    self.ins_cap == old(self).ins_cap,
                    n == indices.len(),
                    n <= self.len,
                    j < self.data.len(),
                    self.data.len() == dv.len(),
                    forall|m: int| 0 <= m < dv.len() && m != j ==> self.data[m] == dv[m],
                    self.data[j as int].id == dv[j as int].id,
                    self.data[j as int].size == dv[j as int].size,
                    self.data[j as int].size > 0,
                    self.data[j as int].entities.len() == self.len - (n - k),
                    forall|e: int|
                        0 <= e < self.data[j as int].entities.len() ==> (
                        #[trigger] self.data[j as int].entities@[e]).len()
                            == self.data[j as int].size,
                    remove_indices(self.data[j as int].bytes(), indices@.take(k as int))
                        == remove_indices(orig, indices@),
                    strictly_increasing(indices@),
                    forall|q: int| 0 <= q < indices.len() ==> indices[q] < self.len,
                decreases k,
            {
                proof {
                    lemma_increasing_gap(indices@, k - 1, n - 1);
                }
                let i = indices[k - 1] as usize;
                let ghost c0 = self.data[j as int];
                let _gone = self.data[j].entities.swap_remove(i);
                proof {
                    let c1 = self.data[j as int];
                    lemma_swap_remove_map(c0.entities@, i as int, |e: Vec<u8>| e@);
                    assert(c1.bytes() == swap_remove_seq(c0.bytes(), i as int));
                    assert(indices@.take(k as int).drop_last() =~= indices@.take(k - 1));
                    assert(indices@.take(k as int).last() == indices[k - 1]);
                    assert forall|e: int| 0 <= e < c1.entities.len() implies (
                    #[trigger] c1.entities@[e]).len() == c1.size by {
                        if e == i {
                            assert(c1.entities@[e] == c0.entities@[c0.entities.len() - 1]);
                        } else {
                            assert(c1.entities@[e] == c0.entities@[e]);
                        }
                    }
                }
                k = k - 1;
            }
            proof {
                assert(indices@.take(0) =~= Seq::<u32>::empty());
                let c = self.data[j as int];
                assert(c.wf((self.len - n) as nat));
                assert forall|m: int|
                    #![trigger self.data[m]]
                    0 <= m < self.data.len() && m != j implies self.data[m] == dv[m] by {}
            }
            j = j + 1;
        }
        self.len = self.len - n;
        proof {
            let v = self@;
            let o = old(self)@;
            assert forall|m: int| 0 <= m < o.columns.len() implies v.data[m] == remove_indices(
                o.data[m],
                indices@,
            ) by {
                assert(self.data[m].bytes() == remove_indices(old_data[m].bytes(), indices@));
            }
            assert(v.data =~= Seq::new(
                o.columns.len(),
                |m: int| remove_indices(o.data[m], indices@),
            ));
            assert(v.columns =~= o.columns);
            assert(v.pending =~= o.pending);
            assert forall|m: int|
                #![trigger self.data[m]]
                0 <= m < self.data.len() implies {
                &&& self.data[m].wf(self.len as nat)
                &&& self.ins[m].wf(self.ins_len as nat)
                &&& self.ins[m].id == self.data[m].id
                &&& self.ins[m].size == self.data[m].size
            } by {
                assert(old(self).data[m].wf(old(self).len as nat));
            }
            assert(self.wf());
        }
    }

    /// The bytes of stored entity `i` in each of the columns `cols`, in that order.
    fn entity_arguments(&self, cols: &Vec<usize>, i: usize) -> (r: Vec<Vec<u8>>)
        requires
            self.wf(),
            i < self@.len,
            forall|a: int| 0 <= a < cols.len() ==> cols[a] < self@.columns.len(),
        ensures
            bytes_of(r) == entity_args(self@, cols@, i as int),
    {
        proof {
            self.lemma_wf_shape();
        }
        let mut args: Vec<Vec<u8>> = Vec::new();
        let mut a: usize = 0;
        while a < cols.len()
            invariant
                a <= cols.len(),
                self.wf(),
                self@.shape(),
                i < self@.len,
                forall|b: int| 0 <= b < cols.len() ==> cols[b] < self@.columns.len(),
                args.len() == a,
                bytes_of(args) == entity_args(self@, cols@, i as int).take(a as int),
            decreases cols.len() - a,
        {
            let c = cols[a];
            assert(self.data[c as int].wf(self.len as nat));
            let b = copy_bytes(&self.data[c].entities[i]);
            let ghost before = args@;
            args.push(b);
            proof {
                let ea = entity_args(self@, cols@, i as int);
                assert(self@.data[c as int] == self.data[c as int].bytes());
                assert(self@.data[c as int][i as int] == self.data[c as int].entities@[i as int]@);
                assert(ea[a as int] == b@);
                assert forall|k: int| 0 <= k < a + 1 implies bytes_of(args)[k] == ea.take(
                    a + 1,
                )[k] by {
                    if k < a {
                        assert(args@[k] == before[k]);
                        assert(bytes_of(args)[k] == args@[k]@);
                        assert(ea.take(a as int)[k] == ea[k]);
                        assert(before.map_values(|e: Vec<u8>| e@)[k] == before[k]@);
                    }
                }
                assert(bytes_of(args) =~= ea.take(a + 1));
            }
            a = a + 1;
        }
        assert(entity_args(self@, cols@, i as int).take(cols.len() as int) =~= entity_args(
            self@,
            cols@,
            i as int,
        ));
        args
    }

    /// Writes the closure's outputs for stored entity `i` back into the columns `cols`.
    fn write_back(&mut self, cols: &Vec<usize>, i: usize, out: &Vec<Vec<u8>>)
        requires
            old(self).wf(),
            i < old(self)@.len,
            forall|a: int| 0 <= a < cols.len() ==> cols[a] < old(self)@.columns.len(),
        ensures
            final(self).wf(),
            final(self)@ == (BucketView {
                data: Seq::new(
                    old(self)@.columns.len(),
                    |c: int|
                        old(self)@.data[c].update(
                            i as int,
                            written_back(
                                old(self)@.data[c][i as int],
                                c,
                                cols@,
                                bytes_of(*out),
                                old(self)@.columns[c].1 as nat,
                                cols.len() as nat,
                            ),
                        ),
                ),
                ..old(self)@
            }),
    {
        let ghost o = old(self)@;
        proof {
            old(self).lemma_wf_shape();
        }
        let mut a: usize = 0;
        while a < cols.len()
            invariant
                a <= cols.len(),
                self.wf(),
                i < self.len,
                self.len == old(self).len,
                self.cap == old(self).cap,
                self.ins == old(self).ins,
                self.ins_len == old(self).ins_len,
                self.ins_cap == old(self).ins_cap,
                self.data.len() == old(self).data.len(),
                o == old(self)@,
                o.shape(),
                forall|b: int| 0 <= b < cols.len() ==> cols[b] < o.columns.len(),
                forall|c: int|
                    #![trigger self.data[c]]
                    0 <= c < self.data.len() ==> {
                        &&& self.data[c].id == old(self).data[c].id
                        &&& self.data[c].size == old(self).data[c].size
                        &&& self.data[c].bytes() == o.data[c].update(
                            i as int,
                            written_back(
                                o.data[c][i as int],
                                c,
                                cols@,
                                bytes_of(*out),
                                o.columns[c].1 as nat,
                                a as nat,
                            ),
                        )
                    },
            decreases cols.len() - a,
        {
            let c = cols[a];
            let ghost dv = self.data@;
            assert(self.data[c as int].wf(self.len as nat));
            if a < out.len() && out[a].len() == self.data[c].size {
                let b = copy_bytes(&out[a]);
                let ghost c0 = self.data[c as int];
                self.data[c].entities.set(i, b);
                proof {
                    let c1 = self.data[c as int];
                    assert(c1.bytes() =~= c0.bytes().update(i as int, b@));
                    assert(c1.wf(self.len as nat)) by {
                        assert forall|k: int| 0 <= k < self.len implies (
                        #[trigger] c1.entities@[k]).len() == c1.size by {
                            if k != i {
                                assert(c1.entities@[k] == c0.entities@[k]);
                            }
                        }
                    }
                    assert(bytes_of(*out)[a as int] == out[a as int]@);
                }
            }
            proof {
                assert forall|cc: int|
                    #![trigger self.data[cc]]
                    0 <= cc < self.data.len() implies {
                    &&& self.data[cc].id == old(self).data[cc].id
                    &&& self.data[cc].size == old(self).data[cc].size
                    &&& self.data[cc].bytes() == o.data[cc].update(
                        i as int,
                        written_back(
                            o.data[cc][i as int],
                            cc,
                            cols@,
                            bytes_of(*out),
                            o.columns[cc].1 as nat,
                            (a + 1) as nat,
                        ),
                    )
                } by {
                    if cc != c {
                        assert(self.data[cc] == dv[cc]);
                    }
                    assert(o.columns[cc].1 == old(self).data[cc].size);
                    assert(self.data[cc].bytes() =~= o.data[cc].update(
                        i as int,
                        written_back(
                            o.data[cc][i as int],
                            cc,
                            cols@,
                            bytes_of(*out),
                            o.columns[cc].1 as nat,
                            (a + 1) as nat,
                        ),
                    ));
                }
                assert forall|cc: int|
                    #![trigger self.data[cc]]
                    0 <= cc < self.data.len() implies {
                    &&& self.data[cc].wf(self.len as nat)
                    &&& self.ins[cc].wf(self.ins_len as nat)
                    &&& self.ins[cc].id == self.data[cc].id
                    &&& self.ins[cc].size == self.data[cc].size
                } by {
                    if cc != c {
                        assert(self.data[cc] == dv[cc]);
                    }
                }
                assert(self.wf());
            }
            a = a + 1;
        }
        proof {
            let v = self@;
            assert forall|c: int| 0 <= c < o.columns.len() implies v.data[c] == o.data[c].update(
                i as int,
                written_back(
                    o.data[c][i as int],
                    c,
                    cols@,
                    bytes_of(*out),
                    o.columns[c].1 as nat,
                    cols.len() as nat,
                ),
            ) by {
                let _t = self.data[c];
            }
            assert(v.data =~= Seq::new(
                o.columns.len(),
                |c: int|
                    o.data[c].update(
                        i as int,
                        written_back(
                            o.data[c][i as int],
                            c,
                            cols@,
                            bytes_of(*out),
                            o.columns[c].1 as nat,
                            cols.len() as nat,
                        ),
                    ),
            ));
            assert(v.columns =~= o.columns);
            assert(v.pending =~= o.pending);
        }
    }

    /// Visits every stored entity in order: `f` is handed the entity's bytes in
    /// the columns `cols`; each output of the right size is written back to its
    /// column, and for each capture `c < captures` the entity's index is recorded
    /// when `f` returned flag `c`.
    pub fn iterate<F: Fn(Vec<Vec<u8>>) -> (Vec<Vec<u8>>, Vec<bool>)>(
        &mut self,
        cols: &Vec<usize>,
        captures: usize,
        f: &F,
    ) -> (r: Vec<Vec<u32>>)
        requires
            old(self).wf(),
            forall|a: int| 0 <= a < cols.len() ==> cols[a] < old(self)@.columns.len(),
            forall|x: Vec<Vec<u8>>| call_requires(*f, (x,)),
        ensures
            final(self).wf(),
            r.len() == captures,
            iterated(old(self)@, final(self)@, cols@, *f, r@.map_values(|v: Vec<u32>| v@)),
    {
        let ghost o = old(self)@;
        proof {
            old(self).lemma_wf_shape();
        }
        let mut caps: Vec<Vec<u32>> = Vec::new();
        let mut c: usize = 0;
        while c < captures
            invariant
                c <= captures,
                caps.len() == c,
                forall|d: int| 0 <= d < c ==> (#[trigger] caps[d])@ == Seq::<u32>::empty(),
            decreases captures - c,
        {
            caps.push(Vec::new());
            c = c + 1;
        }
        let ghost mut calls: Seq<ClosureCall> = Seq::empty();
        let mut i: usize = 0;
        while i < self.len
            invariant
                i <= self.len,
                self.wf(),
                o == old(self)@,
                o.shape(),
                self@.len == o.len,
                self@.cap == o.cap,
                self@.pending_len == o.pending_len,
                self@.pending_cap == o.pending_cap,
                self@.columns == o.columns,
                self@.pending == o.pending,
                self@.data.len() == o.data.len(),
                forall|a: int| 0 <= a < cols.len() ==> cols[a] < o.columns.len(),
                forall|x: Vec<Vec<u8>>| call_requires(*f, (x,)),
                calls.len() == i,
                forall|e: int|
                    0 <= e < i ==> bytes_of(#[trigger] calls[e].0) == entity_args(o, cols@, e)
                        && call_ensures(*f, (calls[e].0,), calls[e].1),
                forall|cc: int|
                    0 <= cc < o.columns.len() ==> (#[trigger] self@.data[cc]).len() == o.len,
                forall|cc: int, e: int|
                    0 <= cc < o.columns.len() && 0 <= e < o.len ==> (#[trigger] self@.data[cc][e])
                        == if e < i {
                        written_back(
                            o.data[cc][e],
                            cc,
                            cols@,
                            bytes_of(calls[e].1.0),
                            o.columns[cc].1 as nat,
                            cols.len() as nat,
                        )
                    } else {
                        o.data[cc][e]
                    },
                caps.len() == captures,
                forall|d: int|
                    0 <= d < captures ==> (#[trigger] caps[d])@ == captured(
                        i as nat,
                        |e: int| flag(calls[e].1.1@, d),
                    ),
            decreases o.len - i,
        {
            let args = self.entity_arguments(cols, i);
            proof {
                assert(entity_args(self@, cols@, i as int) =~= entity_args(o, cols@, i as int));
            }
            let ghost args_g = args;
            let res = f(args);
            let ghost res_g = res;
            let (out, flags) = res;
            let ghost before = self@;
            self.write_back(cols, i, &out);
            record_captures(&mut caps, &flags, i);
            proof {
                let call: ClosureCall = (args_g, res_g);
                let new_calls = calls.push(call);
                assert forall|d: int| 0 <= d < captures implies (#[trigger] caps[d])@ == captured(
                    (i + 1) as nat,
                    |e: int| flag(new_calls[e].1.1@, d),
                ) by {
                    lemma_captured_agree(
                        i as nat,
                        |e: int| flag(calls[e].1.1@, d),
                        |e: int| flag(new_calls[e].1.1@, d),
                    );
                }
                assert forall|cc: int, e: int|
                    0 <= cc < o.columns.len() && 0 <= e < o.len implies (
                    #[trigger] self@.data[cc][e]) == if e < i + 1 {
                    written_back(
                        o.data[cc][e],
                        cc,
                        cols@,
                        bytes_of(new_calls[e].1.0),
                        o.columns[cc].1 as nat,
                        cols.len() as nat,
                    )
                } else {
                    o.data[cc][e]
                } by {
                    let _t = before.data[cc][e];
                    let _u = before.data[cc];
                    if e < i {
                        assert(new_calls[e] == calls[e]);
                    } else if e == i {
                        assert(new_calls[e] == call);
                    }
                }
                calls = new_calls;
            }
            i = i + 1;
        }
        proof {
            let caps_v = caps@.map_values(|v: Vec<u32>| v@);
            let v = self@;
            assert forall|cc: int| 0 <= cc < o.columns.len() implies v.data[cc] == data_after(
                o,
                cols@,
                calls,
            )[cc] by {
                let _t = v.data[cc];
                assert(v.data[cc] =~= data_after(o, cols@, calls)[cc]);
            }
            assert(v.data =~= data_after(o, cols@, calls));
            assert(forall|d: int| 0 <= d < caps_v.len() ==> #[trigger] caps_v[d] == caps[d]@);
            assert(iterated_with(o, v, cols@, *f, caps_v, calls));
        }
        caps
    }

    /// The position of the first column with id `id`, if any.
    pub fn column_of(&self, id: CompId) -> (r: Option<usize>)
        ensures
            match r {
                Some(j) => column_index(self@.columns, id) == Some(j as nat),
                None => column_index(self@.columns, id).is_none(),
            },
    {
        let mut j: usize = 0;
        while j < self.data.len()
            invariant
                j <= self.data.len(),
                self@.columns.len() == self.data.len(),
                column_index(self@.columns, id) == column_index_from(self@.columns, id, j as nat),
            decreases self.data.len() - j,
        {
            assert(self@.columns[j as int] == (self.data[j as int].id, self.data[j as int].size));
            if self.data[j].id == id {
                return Some(j);
            }
            j = j + 1;
        }
        None
    }

    /// Number of stored entities.
    pub fn get_len(&self) -> (r: usize)
        ensures
            r == self@.len,
    {
        self.len
    }

    /// Number of columns (component types with data) in this bucket.
    pub fn get_component_count(&self) -> (r: usize)
        ensures
            r == self@.columns.len(),
    {
        self.data.len()
    }
}

} // verus!
