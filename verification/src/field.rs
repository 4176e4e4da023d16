//! The signal field: a store of signals and a multi-level grid of buckets that
//! files every signal under the tile that holds it.

use crate::bucket::{
    bucket_get, bucket_items, bucket_len, bucket_new, bucket_push, bucket_swap_remove, Bucket,
};
use crate::fxmap::{fx_get, fx_insert, fx_remove, FxMap};
use crate::mask::{bit_set, Mask};
use crate::laws::{
    lemma_cease_keeps_exact, lemma_emit_keeps_exact, lemma_reposition_keeps_exact,
    lemma_reshape_keeps_exact,
};
use crate::occlusion::{occlusion_run, resolve_occlusion, OcclusionTarget};
use crate::tile::{level_of, tile_id, tile_id_of, lemma_tile_id_level, TileKey, TileRange, LEVEL_COUNT};
use vstd::multiset::Multiset;
use vstd::prelude::*;

verus! {

broadcast use {
    vstd::std_specs::hash::group_hash_axioms,
    vstd::multiset::group_multiset_axioms,
    vstd::multiset::lemma_insert_len,
};

/// A signal as the field keeps it: the tile it is filed under, the masks it
/// emits and senses, and the caller's own data (its shape).
pub struct SignalRecord<S> {
    pub tile: TileKey,
    pub emit_mask: Mask,
    pub sense_mask: Mask,
    pub body: S,
}

/// The field as a mathematical value.
pub struct FieldState<S> {
    /// The stored signals, by key.
    pub records: Map<u64, SignalRecord<S>>,
    /// The grid: for each filed tile (by id), its bucket of `(key, emit mask bits)`.
    pub cells: Map<u128, Seq<(u64, u64)>>,
    /// For each of the `LEVEL_COUNT` levels, how many bucket entries it holds.
    pub counts: Seq<u32>,
    /// Bit `l` is set when level `l` is in use.
    pub active: u64,
}

/// The bucket filed under `id`, or the empty one.
pub open spec fn bucket_of(cells: Map<u128, Seq<(u64, u64)>>, id: u128) -> Seq<(u64, u64)> {
    if cells.contains_key(id) {
        cells[id]
    } else {
        Seq::empty()
    }
}

/// Whether some entry of `b` is for `key`.
pub open spec fn holds_key(b: Seq<(u64, u64)>, key: u64) -> bool {
    exists|i: int| 0 <= i < b.len() && #[trigger] b[i].0 == key
}

/// `i` is the first index of an entry for `key` in `b`.
pub open spec fn first_key_at(b: Seq<(u64, u64)>, key: u64, i: int) -> bool {
    &&& 0 <= i < b.len()
    &&& b[i].0 == key
    &&& forall|j: int| 0 <= j < i ==> #[trigger] b[j].0 != key
}

/// The index of the first entry for `key` in `b`.
pub open spec fn key_index(b: Seq<(u64, u64)>, key: u64) -> int {
    choose|i: int| first_key_at(b, key, i)
}

/// `b` after its `i`-th entry is taken out and its last entry moved into the gap.
pub open spec fn swap_removed(b: Seq<(u64, u64)>, i: int) -> Seq<(u64, u64)> {
    b.update(i, b.last()).drop_last()
}

/// The signal stored under `key` is filed: its tile is in use and its bucket holds
/// an entry for `key` with the signal's emit mask.
pub open spec fn record_filed<S>(
    records: Map<u64, SignalRecord<S>>,
    cells: Map<u128, Seq<(u64, u64)>>,
    key: u64,
) -> bool {
    let r = records[key];
    &&& r.tile.level < LEVEL_COUNT
    &&& cells.contains_key(r.tile.id())
    &&& cells[r.tile.id()].contains((key, r.emit_mask.bits))
}

impl<S> FieldState<S> {
    pub open spec fn with_records(self, records: Map<u64, SignalRecord<S>>) -> FieldState<S> {
        FieldState { records, cells: self.cells, counts: self.counts, active: self.active }
    }

    /// The grid after an entry `(key, emit)` is appended to the bucket of `tile`.
    pub open spec fn added(self, key: u64, tile: TileKey, emit: u64) -> FieldState<S> {
        let id = tile.id();
        let l = tile.level as int;
        FieldState {
            records: self.records,
            cells: self.cells.insert(id, bucket_of(self.cells, id).push((key, emit))),
            counts: self.counts.update(l, (self.counts[l] + 1) as u32),
            active: self.active | (1u64 << (tile.level as u64)),
        }
    }

    /// The grid after the first entry for `key` in the bucket of `tile` is swap-removed:
    /// an emptied bucket leaves the grid, the level's count drops by one, and a level
    /// whose count reaches zero is no longer in use. Without such an entry, nothing changes.
    pub open spec fn removed(self, key: u64, tile: TileKey) -> FieldState<S> {
        let id = tile.id();
        let l = tile.level as int;
        let b = bucket_of(self.cells, id);
        if !holds_key(b, key) {
            self
        } else {
            let b2 = swap_removed(b, key_index(b, key));
            let c = if self.counts[l] == 0 {
                0u32
            } else {
                (self.counts[l] - 1) as u32
            };
            FieldState {
                records: self.records,
                cells: if b2.len() == 0 {
                    self.cells.remove(id)
                } else {
                    self.cells.insert(id, b2)
                },
                counts: self.counts.update(l, c),
                active: if c == 0 {
                    self.active & !(1u64 << (tile.level as u64))
                } else {
                    self.active
                },
            }
        }
    }

    /// The levels in use are those with entries, and every filed tile has entries and
    /// a level below `LEVEL_COUNT`.
    pub open spec fn grid_consistent(self) -> bool {
        &&& self.counts.len() == LEVEL_COUNT
        &&& forall|id: u128| #[trigger]
            self.cells.contains_key(id) ==> self.cells[id].len() > 0 && level_of(id)
                < LEVEL_COUNT
        &&& forall|l: int|
            0 <= l < LEVEL_COUNT ==> (#[trigger] bit_set(self.active, l) <==> self.counts[l] > 0)
    }

    /// The grid is consistent and every stored signal is filed (a grid entry may still
    /// outlive its signal; see `exact`).
    pub open spec fn signals_filed(self) -> bool {
        &&& self.grid_consistent()
        &&& forall|k: u64| #[trigger]
            self.records.contains_key(k) ==> record_filed(self.records, self.cells, k)
    }

    /// Every entry of the grid is the entry of a stored signal, filed under that
    /// signal's tile with its emit mask, and no bucket holds two entries for one key.
    pub open spec fn exact(self) -> bool {
        &&& forall|id: u128, j: int|
            #![trigger self.cells[id][j]]
            self.cells.contains_key(id) && 0 <= j < self.cells[id].len() ==> entry_of_record(
                self.records,
                id,
                self.cells[id][j],
            )
        &&& forall|id: u128, i: int, j: int|
            #![trigger self.cells[id][i], self.cells[id][j]]
            self.cells.contains_key(id) && 0 <= i < self.cells[id].len() && 0 <= j
                < self.cells[id].len() && i != j ==> self.cells[id][i].0 != self.cells[id][j].0
    }
}

/// `e` is the entry of a stored signal filed under `id`.
pub open spec fn entry_of_record<S>(
    records: Map<u64, SignalRecord<S>>,
    id: u128,
    e: (u64, u64),
) -> bool {
    &&& records.contains_key(e.0)
    &&& records[e.0].tile.id() == id
    &&& records[e.0].emit_mask.bits == e.1
}

/// `b` holds an entry for `k` whose mask meets `query`.
pub open spec fn bucket_meets(b: Seq<(u64, u64)>, k: u64, query: u64) -> bool {
    exists|e: (u64, u64)| #[trigger] b.contains(e) && e.0 == k && (e.1 & query) != 0
}

/// The tile `(x, y)` lies in the rectangle of `r` (upper bounds excluded).
pub open spec fn tile_in_range(r: TileRange, x: int, y: int) -> bool {
    r.min_x <= x < r.max_x && r.min_y <= y < r.max_y
}

/// `k` is stored, and some tile of the ranges `rs` holds an entry for `k` whose mask
/// meets `query`.
pub open spec fn covered<S>(st: FieldState<S>, rs: Seq<TileRange>, query: u64, k: u64) -> bool {
    &&& st.records.contains_key(k)
    &&& exists|i: int, x: int, y: int|
        0 <= i < rs.len() && tile_in_range(rs[i], x, y) && #[trigger] bucket_meets(
            bucket_of(st.cells, tile_id(rs[i].level as int, x, y) as u128),
            k,
            query,
        )
}

/// The field after `emit(record, key)`.
pub open spec fn spec_emit<S>(st: FieldState<S>, record: SignalRecord<S>, key: u64) -> FieldState<S> {
    st.added(key, record.tile, record.emit_mask.bits).with_records(st.records.insert(key, record))
}

/// The field after `cease(key)`.
pub open spec fn spec_cease<S>(st: FieldState<S>, key: u64) -> FieldState<S> {
    if st.records.contains_key(key) {
        st.removed(key, st.records[key].tile).with_records(st.records.remove(key))
    } else {
        st
    }
}

/// The field after `reposition(key, tile, body)`.
pub open spec fn spec_reposition<S>(st: FieldState<S>, key: u64, tile: TileKey, body: S) -> FieldState<S> {
    if st.records.contains_key(key) {
        let r = st.records[key];
        let moved = SignalRecord { tile, emit_mask: r.emit_mask, sense_mask: r.sense_mask, body };
        if r.tile == tile {
            st.with_records(st.records.insert(key, moved))
        } else {
            st.removed(key, r.tile).added(key, tile, r.emit_mask.bits).with_records(
                st.records.insert(key, moved),
            )
        }
    } else {
        st
    }
}

/// The field after `reshape(key, body)`.
pub open spec fn spec_reshape<S>(st: FieldState<S>, key: u64, body: S) -> FieldState<S> {
    if st.records.contains_key(key) {
        let r = st.records[key];
        st.with_records(
            st.records.insert(
                key,
                SignalRecord { tile: r.tile, emit_mask: r.emit_mask, sense_mask: r.sense_mask, body },
            ),
        )
    } else {
        st
    }
}

// ---------------------------------------------------------------------------
// What a broad-phase query reports

/// The keys of the entries of `b`, in order, whose mask meets `query` and whose
/// signal is stored.
pub open spec fn bucket_hits<S>(
    b: Seq<(u64, u64)>,
    records: Map<u64, SignalRecord<S>>,
    query: u64,
) -> Seq<u64>
    decreases b.len(),
{
    if b.len() == 0 {
        Seq::empty()
    } else {
        let rest = bucket_hits(b.drop_last(), records, query);
        let e = b.last();
        if (e.1 & query) != 0 && records.contains_key(e.0) {
            rest.push(e.0)
        } else {
            rest
        }
    }
}

/// The hits of the tile `(level, x, y)`.
pub open spec fn tile_hits<S>(st: FieldState<S>, level: int, x: int, y: int, query: u64) -> Seq<u64> {
    bucket_hits(bucket_of(st.cells, tile_id(level, x, y) as u128), st.records, query)
}

/// The hits of the tiles `(level, x, y)` for `y` in `y_lo..y_hi`, in that order.
pub open spec fn column_hits<S>(
    st: FieldState<S>,
    level: int,
    x: int,
    y_lo: int,
    y_hi: int,
    query: u64,
) -> Seq<u64>
    decreases y_hi - y_lo,
{
    if y_hi <= y_lo {
        Seq::empty()
    } else {
        column_hits(st, level, x, y_lo, y_hi - 1, query) + tile_hits(st, level, x, y_hi - 1, query)
    }
}

/// The hits of the columns `x` in `r.min_x..x_hi` of the range `r`, in that order.
pub open spec fn rect_hits<S>(st: FieldState<S>, r: TileRange, x_hi: int, query: u64) -> Seq<u64>
    decreases x_hi - r.min_x,
{
    if x_hi <= r.min_x {
        Seq::empty()
    } else {
        rect_hits(st, r, x_hi - 1, query) + column_hits(
            st,
            r.level as int,
            x_hi - 1,
            r.min_y as int,
            r.max_y as int,
            query,
        )
    }
}

/// The hits of the ranges `rs`, one after the other.
pub open spec fn ranges_hits<S>(st: FieldState<S>, rs: Seq<TileRange>, query: u64) -> Seq<u64>
    decreases rs.len(),
{
    if rs.len() == 0 {
        Seq::empty()
    } else {
        ranges_hits(st, rs.drop_last(), query) + rect_hits(st, rs.last(), rs.last().max_x as int, query)
    }
}

// ---------------------------------------------------------------------------
// Counting entries per level

pub open spec fn level_is(l: int) -> spec_fn(u128) -> bool {
    |id: u128| level_of(id) == l
}

/// Number of entries (one copy of a tile id per entry) whose tile is at level `l`.
pub open spec fn level_count(ms: Multiset<u128>, l: int) -> nat {
    ms.filter(level_is(l)).len()
}

proof fn lemma_level_count_insert(ms: Multiset<u128>, x: u128, l: int)
    ensures
        level_count(ms.insert(x), l) == level_count(ms, l) + (if level_of(x) == l {
            1nat
        } else {
            0nat
        }),
{
    let f = level_is(l);
    if level_of(x) == l {
        assert(ms.insert(x).filter(f) =~= ms.filter(f).insert(x));
    } else {
        assert(ms.insert(x).filter(f) =~= ms.filter(f));
    }
}

proof fn lemma_level_count_remove(ms: Multiset<u128>, x: u128, l: int)
    requires
        ms.count(x) > 0,
    ensures
        level_count(ms.remove(x), l) + (if level_of(x) == l {
            1nat
        } else {
            0nat
        }) == level_count(ms, l),
{
    let f = level_is(l);
    assert(ms.remove(x).insert(x) =~= ms);
    lemma_level_count_insert(ms.remove(x), x, l);
}

proof fn lemma_level_count_positive(ms: Multiset<u128>, x: u128)
    requires
        ms.count(x) > 0,
    ensures
        level_count(ms, level_of(x)) >= ms.count(x),
{
    let f = level_is(level_of(x));
    assert(ms.filter(f).count(x) == ms.count(x));
}

// ---------------------------------------------------------------------------
// Buckets

pub(crate) proof fn lemma_swap_removed_keeps(b: Seq<(u64, u64)>, i: int, e: (u64, u64))
    requires
        0 <= i < b.len(),
        b.contains(e),
        b[i] != e,
    ensures
        swap_removed(b, i).contains(e),
{
    let j = choose|j: int| 0 <= j < b.len() && b[j] == e;
    if j < b.len() - 1 {
        assert(swap_removed(b, i)[j] == e);
    } else {
        assert(swap_removed(b, i)[i] == e);
    }
}

pub(crate) proof fn lemma_first_key_unique(b: Seq<(u64, u64)>, key: u64, i: int)
    requires
        first_key_at(b, key, i),
    ensures
        key_index(b, key) == i,
        holds_key(b, key),
{
    let c = key_index(b, key);
    assert(first_key_at(b, key, c));
    if c < i {
        assert(b[c].0 != key);
    } else if c > i {
        assert(b[i].0 != key);
    }
}

// ---------------------------------------------------------------------------
// The field

/// Signals filed in a grid of square tiles, one grid per level.
pub struct SignalField<S> {
    store: FxMap<u64, SignalRecord<S>>,
    grid: FxMap<u128, Bucket>,
    active_levels: Mask,
    level_counts: [u32; LEVEL_COUNT],
    /// One copy of a tile's id per entry of its bucket.
    tiles: Ghost<Multiset<u128>>,
}

impl<S> View for SignalField<S> {
    type V = FieldState<S>;

    closed spec fn view(&self) -> FieldState<S> {
        FieldState {
            records: self.store@,
            cells: self.grid@.map_values(|b: Bucket| bucket_items(b)),
            counts: self.level_counts@,
            active: self.active_levels.bits,
        }
    }
}

impl<S> SignalField<S> {
    /// The grid is consistent, and each level's count is the number of its entries.
    pub closed spec fn grid_wf(&self) -> bool {
        &&& self@.grid_consistent()
        &&& forall|id: u128| #[trigger]
            self.tiles@.count(id) == bucket_of(self@.cells, id).len()
        &&& forall|l: int|
            0 <= l < LEVEL_COUNT ==> #[trigger] self.level_counts@[l] == level_count(self.tiles@, l)
    }

    /// The field's invariant: the grid is well formed and every stored signal is filed.
    pub closed spec fn wf(&self) -> bool {
        &&& self.grid_wf()
        &&& self@.signals_filed()
    }

    /// An empty field.
    pub fn new() -> (f: Self)
        ensures
            f.wf(),
            f@.records == Map::<u64, SignalRecord<S>>::empty(),
            f@.cells == Map::<u128, Seq<(u64, u64)>>::empty(),
            f@.counts == Seq::new(LEVEL_COUNT as nat, |l: int| 0u32),
            f@.active == 0,
            f@.exact(),
    {
        let f = SignalField {
            store: FxMap::default(),
            grid: FxMap::default(),
            active_levels: Mask::zero(),
            level_counts: [0u32; LEVEL_COUNT],
            tiles: Ghost(Multiset::empty()),
        };
        proof {
            assert(f@.cells =~= Map::<u128, Seq<(u64, u64)>>::empty());
            assert(f@.counts =~= Seq::new(LEVEL_COUNT as nat, |l: int| 0u32));
            assert(f@.counts.len() == LEVEL_COUNT);
            assert forall|l: int| 0 <= l < LEVEL_COUNT implies (#[trigger] bit_set(f@.active, l)
                <==> f@.counts[l] > 0) by {
                assert(!f.active_levels.has(l));
            }
            assert forall|id: u128| #[trigger] f.tiles@.count(id) == bucket_of(f@.cells, id).len() by {
            }
            assert forall|l: int| 0 <= l < LEVEL_COUNT implies #[trigger] f.level_counts@[l]
                == level_count(f.tiles@, l) by {
                assert(f.tiles@.filter(level_is(l)) =~= Multiset::empty());
            }
            assert(f@.signals_filed());
        }
        f
    }

    /// The signal stored under `key`, if any.
    pub fn get(&self, key: u64) -> (r: Option<&SignalRecord<S>>)
        ensures
            match r {
                Some(rec) => self@.records.contains_key(key) && *rec == self@.records[key],
                None => !self@.records.contains_key(key),
            },
    {
        fx_get(&self.store, &key)
    }

    /// How many entries level `level` holds.
    pub fn get_level_count(&self, level: usize) -> (n: u32)
        requires
            level < LEVEL_COUNT,
        ensures
            n == self@.counts[level as int],
    {
        self.level_counts[level]
    }

    /// The levels in use: bit `l` is set when level `l` holds entries.
    pub fn get_level_mask(&self) -> (m: Mask)
        ensures
            m.bits == self@.active,
    {
        self.active_levels
    }

    /// Changing the store leaves the grid's well-formedness as it is.
    proof fn lemma_grid_wf_frame(&self, other: &Self)
        requires
            self.grid_wf(),
            self.grid == other.grid,
            self.level_counts == other.level_counts,
            self.active_levels == other.active_levels,
            self.tiles == other.tiles,
        ensures
            other.grid_wf(),
    {
        assert(self@.cells == other@.cells);
        assert(self@.counts == other@.counts);
        assert forall|id: u128| #[trigger] other@.cells.contains_key(id) implies other@.cells[id].len()
            > 0 && level_of(id) < LEVEL_COUNT by {
            assert(self@.cells.contains_key(id));
        }
        assert forall|l: int| 0 <= l < LEVEL_COUNT implies (#[trigger] bit_set(other@.active, l)
            <==> other@.counts[l] > 0) by {
            assert(bit_set(self@.active, l) <==> self@.counts[l] > 0);
        }
        assert forall|id: u128| #[trigger] other.tiles@.count(id) == bucket_of(other@.cells, id).len() by {
            assert(self.tiles@.count(id) == bucket_of(self@.cells, id).len());
        }
    }

    proof fn lemma_bucket_len_bound(&self, id: u128)
        requires
            self.grid_wf(),
            level_of(id) < LEVEL_COUNT,
        ensures
            bucket_of(self@.cells, id).len() <= self@.counts[level_of(id)],
    {
        if self.tiles@.count(id) > 0 {
            lemma_level_count_positive(self.tiles@, id);
        }
    }

    /// Appends `(key, emit)` to the bucket of `tile`, creating the bucket if needed,
    /// and counts the entry at the tile's level.
    fn internal_add(&mut self, key: u64, tile: TileKey, emit: u64)
        requires
            old(self).grid_wf(),
            tile.level < LEVEL_COUNT,
            old(self)@.counts[tile.level as int] < u32::MAX,
        ensures
            final(self).grid_wf(),
            final(self)@ == old(self)@.added(key, tile, emit),
            forall|k: u64|
                #![trigger final(self)@.records.contains_key(k)]
                old(self)@.records.contains_key(k) && record_filed(
                    old(self)@.records,
                    old(self)@.cells,
                    k,
                ) ==> record_filed(final(self)@.records, final(self)@.cells, k),
    {
        let ghost old_st = self@;
        let ghost old_tiles = self.tiles@;
        let l = tile.level as usize;
        let id = tile_id_of(tile.level, tile.x, tile.y);
        proof {
            self.lemma_bucket_len_bound(id);
        }
        let mut bucket = match fx_remove(&mut self.grid, &id) {
            Some(b) => b,
            None => bucket_new(),
        };
        assert(bucket_items(bucket) == bucket_of(old_st.cells, id));
        bucket_push(&mut bucket, (key, emit));
        let ghost nb = bucket_items(bucket);
        fx_insert(&mut self.grid, id, bucket);
        self.active_levels.set(l, true);
        self.level_counts[l] = self.level_counts[l] + 1;
        self.tiles = Ghost(old_tiles.insert(id));
        proof {
            let new_st = old_st.added(key, tile, emit);
            assert(self@.cells =~= new_st.cells);
            assert(self@.counts =~= new_st.counts);
            assert(self@ == new_st);
            assert forall|i: u128| #[trigger] self.tiles@.count(i) == bucket_of(self@.cells, i).len() by {
            }
            assert forall|m: int| 0 <= m < LEVEL_COUNT implies #[trigger] self.level_counts@[m]
                == level_count(self.tiles@, m) by {
                lemma_level_count_insert(old_tiles, id, m);
            }
            assert forall|m: int| 0 <= m < LEVEL_COUNT implies (#[trigger] bit_set(self@.active, m)
                <==> self@.counts[m] > 0) by {
                assert(self.active_levels.has(m) == (m == l || bit_set(old_st.active, m)));
            }
            assert forall|k: u64|
                #![trigger self@.records.contains_key(k)]
                old_st.records.contains_key(k) && record_filed(old_st.records, old_st.cells, k)
                    implies record_filed(self@.records, self@.cells, k) by {
                let r = old_st.records[k];
                if r.tile.id() == id {
                    assert(nb.contains((k, r.emit_mask.bits))) by {
                        let j = choose|j: int|
                            0 <= j < old_st.cells[id].len() && old_st.cells[id][j] == (
                                k,
                                r.emit_mask.bits,
                            );
                        assert(nb[j] == (k, r.emit_mask.bits));
                    }
                }
            }
        }
    }

    /// Takes the first entry for `key` out of the bucket of `tile` (swapping the last
    /// entry into its place), uncounts it, and drops the bucket once it is empty.
    /// Returns whether such an entry was found.
    fn internal_remove(&mut self, key: u64, tile: TileKey) -> (found: bool)
        requires
            old(self).grid_wf(),
            tile.level < LEVEL_COUNT,
        ensures
            final(self).grid_wf(),
            final(self)@ == old(self)@.removed(key, tile),
            found == holds_key(bucket_of(old(self)@.cells, tile.id()), key),
            forall|k: u64|
                #![trigger final(self)@.records.contains_key(k)]
                k != key && old(self)@.records.contains_key(k) && record_filed(
                    old(self)@.records,
                    old(self)@.cells,
                    k,
                ) ==> record_filed(final(self)@.records, final(self)@.cells, k),
    {
        let ghost old_st = self@;
        let ghost old_tiles = self.tiles@;
        let l = tile.level as usize;
        let id = tile_id_of(tile.level, tile.x, tile.y);
        let ghost b = bucket_of(old_st.cells, id);
        let mut found = false;
        match fx_remove(&mut self.grid, &id) {
            Some(mut bucket) => {
                assert(bucket_items(bucket) == b);
                let n = bucket_len(&bucket);
                let mut pos: usize = n;
                let mut i: usize = 0;
                while pos == n && i < n
                    invariant
                        n == b.len(),
                        bucket_items(bucket) == b,
                        i <= n,
                        pos == n || first_key_at(b, key, pos as int),
                        pos == n ==> forall|j: int| 0 <= j < i ==> #[trigger] b[j].0 != key,
                    decreases n - i,
                {
                    let e = bucket_get(&bucket, i);
                    if e.0 == key {
                        pos = i;
                    }
                    i = i + 1;
                }
                if pos < n {
                    proof {
                        lemma_first_key_unique(b, key, pos as int);
                    }
                    bucket_swap_remove(&mut bucket, pos);
                    let c = self.level_counts[l].saturating_sub(1);
                    self.level_counts[l] = c;
                    if c == 0 {
                        self.active_levels.set(l, false);
                    }
                    assert(c != 0 ==> self.active_levels.bits == old_st.active);
                    self.tiles = Ghost(old_tiles.remove(id));
                    found = true;
                } else {
                    assert(!holds_key(b, key));
                }
                let ghost nb = bucket_items(bucket);
                if bucket_len(&bucket) != 0 {
                    fx_insert(&mut self.grid, id, bucket);
                }
                proof {
                    if found {
                        let new_st = old_st.removed(key, tile);
                        assert(self@.cells =~= new_st.cells);
                        assert(self@.counts =~= new_st.counts);
                        assert(self@ == new_st);
                        assert(old_tiles.count(id) > 0);
                        assert forall|t: u128| #[trigger] self.tiles@.count(t) == bucket_of(
                            self@.cells,
                            t,
                        ).len() by {
                        }
                        assert forall|m: int| 0 <= m < LEVEL_COUNT implies #[trigger] self.level_counts@[m]
                            == level_count(self.tiles@, m) by {
                            lemma_level_count_remove(old_tiles, id, m);
                        }
                        assert forall|m: int| 0 <= m < LEVEL_COUNT implies (#[trigger] bit_set(
                            self@.active,
                            m,
                        ) <==> self@.counts[m] > 0) by {
                            if m != l {
                                assert(self.active_levels.has(m) == bit_set(old_st.active, m));
                            } else if self.level_counts@[m] != 0 {
                                assert(old_st.counts[m] > 0);
                                assert(self@.active == old_st.active);
                            } else {
                                assert(!self.active_levels.has(m));
                            }
                        }
                        assert forall|k: u64|
                            #![trigger self@.records.contains_key(k)]
                            k != key && old_st.records.contains_key(k) && record_filed(
                                old_st.records,
                                old_st.cells,
                                k,
                            ) implies record_filed(self@.records, self@.cells, k) by {
                            let r = old_st.records[k];
                            if r.tile.id() == id {
                                lemma_swap_removed_keeps(b, pos as int, (k, r.emit_mask.bits));
                            }
                        }
                    } else {
                        assert(self@.cells =~= old_st.cells);
                        assert(self@ == old_st);
                    }
                }
            },
            None => {
                proof {
                    assert(self@.cells =~= old_st.cells);
                    assert(!holds_key(b, key));
                }
            },
        }
        found
    }

    /// Stores `signal` under `key` and files it under its tile.
    /// A key that is already stored is replaced in the store, while its earlier
    /// entry stays in the grid: keys are meant to be new.
    pub fn emit(&mut self, signal: SignalRecord<S>, key: u64)
        requires
            old(self).wf(),
            signal.tile.level < LEVEL_COUNT,
            old(self)@.counts[signal.tile.level as int] < u32::MAX,
        ensures
            final(self).wf(),
            final(self)@ == spec_emit(old(self)@, signal, key),
            old(self)@.exact() && !old(self)@.records.contains_key(key) ==> final(self)@.exact(),
    {
        let ghost old_st = self@;
        proof {
            if old_st.exact() && !old_st.records.contains_key(key) {
                lemma_emit_keeps_exact(old_st, signal, key);
            }
        }
        self.internal_add(key, signal.tile, signal.emit_mask.bits);
        let ghost mid = self@;
        let ghost mid_self = *self;
        let ghost sig = signal;
        fx_insert(&mut self.store, key, signal);
        proof {
            mid_self.lemma_grid_wf_frame(self);
            assert(self@.cells == mid.cells);
            assert forall|k: u64| #[trigger] self@.records.contains_key(k) implies record_filed(
                self@.records,
                self@.cells,
                k,
            ) by {
                if k == key {
                    let nb = bucket_of(old_st.cells, sig.tile.id()).push((key, sig.emit_mask.bits));
                    assert(nb[nb.len() - 1] == (key, sig.emit_mask.bits));
                } else {
                    assert(old_st.records.contains_key(k));
                    assert(record_filed(old_st.records, old_st.cells, k));
                    assert(mid.records.contains_key(k));
                }
            }
        }
    }

    /// Removes the signal stored under `key`, and its entry in the grid.
    pub fn cease(&mut self, key: u64)
        requires
            old(self).wf(),
        ensures
            final(self).wf(),
            final(self)@ == spec_cease(old(self)@, key),
            old(self)@.exact() ==> final(self)@.exact(),
    {
        let ghost old_st = self@;
        proof {
            if old_st.exact() {
                lemma_cease_keeps_exact(old_st, key);
            }
        }
        let tile = match fx_get(&self.store, &key) {
            Some(r) => Some(r.tile),
            None => None,
        };
        match tile {
            Some(t) => {
                proof {
                    assert(old_st.records.contains_key(key));
                    assert(record_filed(old_st.records, old_st.cells, key));
                }
                self.internal_remove(key, t);
            },
            None => {},
        }
        let ghost mid = self@;
        let ghost mid_self = *self;
        fx_remove(&mut self.store, &key);
        proof {
            mid_self.lemma_grid_wf_frame(self);
            assert forall|k: u64| #[trigger] self@.records.contains_key(k) implies record_filed(
                self@.records,
                self@.cells,
                k,
            ) by {
                assert(old_st.records.contains_key(k));
                assert(record_filed(old_st.records, old_st.cells, k));
                assert(mid.records.contains_key(k));
            }
            if !old_st.records.contains_key(key) {
                assert(self@.records =~= old_st.records);
            }
        }
    }

    /// Moves the signal stored under `key` to `tile`, giving it the shape `body`.
    /// When the tile is unchanged the grid is left as it is; otherwise the signal's
    /// entry moves from the old tile's bucket to the new one. An absent key is ignored.
    pub fn reposition(&mut self, key: u64, tile: TileKey, body: S)
        requires
            old(self).wf(),
            tile.level < LEVEL_COUNT,
            old(self)@.records.contains_key(key) && old(self)@.records[key].tile != tile
                && old(self)@.records[key].tile.level != tile.level ==> old(
                self,
            )@.counts[tile.level as int] < u32::MAX,
        ensures
            final(self).wf(),
            final(self)@ == spec_reposition(old(self)@, key, tile, body),
            old(self)@.exact() ==> final(self)@.exact(),
    {
        let ghost old_st = self@;
        proof {
            if old_st.exact() {
                lemma_reposition_keeps_exact(old_st, key, tile, body);
            }
        }
        let ghost old_self = *self;
        match fx_remove(&mut self.store, &key) {
            Some(r) => {
                proof {
                    old_self.lemma_grid_wf_frame(self);
                }
                let moved = SignalRecord {
                    tile,
                    emit_mask: r.emit_mask,
                    sense_mask: r.sense_mask,
                    body,
                };
                if r.tile == tile {
                    fx_insert(&mut self.store, key, moved);
                    proof {
                        old_self.lemma_grid_wf_frame(self);
                        assert(self@.records =~= old_st.records.insert(key, moved));
                        assert forall|k: u64| #[trigger]
                            self@.records.contains_key(k) implies record_filed(
                            self@.records,
                            self@.cells,
                            k,
                        ) by {
                            assert(old_st.records.contains_key(k));
                        }
                    }
                } else {
                    proof {
                        assert(old_st.records.contains_key(key));
                        assert(record_filed(old_st.records, old_st.cells, key));
                        assert(r.tile.level < LEVEL_COUNT);
                    }
                    let ghost removed_st = self@;
                    self.internal_remove(key, r.tile);
                    proof {
                        let b = bucket_of(old_st.cells, r.tile.id());
                        assert(old_st.cells.contains_key(r.tile.id()));
                        assert(b.contains((key, r.emit_mask.bits)));
                        let j = choose|j: int| 0 <= j < b.len() && b[j] == (key, r.emit_mask.bits);
                        assert(b[j].0 == key);
                        assert(holds_key(b, key));
                        lemma_tile_id_level(r.tile.level as int, r.tile.x as int, r.tile.y as int);
                        old_self.lemma_bucket_len_bound(r.tile.id());
                        assert(old_st.counts[r.tile.level as int] > 0);
                    }
                    let ghost mid = self@;
                    self.internal_add(key, tile, r.emit_mask.bits);
                    let ghost mid2 = self@;
                    let ghost before_insert = *self;
                    fx_insert(&mut self.store, key, moved);
                    proof {
                        before_insert.lemma_grid_wf_frame(self);
                        assert(self@.records =~= old_st.records.insert(key, moved));
                        assert forall|k: u64| #[trigger]
                            self@.records.contains_key(k) implies record_filed(
                            self@.records,
                            self@.cells,
                            k,
                        ) by {
                            if k == key {
                                let nb = bucket_of(mid.cells, tile.id()).push(
                                    (key, r.emit_mask.bits),
                                );
                                assert(nb[nb.len() - 1] == (key, r.emit_mask.bits));
                            } else {
                                assert(old_st.records.contains_key(k));
                                assert(record_filed(old_st.records, old_st.cells, k));
                                assert(removed_st.records.contains_key(k));
                                assert(record_filed(removed_st.records, removed_st.cells, k));
                                assert(mid.records.contains_key(k));
                                assert(mid2.records.contains_key(k));
                            }
                        }
                    }
                }
            },
            None => {
                proof {
                    old_self.lemma_grid_wf_frame(self);
                    assert(self@.records =~= old_st.records);
                }
            },
        }
    }

    /// Gives the signal stored under `key` the shape `body`; its tile, masks and the
    /// grid are untouched. An absent key is ignored.
    pub fn reshape(&mut self, key: u64, body: S)
        requires
            old(self).wf(),
        ensures
            final(self).wf(),
            final(self)@ == spec_reshape(old(self)@, key, body),
            old(self)@.exact() ==> final(self)@.exact(),
    {
        let ghost old_st = self@;
        proof {
            if old_st.exact() {
                lemma_reshape_keeps_exact(old_st, key, body);
            }
        }
        let ghost old_self = *self;
        match fx_remove(&mut self.store, &key) {
            Some(r) => {
                let reshaped = SignalRecord {
                    tile: r.tile,
                    emit_mask: r.emit_mask,
                    sense_mask: r.sense_mask,
                    body,
                };
                fx_insert(&mut self.store, key, reshaped);
                proof {
                    old_self.lemma_grid_wf_frame(self);
                    assert(self@.records =~= old_st.records.insert(key, reshaped));
                    assert forall|k: u64| #[trigger] self@.records.contains_key(k) implies record_filed(
                        self@.records,
                        self@.cells,
                        k,
                    ) by {
                        assert(old_st.records.contains_key(k));
                    }
                }
            },
            None => {
                proof {
                    old_self.lemma_grid_wf_frame(self);
                    assert(self@.records =~= old_st.records);
                }
            },
        }
    }

    /// Broad phase of a query: for each range in turn, walks its tiles column by
    /// column (`x` outer, `y` inner, upper bounds excluded) and reports, bucket entry
    /// by bucket entry, the keys whose emit mask meets `query_mask` and whose signal
    /// is stored.
    pub fn scan_range(&self, ranges: &Vec<TileRange>, query_mask: Mask) -> (hits: Vec<u64>)
        ensures
            hits@ == ranges_hits(self@, ranges@, query_mask.bits),
    {
        let mut hits: Vec<u64> = Vec::new();
        let mut i: usize = 0;
        while i < ranges.len()
            invariant
                i <= ranges.len(),
                hits@ == ranges_hits(self@, ranges@.take(i as int), query_mask.bits),
            decreases ranges.len() - i,
        {
            let r = ranges[i];
            let ghost before = hits@;
            let mut gx: i32 = r.min_x;
            while gx < r.max_x
                invariant
                    r.min_x <= gx,
                    gx <= r.max_x || gx == r.min_x,
                    hits@ == before + rect_hits(self@, r, gx as int, query_mask.bits),
                decreases r.max_x - gx,
            {
                let ghost before_col = hits@;
                let mut gy: i32 = r.min_y;
                while gy < r.max_y
                    invariant
                        r.min_x <= gx < r.max_x,
                        r.min_y <= gy,
                        gy <= r.max_y || gy == r.min_y,
                        hits@ == before_col + column_hits(
                            self@,
                            r.level as int,
                            gx as int,
                            r.min_y as int,
                            gy as int,
                            query_mask.bits,
                        ),
                    decreases r.max_y - gy,
                {
                    let ghost before_tile = hits@;
                    let id = tile_id_of(r.level, gx, gy);
                    match fx_get(&self.grid, &id) {
                        Some(bucket) => {
                            let ghost b = bucket_items(*bucket);
                            assert(b == bucket_of(self@.cells, id));
                            let n = bucket_len(bucket);
                            let mut j: usize = 0;
                            while j < n
                                invariant
                                    n == b.len(),
                                    b == bucket_items(*bucket),
                                    j <= n,
                                    hits@ == before_tile + bucket_hits(
                                        b.take(j as int),
                                        self@.records,
                                        query_mask.bits,
                                    ),
                                decreases n - j,
                            {
                                let (key, sig_mask) = bucket_get(bucket, j);
                                proof {
                                    assert(b.take(j + 1).drop_last() =~= b.take(j as int));
                                }
                                if (sig_mask & query_mask.bits) != 0 {
                                    if fx_get(&self.store, &key).is_some() {
                                        hits.push(key);
                                    }
                                }
                                proof {
                                    assert(hits@ =~= before_tile + bucket_hits(
                                        b.take(j + 1),
                                        self@.records,
                                        query_mask.bits,
                                    ));
                                }
                                j = j + 1;
                            }
                            proof {
                                assert(b.take(n as int) =~= b);
                            }
                        },
                        None => {
                            proof {
                                assert(bucket_of(self@.cells, id) =~= Seq::<(u64, u64)>::empty());
                            }
                        },
                    }
                    proof {
                        assert(hits@ =~= before_col + column_hits(
                            self@,
                            r.level as int,
                            gx as int,
                            r.min_y as int,
                            gy + 1,
                            query_mask.bits,
                        ));
                    }
                    gy = gy + 1;
                }
                proof {
                    assert(hits@ =~= before + rect_hits(self@, r, gx + 1, query_mask.bits));
                }
                gx = gx + 1;
            }
            proof {
                assert(ranges@.take(i + 1).drop_last() =~= ranges@.take(i as int));
                assert(hits@ =~= ranges_hits(self@, ranges@.take(i + 1), query_mask.bits));
            }
            i = i + 1;
        }
        proof {
            assert(ranges@.take(ranges.len() as int) =~= ranges@);
        }
        hits
    }

    /// Broad phase of the scan of the signal stored under `key`: the query mask is
    /// that signal's sense mask.
    pub fn scan(&self, key: u64, ranges: &Vec<TileRange>) -> (hits: Vec<u64>)
        requires
            self@.records.contains_key(key),
        ensures
            hits@ == ranges_hits(self@, ranges@, self@.records[key].sense_mask.bits),
    {
        let sense = match fx_get(&self.store, &key) {
            Some(r) => r.sense_mask,
            None => Mask::zero(),
        };
        self.scan_range(ranges, sense)
    }

    /// Occlusion pass of the occluded scan of the signal stored under `key`: `targets`
    /// are the signals its scan reported, closest first, each with the sections of the
    /// viewer's arc it covers. Reports the targets the viewer senses that are not fully
    /// hidden behind closer targets emitting a tag of `occlusion_mask`, each with its
    /// visible sections.
    pub fn scan_occluded(&self, key: u64, occlusion_mask: Mask, targets: &Vec<OcclusionTarget>) -> (seen:
        Vec<(u64, Mask)>)
        requires
            self@.records.contains_key(key),
        ensures
            seen@ == occlusion_run(
                self@.records[key].sense_mask.bits,
                occlusion_mask.bits,
                targets@,
                0,
            ),
    {
        let sense = match fx_get(&self.store, &key) {
            Some(r) => r.sense_mask,
            None => Mask::zero(),
        };
        resolve_occlusion(sense, occlusion_mask, targets)
    }
}

// ---------------------------------------------------------------------------
// Laws

pub(crate) proof fn lemma_bucket_hits_contains<S>(
    b: Seq<(u64, u64)>,
    records: Map<u64, SignalRecord<S>>,
    query: u64,
    e: (u64, u64),
)
    requires
        b.contains(e),
        (e.1 & query) != 0,
        records.contains_key(e.0),
    ensures
        bucket_hits(b, records, query).contains(e.0),
    decreases b.len(),
{
    let hits = bucket_hits(b, records, query);
    if b.last() == e {
        assert(hits[hits.len() - 1] == e.0);
    } else {
        let j = choose|j: int| 0 <= j < b.len() && b[j] == e;
        assert(b.drop_last()[j] == e);
        lemma_bucket_hits_contains(b.drop_last(), records, query, e);
        let rest = bucket_hits(b.drop_last(), records, query);
        let k = choose|k: int| 0 <= k < rest.len() && rest[k] == e.0;
        assert(hits[k] == e.0);
    }
}

proof fn lemma_bucket_hits_stored<S>(b: Seq<(u64, u64)>, records: Map<u64, SignalRecord<S>>, query: u64)
    ensures
        forall|j: int|
            0 <= j < bucket_hits(b, records, query).len() ==> records.contains_key(
                #[trigger] bucket_hits(b, records, query)[j],
            ),
    decreases b.len(),
{
    if b.len() > 0 {
        lemma_bucket_hits_stored(b.drop_last(), records, query);
        let rest = bucket_hits(b.drop_last(), records, query);
        let hits = bucket_hits(b, records, query);
        assert forall|j: int| 0 <= j < hits.len() implies records.contains_key(#[trigger] hits[j]) by {
            if j < rest.len() {
                assert(hits[j] == rest[j]);
            }
        }
    }
}

pub(crate) proof fn lemma_concat_contains<T>(a: Seq<T>, b: Seq<T>, x: T)
    requires
        a.contains(x) || b.contains(x),
    ensures
        (a + b).contains(x),
{
    if a.contains(x) {
        let j = choose|j: int| 0 <= j < a.len() && a[j] == x;
        assert((a + b)[j] == x);
    } else {
        let j = choose|j: int| 0 <= j < b.len() && b[j] == x;
        assert((a + b)[a.len() + j] == x);
    }
}

pub(crate) proof fn lemma_column_hits_contains<S>(
    st: FieldState<S>,
    level: int,
    x: int,
    y_lo: int,
    y_hi: int,
    y: int,
    query: u64,
    key: u64,
)
    requires
        y_lo <= y < y_hi,
        tile_hits(st, level, x, y, query).contains(key),
    ensures
        column_hits(st, level, x, y_lo, y_hi, query).contains(key),
    decreases y_hi - y_lo,
{
    if y < y_hi - 1 {
        lemma_column_hits_contains(st, level, x, y_lo, y_hi - 1, y, query, key);
    }
    lemma_concat_contains(
        column_hits(st, level, x, y_lo, y_hi - 1, query),
        tile_hits(st, level, x, y_hi - 1, query),
        key,
    );
}

pub(crate) proof fn lemma_rect_hits_contains<S>(
    st: FieldState<S>,
    r: TileRange,
    x_hi: int,
    x: int,
    query: u64,
    key: u64,
)
    requires
        r.min_x <= x < x_hi,
        column_hits(st, r.level as int, x, r.min_y as int, r.max_y as int, query).contains(key),
    ensures
        rect_hits(st, r, x_hi, query).contains(key),
    decreases x_hi - r.min_x,
{
    if x < x_hi - 1 {
        lemma_rect_hits_contains(st, r, x_hi - 1, x, query, key);
    }
    lemma_concat_contains(
        rect_hits(st, r, x_hi - 1, query),
        column_hits(st, r.level as int, x_hi - 1, r.min_y as int, r.max_y as int, query),
        key,
    );
}

pub(crate) proof fn lemma_ranges_hits_contains<S>(
    st: FieldState<S>,
    rs: Seq<TileRange>,
    i: int,
    query: u64,
    key: u64,
)
    requires
        0 <= i < rs.len(),
        rect_hits(st, rs[i], rs[i].max_x as int, query).contains(key),
    ensures
        ranges_hits(st, rs, query).contains(key),
    decreases rs.len(),
{
    if i < rs.len() - 1 {
        assert(rs.drop_last()[i] == rs[i]);
        lemma_ranges_hits_contains(st, rs.drop_last(), i, query, key);
    }
    lemma_concat_contains(
        ranges_hits(st, rs.drop_last(), query),
        rect_hits(st, rs.last(), rs.last().max_x as int, query),
        key,
    );
}

proof fn lemma_column_hits_stored<S>(
    st: FieldState<S>,
    level: int,
    x: int,
    y_lo: int,
    y_hi: int,
    query: u64,
)
    ensures
        forall|j: int|
            0 <= j < column_hits(st, level, x, y_lo, y_hi, query).len() ==> st.records.contains_key(
                #[trigger] column_hits(st, level, x, y_lo, y_hi, query)[j],
            ),
    decreases y_hi - y_lo,
{
    if y_hi > y_lo {
        lemma_column_hits_stored(st, level, x, y_lo, y_hi - 1, query);
        lemma_bucket_hits_stored(
            bucket_of(st.cells, tile_id(level, x, y_hi - 1) as u128),
            st.records,
            query,
        );
        let a = column_hits(st, level, x, y_lo, y_hi - 1, query);
        let b = tile_hits(st, level, x, y_hi - 1, query);
        assert forall|j: int| 0 <= j < (a + b).len() implies st.records.contains_key(
            #[trigger] (a + b)[j],
        ) by {
            if j >= a.len() {
                assert((a + b)[j] == b[j - a.len()]);
            }
        }
    }
}

proof fn lemma_rect_hits_stored<S>(st: FieldState<S>, r: TileRange, x_hi: int, query: u64)
    ensures
        forall|j: int|
            0 <= j < rect_hits(st, r, x_hi, query).len() ==> st.records.contains_key(
                #[trigger] rect_hits(st, r, x_hi, query)[j],
            ),
    decreases x_hi - r.min_x,
{
    if x_hi > r.min_x {
        lemma_rect_hits_stored(st, r, x_hi - 1, query);
        lemma_column_hits_stored(st, r.level as int, x_hi - 1, r.min_y as int, r.max_y as int, query);
        let a = rect_hits(st, r, x_hi - 1, query);
        let b = column_hits(st, r.level as int, x_hi - 1, r.min_y as int, r.max_y as int, query);
        assert forall|j: int| 0 <= j < (a + b).len() implies st.records.contains_key(
            #[trigger] (a + b)[j],
        ) by {
            if j >= a.len() {
                assert((a + b)[j] == b[j - a.len()]);
            }
        }
    }
}

/// Every key that a query reports is the key of a stored signal.
pub proof fn lemma_scan_reports_stored<S>(st: FieldState<S>, rs: Seq<TileRange>, query: u64)
    ensures
        forall|j: int|
            0 <= j < ranges_hits(st, rs, query).len() ==> st.records.contains_key(
                #[trigger] ranges_hits(st, rs, query)[j],
            ),
    decreases rs.len(),
{
    if rs.len() > 0 {
        lemma_scan_reports_stored(st, rs.drop_last(), query);
        lemma_rect_hits_stored(st, rs.last(), rs.last().max_x as int, query);
        let a = ranges_hits(st, rs.drop_last(), query);
        let b = rect_hits(st, rs.last(), rs.last().max_x as int, query);
        assert forall|j: int| 0 <= j < (a + b).len() implies st.records.contains_key(
            #[trigger] (a + b)[j],
        ) by {
            if j >= a.len() {
                assert((a + b)[j] == b[j - a.len()]);
            }
        }
    }
}

/// A query that covers the tile of a stored signal, with a mask that meets the
/// signal's emit mask, reports that signal.
pub proof fn lemma_scan_finds_signal<S>(
    field: SignalField<S>,
    ranges: Seq<TileRange>,
    i: int,
    query: u64,
    key: u64,
)
    requires
        field.wf(),
        field@.records.contains_key(key),
        0 <= i < ranges.len(),
        ranges[i].level == field@.records[key].tile.level,
        ranges[i].min_x <= field@.records[key].tile.x < ranges[i].max_x,
        ranges[i].min_y <= field@.records[key].tile.y < ranges[i].max_y,
        (field@.records[key].emit_mask.bits & query) != 0,
    ensures
        ranges_hits(field@, ranges, query).contains(key),
{
    let st = field@;
    let rec = st.records[key];
    let t = rec.tile;
    let r = ranges[i];
    assert(record_filed(st.records, st.cells, key));
    let e = (key, rec.emit_mask.bits);
    lemma_bucket_hits_contains(bucket_of(st.cells, t.id()), st.records, query, e);
    lemma_column_hits_contains(
        st,
        r.level as int,
        t.x as int,
        r.min_y as int,
        r.max_y as int,
        t.y as int,
        query,
        key,
    );
    lemma_rect_hits_contains(st, r, r.max_x as int, t.x as int, query, key);
    lemma_ranges_hits_contains(st, ranges, i, query, key);
}

/// Ceasing a signal that was just emitted under a new key gives back the field
/// as it was, provided the grid held no stale entry for that key at its tile.
pub proof fn lemma_cease_undoes_emit<S>(field: SignalField<S>, signal: SignalRecord<S>, key: u64)
    requires
        field.wf(),
        !field@.records.contains_key(key),
        !holds_key(bucket_of(field@.cells, signal.tile.id()), key),
        signal.tile.level < LEVEL_COUNT,
        field@.counts[signal.tile.level as int] < u32::MAX,
    ensures
        spec_cease(spec_emit(field@, signal, key), key) == field@,
{
    let st = field@;
    let t = signal.tile;
    let id = t.id();
    let l = t.level as int;
    let e1 = spec_emit(st, signal, key);
    let b = bucket_of(st.cells, id);
    let b1 = b.push((key, signal.emit_mask.bits));
    assert(bucket_of(e1.cells, id) == b1);
    assert(first_key_at(b1, key, b.len() as int));
    lemma_first_key_unique(b1, key, b.len() as int);
    assert(swap_removed(b1, b.len() as int) =~= b);
    let e2 = spec_cease(e1, key);
    assert(e2.records =~= st.records);
    if b.len() == 0 {
        assert(!st.cells.contains_key(id)) by {
            if st.cells.contains_key(id) {
                assert(st.cells[id].len() > 0);
            }
        }
        assert(e2.cells =~= st.cells);
    } else {
        assert(st.cells.contains_key(id));
        assert(e2.cells =~= st.cells);
    }
    assert(e2.counts =~= st.counts);
    let bit = t.level as u64;
    let a = st.active;
    if st.counts[l] == 0 {
        assert(!bit_set(a, l));
        assert(((a | (1u64 << bit)) & !(1u64 << bit)) == a) by (bit_vector)
            requires
                bit < 64,
                (a >> bit) & 1u64 != 1u64,
        ;
    } else {
        assert(bit_set(a, l));
        assert((a | (1u64 << bit)) == a) by (bit_vector)
            requires
                bit < 64,
                (a >> bit) & 1u64 == 1u64,
        ;
    }
}

/// Once a signal has ceased, no query reports it.
pub proof fn lemma_ceased_not_reported<S>(st: FieldState<S>, key: u64, rs: Seq<TileRange>, query: u64)
    ensures
        !ranges_hits(spec_cease(st, key), rs, query).contains(key),
{
    let after = spec_cease(st, key);
    assert(!after.records.contains_key(key));
    lemma_scan_reports_stored(after, rs, query);
}

/// A well-formed field's grid is consistent and its stored signals are filed.
pub proof fn lemma_wf_signals_filed<S>(field: SignalField<S>)
    requires
        field.wf(),
    ensures
        field@.signals_filed(),
{
}

/// A level is marked in use exactly when some tile of that level holds entries.
pub proof fn lemma_active_levels_in_use<S>(field: SignalField<S>, l: int)
    requires
        field.wf(),
        0 <= l < LEVEL_COUNT,
    ensures
        bit_set(field@.active, l) <==> exists|id: u128|
            #[trigger] field@.cells.contains_key(id) && level_of(id) == l,
{
    let st = field@;
    let ms = field.tiles@;
    if bit_set(st.active, l) {
        assert(st.counts[l] > 0);
        assert(field.level_counts@[l] == level_count(ms, l));
        let f = level_is(l);
        let c = ms.filter(f).choose();
        assert(ms.filter(f).count(c) > 0);
        assert(level_of(c) == l && ms.count(c) > 0);
        assert(ms.count(c) == bucket_of(st.cells, c).len());
        assert(st.cells.contains_key(c));
    }
    if exists|id: u128| #[trigger] st.cells.contains_key(id) && level_of(id) == l {
        let id = choose|id: u128| #[trigger] st.cells.contains_key(id) && level_of(id) == l;
        assert(st.cells[id].len() > 0);
        assert(ms.count(id) == bucket_of(st.cells, id).len());
        lemma_level_count_positive(ms, id);
        assert(field.level_counts@[l] == level_count(ms, l));
    }
}

/// The level of every stored signal is marked in use, so a query that walks the levels
/// in use, covering the signal's tile, reaches it.
pub proof fn lemma_stored_level_active<S>(field: SignalField<S>, key: u64)
    requires
        field.wf(),
        field@.records.contains_key(key),
    ensures
        bit_set(field@.active, field@.records[key].tile.level as int),
{
    let t = field@.records[key].tile;
    assert(record_filed(field@.records, field@.cells, key));
    lemma_tile_id_level(t.level as int, t.x as int, t.y as int);
    lemma_active_levels_in_use(field, t.level as int);
}

} // verus!
