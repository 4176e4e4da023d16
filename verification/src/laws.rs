//! Laws of the field when its grid is exact: what queries report, which levels are in
//! use, and how `emit`, `cease` and `reposition` relate.

use crate::field::{
    bucket_hits, bucket_meets, bucket_of, column_hits, covered, entry_of_record, first_key_at,
    holds_key, key_index, lemma_active_levels_in_use, lemma_bucket_hits_contains,
    lemma_column_hits_contains, lemma_first_key_unique,
    lemma_ranges_hits_contains, lemma_rect_hits_contains, lemma_stored_level_active, lemma_wf_signals_filed,
    ranges_hits, record_filed, rect_hits, spec_cease, spec_emit, spec_reposition,
    spec_reshape, swap_removed, tile_hits, tile_in_range, FieldState, SignalField,
    SignalRecord,
};
use crate::mask::{bit_set, lemma_bit_insert};
use crate::tile::{
    level_of, lemma_tile_id_injective, lemma_tile_id_level, tile_id, TileKey, TileRange,
    LEVEL_COUNT,
};
use vstd::prelude::*;

verus! {

// ---------------------------------------------------------------------------
// Where a reported key comes from

proof fn lemma_concat_elem<T>(a: Seq<T>, b: Seq<T>, x: T)
    requires
        (a + b).contains(x),
    ensures
        a.contains(x) || b.contains(x),
{
    let j = choose|j: int| 0 <= j < (a + b).len() && (a + b)[j] == x;
    if j < a.len() {
        assert(a[j] == x);
    } else {
        assert(b[j - a.len()] == x);
    }
}

proof fn lemma_bucket_hits_elem<S>(
    b: Seq<(u64, u64)>,
    records: Map<u64, SignalRecord<S>>,
    query: u64,
    k: u64,
)
    requires
        bucket_hits(b, records, query).contains(k),
    ensures
        records.contains_key(k),
        bucket_meets(b, k, query),
    decreases b.len(),
{
    let rest = bucket_hits(b.drop_last(), records, query);
    let hits = bucket_hits(b, records, query);
    if rest.contains(k) {
        lemma_bucket_hits_elem(b.drop_last(), records, query, k);
        let e = choose|e: (u64, u64)|
            #[trigger] b.drop_last().contains(e) && e.0 == k && (e.1 & query) != 0;
        let j = choose|j: int| 0 <= j < b.drop_last().len() && b.drop_last()[j] == e;
        assert(b[j] == e);
        assert(b.contains(e));
    } else {
        let j = choose|j: int| 0 <= j < hits.len() && hits[j] == k;
        if hits == rest {
            assert(rest[j] == k);
        }
        assert(hits == rest.push(b.last().0));
        assert(j == rest.len()) by {
            if j < rest.len() {
                assert(rest[j] == k);
            }
        }
        assert(b[b.len() - 1] == b.last());
        assert(b.contains(b.last()));
    }
}

proof fn lemma_column_hits_elem<S>(
    st: FieldState<S>,
    level: int,
    x: int,
    y_lo: int,
    y_hi: int,
    query: u64,
    k: u64,
)
    requires
        column_hits(st, level, x, y_lo, y_hi, query).contains(k),
    ensures
        exists|y: int| y_lo <= y < y_hi && #[trigger] tile_hits(st, level, x, y, query).contains(k),
    decreases y_hi - y_lo,
{
    if y_hi > y_lo {
        let a = column_hits(st, level, x, y_lo, y_hi - 1, query);
        let b = tile_hits(st, level, x, y_hi - 1, query);
        lemma_concat_elem(a, b, k);
        if a.contains(k) {
            lemma_column_hits_elem(st, level, x, y_lo, y_hi - 1, query, k);
        }
    }
}

proof fn lemma_rect_hits_elem<S>(st: FieldState<S>, r: TileRange, x_hi: int, query: u64, k: u64)
    requires
        rect_hits(st, r, x_hi, query).contains(k),
    ensures
        exists|x: int, y: int|
            r.min_x <= x < x_hi && r.min_y <= y < r.max_y && #[trigger] tile_hits(
                st,
                r.level as int,
                x,
                y,
                query,
            ).contains(k),
    decreases x_hi - r.min_x,
{
    if x_hi > r.min_x {
        let a = rect_hits(st, r, x_hi - 1, query);
        let b = column_hits(st, r.level as int, x_hi - 1, r.min_y as int, r.max_y as int, query);
        lemma_concat_elem(a, b, k);
        if a.contains(k) {
            lemma_rect_hits_elem(st, r, x_hi - 1, query, k);
        } else {
            lemma_column_hits_elem(
                st,
                r.level as int,
                x_hi - 1,
                r.min_y as int,
                r.max_y as int,
                query,
                k,
            );
        }
    }
}

proof fn lemma_ranges_hits_elem<S>(st: FieldState<S>, rs: Seq<TileRange>, query: u64, k: u64)
    requires
        ranges_hits(st, rs, query).contains(k),
    ensures
        exists|i: int, x: int, y: int|
            0 <= i < rs.len() && tile_in_range(rs[i], x, y) && #[trigger] tile_hits(
                st,
                rs[i].level as int,
                x,
                y,
                query,
            ).contains(k),
    decreases rs.len(),
{
    if rs.len() > 0 {
        let a = ranges_hits(st, rs.drop_last(), query);
        let b = rect_hits(st, rs.last(), rs.last().max_x as int, query);
        lemma_concat_elem(a, b, k);
        if a.contains(k) {
            lemma_ranges_hits_elem(st, rs.drop_last(), query, k);
            let (i, x, y) = choose|i: int, x: int, y: int|
                0 <= i < rs.drop_last().len() && tile_in_range(rs.drop_last()[i], x, y)
                    && #[trigger] tile_hits(st, rs.drop_last()[i].level as int, x, y, query).contains(
                    k,
                );
            assert(rs.drop_last()[i] == rs[i]);
            assert(tile_hits(st, rs[i].level as int, x, y, query).contains(k));
        } else {
            lemma_rect_hits_elem(st, rs.last(), rs.last().max_x as int, query, k);
            let (x, y) = choose|x: int, y: int|
                rs.last().min_x <= x < rs.last().max_x && rs.last().min_y <= y < rs.last().max_y
                    && #[trigger] tile_hits(st, rs.last().level as int, x, y, query).contains(k);
            assert(rs[rs.len() - 1] == rs.last());
            assert(tile_hits(st, rs[rs.len() - 1].level as int, x, y, query).contains(k));
        }
    }
}

/// A query reports `k` exactly when `k` is stored and some tile of its ranges holds an
/// entry for `k` whose mask meets the query mask.
pub proof fn lemma_reports_iff_covered<S>(st: FieldState<S>, rs: Seq<TileRange>, query: u64, k: u64)
    ensures
        ranges_hits(st, rs, query).contains(k) <==> covered(st, rs, query, k),
{
    if ranges_hits(st, rs, query).contains(k) {
        lemma_ranges_hits_elem(st, rs, query, k);
        let (i, x, y) = choose|i: int, x: int, y: int|
            0 <= i < rs.len() && tile_in_range(rs[i], x, y) && #[trigger] tile_hits(
                st,
                rs[i].level as int,
                x,
                y,
                query,
            ).contains(k);
        lemma_bucket_hits_elem(
            bucket_of(st.cells, tile_id(rs[i].level as int, x, y) as u128),
            st.records,
            query,
            k,
        );
    }
    if covered(st, rs, query, k) {
        let (i, x, y) = choose|i: int, x: int, y: int|
            0 <= i < rs.len() && tile_in_range(rs[i], x, y) && #[trigger] bucket_meets(
                bucket_of(st.cells, tile_id(rs[i].level as int, x, y) as u128),
                k,
                query,
            );
        let b = bucket_of(st.cells, tile_id(rs[i].level as int, x, y) as u128);
        let e = choose|e: (u64, u64)| #[trigger] b.contains(e) && e.0 == k && (e.1 & query) != 0;
        lemma_bucket_hits_contains(b, st.records, query, e);
        let r = rs[i];
        lemma_column_hits_contains(
            st,
            r.level as int,
            x,
            r.min_y as int,
            r.max_y as int,
            y,
            query,
            k,
        );
        lemma_rect_hits_contains(st, r, r.max_x as int, x, query, k);
        lemma_ranges_hits_contains(st, rs, i, query, k);
    }
}

/// Two fields with the same stored signals, whose buckets hold the same entries meeting
/// `query` for every stored key, report the same keys.
pub proof fn lemma_same_reports<S>(a: FieldState<S>, b: FieldState<S>, rs: Seq<TileRange>, query: u64)
    requires
        a.records == b.records,
        forall|id: u128, k: u64|
            #![trigger bucket_meets(bucket_of(a.cells, id), k, query)]
            #![trigger bucket_meets(bucket_of(b.cells, id), k, query)]
            a.records.contains_key(k) ==> (bucket_meets(bucket_of(a.cells, id), k, query)
                <==> bucket_meets(bucket_of(b.cells, id), k, query)),
    ensures
        forall|k: u64|
            #[trigger] ranges_hits(a, rs, query).contains(k) <==> ranges_hits(b, rs, query).contains(
                k,
            ),
{
    assert forall|k: u64|
        #[trigger] ranges_hits(a, rs, query).contains(k) <==> ranges_hits(b, rs, query).contains(
            k,
        ) by {
        lemma_reports_iff_covered(a, rs, query, k);
        lemma_reports_iff_covered(b, rs, query, k);
        if covered(a, rs, query, k) {
            let (i, x, y) = choose|i: int, x: int, y: int|
                0 <= i < rs.len() && tile_in_range(rs[i], x, y) && #[trigger] bucket_meets(
                    bucket_of(a.cells, tile_id(rs[i].level as int, x, y) as u128),
                    k,
                    query,
                );
            assert(bucket_meets(
                bucket_of(b.cells, tile_id(rs[i].level as int, x, y) as u128),
                k,
                query,
            ));
        }
        if covered(b, rs, query, k) {
            let (i, x, y) = choose|i: int, x: int, y: int|
                0 <= i < rs.len() && tile_in_range(rs[i], x, y) && #[trigger] bucket_meets(
                    bucket_of(b.cells, tile_id(rs[i].level as int, x, y) as u128),
                    k,
                    query,
                );
            assert(bucket_meets(
                bucket_of(a.cells, tile_id(rs[i].level as int, x, y) as u128),
                k,
                query,
            ));
        }
    }
}

// ---------------------------------------------------------------------------
// Each key is reported once

/// In an exact field, a key reported by the tile `(level, x, y)` is stored at that tile.
proof fn lemma_hit_location<S>(st: FieldState<S>, level: int, x: int, y: int, query: u64, k: u64)
    requires
        st.exact(),
        0 <= level < 256,
        i32::MIN <= x <= i32::MAX,
        i32::MIN <= y <= i32::MAX,
        tile_hits(st, level, x, y, query).contains(k),
    ensures
        st.records.contains_key(k),
        st.records[k].tile.level == level,
        st.records[k].tile.x == x,
        st.records[k].tile.y == y,
{
    let id = tile_id(level, x, y) as u128;
    let b = bucket_of(st.cells, id);
    lemma_bucket_hits_elem(b, st.records, query, k);
    let e = choose|e: (u64, u64)| #[trigger] b.contains(e) && e.0 == k && (e.1 & query) != 0;
    let j = choose|j: int| 0 <= j < b.len() && b[j] == e;
    assert(st.cells.contains_key(id));
    assert(entry_of_record(st.records, id, st.cells[id][j]));
    let t = st.records[k].tile;
    lemma_tile_id_level(level, x, y);
    lemma_tile_id_level(t.level as int, t.x as int, t.y as int);
    lemma_tile_id_injective(level, x, y, t.level as int, t.x as int, t.y as int);
}

proof fn lemma_concat_no_duplicates<T>(a: Seq<T>, b: Seq<T>)
    requires
        a.no_duplicates(),
        b.no_duplicates(),
        forall|x: T| a.contains(x) ==> !#[trigger] b.contains(x),
    ensures
        (a + b).no_duplicates(),
{
    let c = a + b;
    assert forall|i: int, j: int| 0 <= i < c.len() && 0 <= j < c.len() && i != j implies c[i]
        != c[j] by {
        if i < a.len() && j < a.len() {
            assert(c[i] == a[i] && c[j] == a[j]);
        } else if i < a.len() {
            assert(c[i] == a[i]);
            assert(a.contains(c[i]));
            assert(b[j - a.len()] == c[j]);
            if c[i] == c[j] {
                assert(b.contains(c[i]));
            }
        } else if j < a.len() {
            assert(c[j] == a[j]);
            assert(a.contains(c[j]));
            assert(b[i - a.len()] == c[i]);
            if c[i] == c[j] {
                assert(b.contains(c[j]));
            }
        } else {
            assert(c[i] == b[i - a.len()] && c[j] == b[j - a.len()]);
        }
    }
}

proof fn lemma_bucket_hits_unique<S>(b: Seq<(u64, u64)>, records: Map<u64, SignalRecord<S>>, query: u64)
    requires
        forall|i: int, j: int|
            0 <= i < b.len() && 0 <= j < b.len() && i != j ==> #[trigger] b[i].0 != #[trigger] b[j].0,
    ensures
        bucket_hits(b, records, query).no_duplicates(),
    decreases b.len(),
{
    if b.len() > 0 {
        let init = b.drop_last();
        assert forall|i: int, j: int|
            0 <= i < init.len() && 0 <= j < init.len() && i != j implies #[trigger] init[i].0
            != #[trigger] init[j].0 by {
            assert(init[i] == b[i] && init[j] == b[j]);
        }
        lemma_bucket_hits_unique(init, records, query);
        let rest = bucket_hits(init, records, query);
        let last = b.last();
        if (last.1 & query) != 0 && records.contains_key(last.0) {
            assert(!rest.contains(last.0)) by {
                if rest.contains(last.0) {
                    lemma_bucket_hits_elem(init, records, query, last.0);
                    let e = choose|e: (u64, u64)|
                        #[trigger] init.contains(e) && e.0 == last.0 && (e.1 & query) != 0;
                    let j = choose|j: int| 0 <= j < init.len() && init[j] == e;
                    assert(b[j].0 == b[b.len() - 1].0);
                }
            }
            let hits = rest.push(last.0);
            assert forall|i: int, j: int| 0 <= i < hits.len() && 0 <= j < hits.len() && i != j implies hits[i]
                != hits[j] by {
                if i == rest.len() {
                    assert(hits[j] == rest[j]);
                    assert(rest.contains(rest[j]));
                } else if j == rest.len() {
                    assert(hits[i] == rest[i]);
                    assert(rest.contains(rest[i]));
                } else {
                    assert(hits[i] == rest[i] && hits[j] == rest[j]);
                }
            }
        }
    }
}

proof fn lemma_tile_hits_unique<S>(st: FieldState<S>, level: int, x: int, y: int, query: u64)
    requires
        st.exact(),
    ensures
        tile_hits(st, level, x, y, query).no_duplicates(),
{
    let id = tile_id(level, x, y) as u128;
    let b = bucket_of(st.cells, id);
    if st.cells.contains_key(id) {
        assert forall|i: int, j: int|
            0 <= i < b.len() && 0 <= j < b.len() && i != j implies #[trigger] b[i].0
            != #[trigger] b[j].0 by {
            assert(st.cells[id][i].0 != st.cells[id][j].0);
        }
    }
    lemma_bucket_hits_unique(b, st.records, query);
}

proof fn lemma_column_hits_unique<S>(
    st: FieldState<S>,
    level: int,
    x: int,
    y_lo: int,
    y_hi: int,
    query: u64,
)
    requires
        st.exact(),
        0 <= level < 256,
        i32::MIN <= x <= i32::MAX,
        i32::MIN <= y_lo,
        y_hi <= i32::MAX + 1,
    ensures
        column_hits(st, level, x, y_lo, y_hi, query).no_duplicates(),
        forall|k: u64|
            #[trigger] column_hits(st, level, x, y_lo, y_hi, query).contains(k) ==> st.records.contains_key(k)
                && st.records[k].tile.level == level && st.records[k].tile.x == x && y_lo
                <= st.records[k].tile.y < y_hi,
    decreases y_hi - y_lo,
{
    if y_hi > y_lo {
        lemma_column_hits_unique(st, level, x, y_lo, y_hi - 1, query);
        lemma_tile_hits_unique(st, level, x, y_hi - 1, query);
        let a = column_hits(st, level, x, y_lo, y_hi - 1, query);
        let b = tile_hits(st, level, x, y_hi - 1, query);
        assert forall|k: u64| #[trigger] b.contains(k) implies st.records.contains_key(k)
            && st.records[k].tile.level == level && st.records[k].tile.x == x
            && st.records[k].tile.y == y_hi - 1 by {
            lemma_hit_location(st, level, x, y_hi - 1, query, k);
        }
        lemma_concat_no_duplicates(a, b);
        assert forall|k: u64| #[trigger] (a + b).contains(k) implies st.records.contains_key(k)
            && st.records[k].tile.level == level && st.records[k].tile.x == x && y_lo
            <= st.records[k].tile.y < y_hi by {
            lemma_concat_elem(a, b, k);
        }
    }
}

proof fn lemma_rect_hits_unique<S>(st: FieldState<S>, r: TileRange, x_hi: int, query: u64)
    requires
        st.exact(),
        x_hi <= i32::MAX + 1,
    ensures
        rect_hits(st, r, x_hi, query).no_duplicates(),
        forall|k: u64|
            #[trigger] rect_hits(st, r, x_hi, query).contains(k) ==> st.records.contains_key(k)
                && st.records[k].tile.level == r.level && r.min_x <= st.records[k].tile.x < x_hi,
    decreases x_hi - r.min_x,
{
    if x_hi > r.min_x {
        lemma_rect_hits_unique(st, r, x_hi - 1, query);
        lemma_column_hits_unique(st, r.level as int, x_hi - 1, r.min_y as int, r.max_y as int, query);
        let a = rect_hits(st, r, x_hi - 1, query);
        let b = column_hits(st, r.level as int, x_hi - 1, r.min_y as int, r.max_y as int, query);
        lemma_concat_no_duplicates(a, b);
        assert forall|k: u64| #[trigger] (a + b).contains(k) implies st.records.contains_key(k)
            && st.records[k].tile.level == r.level && r.min_x <= st.records[k].tile.x < x_hi by {
            lemma_concat_elem(a, b, k);
        }
    }
}

/// In an exact field, a query whose ranges are at distinct levels reports each key at
/// most once.
pub proof fn lemma_scan_reports_once<S>(st: FieldState<S>, rs: Seq<TileRange>, query: u64)
    requires
        st.exact(),
        forall|i: int, j: int|
            0 <= i < rs.len() && 0 <= j < rs.len() && i != j ==> #[trigger] rs[i].level
                != #[trigger] rs[j].level,
    ensures
        ranges_hits(st, rs, query).no_duplicates(),
        forall|k: u64|
            #[trigger] ranges_hits(st, rs, query).contains(k) ==> exists|i: int|
                0 <= i < rs.len() && #[trigger] rs[i].level == st.records[k].tile.level,
    decreases rs.len(),
{
    if rs.len() > 0 {
        let init = rs.drop_last();
        assert forall|i: int, j: int|
            0 <= i < init.len() && 0 <= j < init.len() && i != j implies #[trigger] init[i].level
            != #[trigger] init[j].level by {
            assert(init[i] == rs[i] && init[j] == rs[j]);
        }
        lemma_scan_reports_once(st, init, query);
        let r = rs.last();
        lemma_rect_hits_unique(st, r, r.max_x as int, query);
        let a = ranges_hits(st, init, query);
        let b = rect_hits(st, r, r.max_x as int, query);
        assert forall|k: u64| a.contains(k) implies !#[trigger] b.contains(k) by {
            let i = choose|i: int| 0 <= i < init.len() && #[trigger] init[i].level == st.records[k].tile.level;
            assert(init[i] == rs[i]);
            assert(rs[rs.len() - 1] == r);
        }
        lemma_concat_no_duplicates(a, b);
        assert forall|k: u64| #[trigger] (a + b).contains(k) implies exists|i: int|
            0 <= i < rs.len() && #[trigger] rs[i].level == st.records[k].tile.level by {
            lemma_concat_elem(a, b, k);
            if a.contains(k) {
                let i = choose|i: int| 0 <= i < init.len() && #[trigger] init[i].level == st.records[k].tile.level;
                assert(init[i] == rs[i]);
            } else {
                assert(rs[rs.len() - 1] == r);
            }
        }
    }
}

/// In an exact field, a level is in use exactly when some stored signal sits at it.
pub proof fn lemma_active_levels_are_stored_levels<S>(field: SignalField<S>, l: int)
    requires
        field.wf(),
        field@.exact(),
        0 <= l < LEVEL_COUNT,
    ensures
        bit_set(field@.active, l) <==> exists|k: u64|
            #[trigger] field@.records.contains_key(k) && field@.records[k].tile.level == l,
{
    let st = field@;
    lemma_wf_signals_filed(field);
    lemma_active_levels_in_use(field, l);
    if bit_set(st.active, l) {
        let id = choose|id: u128| #[trigger] st.cells.contains_key(id) && level_of(id) == l;
        assert(st.cells[id].len() > 0);
        let e = st.cells[id][0];
        assert(entry_of_record(st.records, id, e));
        let t = st.records[e.0].tile;
        lemma_tile_id_level(t.level as int, t.x as int, t.y as int);
        assert(st.records.contains_key(e.0) && st.records[e.0].tile.level == l);
    }
    if exists|k: u64| #[trigger] st.records.contains_key(k) && st.records[k].tile.level == l {
        let k = choose|k: u64| #[trigger] st.records.contains_key(k) && st.records[k].tile.level == l;
        lemma_stored_level_active(field, k);
    }
}

// ---------------------------------------------------------------------------
// The operations keep the grid exact

proof fn lemma_holds_key_first(b: Seq<(u64, u64)>, key: u64)
    requires
        holds_key(b, key),
    ensures
        first_key_at(b, key, key_index(b, key)),
    decreases b.len(),
{
    if b[0].0 == key {
        assert(first_key_at(b, key, 0));
    } else {
        let rest = b.drop_first();
        let i = choose|i: int| 0 <= i < b.len() && #[trigger] b[i].0 == key;
        assert(rest[i - 1].0 == key);
        lemma_holds_key_first(rest, key);
        let k = key_index(rest, key);
        assert(first_key_at(b, key, k + 1)) by {
            assert forall|j: int| 0 <= j < k + 1 implies #[trigger] b[j].0 != key by {
                if j > 0 {
                    assert(b[j] == rest[j - 1]);
                }
            }
        }
        lemma_first_key_unique(b, key, k + 1);
    }
}

/// In an exact field, the entry of a stored signal is the only entry for its key in its
/// bucket, and so the first.
proof fn lemma_exact_entry_index<S>(st: FieldState<S>, key: u64)
    requires
        st.exact(),
        st.signals_filed(),
        st.records.contains_key(key),
    ensures
        ({
            let r = st.records[key];
            let b = bucket_of(st.cells, r.tile.id());
            &&& st.cells.contains_key(r.tile.id())
            &&& holds_key(b, key)
            &&& first_key_at(b, key, key_index(b, key))
            &&& b[key_index(b, key)] == (key, r.emit_mask.bits)
        }),
{
    let r = st.records[key];
    let id = r.tile.id();
    assert(record_filed(st.records, st.cells, key));
    let b = st.cells[id];
    let j = choose|j: int| 0 <= j < b.len() && b[j] == (key, r.emit_mask.bits);
    assert(first_key_at(b, key, j)) by {
        assert forall|m: int| 0 <= m < j implies #[trigger] b[m].0 != key by {
            assert(st.cells[id][m].0 != st.cells[id][j].0);
        }
    }
    lemma_first_key_unique(b, key, j);
}

/// `emit` of a key that is not stored keeps the grid exact.
pub proof fn lemma_emit_keeps_exact<S>(st: FieldState<S>, signal: SignalRecord<S>, key: u64)
    requires
        st.exact(),
        !st.records.contains_key(key),
    ensures
        spec_emit(st, signal, key).exact(),
{
    let after = spec_emit(st, signal, key);
    let id = signal.tile.id();
    let b = bucket_of(st.cells, id);
    let n = (key, signal.emit_mask.bits);
    let nb = b.push(n);
    assert(after.cells == st.cells.insert(id, nb));
    assert forall|id2: u128, j: int|
        #![trigger after.cells[id2][j]]
        after.cells.contains_key(id2) && 0 <= j < after.cells[id2].len() implies entry_of_record(
        after.records,
        id2,
        after.cells[id2][j],
    ) by {
        if id2 == id {
            if j < b.len() {
                assert(st.cells.contains_key(id));
                assert(nb[j] == st.cells[id][j]);
                assert(entry_of_record(st.records, id, st.cells[id][j]));
            } else {
                assert(nb[j] == n);
            }
        } else {
            assert(entry_of_record(st.records, id2, st.cells[id2][j]));
        }
    }
    assert forall|id2: u128, i: int, j: int|
        #![trigger after.cells[id2][i], after.cells[id2][j]]
        after.cells.contains_key(id2) && 0 <= i < after.cells[id2].len() && 0 <= j
            < after.cells[id2].len() && i != j implies after.cells[id2][i].0 != after.cells[id2][j].0 by {
        if id2 == id {
            if i < b.len() && j < b.len() {
                assert(st.cells[id][i].0 != st.cells[id][j].0);
                assert(nb[i] == st.cells[id][i] && nb[j] == st.cells[id][j]);
            } else if i < b.len() {
                assert(entry_of_record(st.records, id, st.cells[id][i]));
                assert(nb[i] == st.cells[id][i] && nb[j] == n);
            } else {
                assert(entry_of_record(st.records, id, st.cells[id][j]));
                assert(nb[j] == st.cells[id][j] && nb[i] == n);
            }
        } else {
            assert(st.cells[id2][i].0 != st.cells[id2][j].0);
        }
    }
}

/// `cease` keeps the grid exact.
pub proof fn lemma_cease_keeps_exact<S>(st: FieldState<S>, key: u64)
    requires
        st.exact(),
    ensures
        spec_cease(st, key).exact(),
{
    if st.records.contains_key(key) {
        let after = spec_cease(st, key);
        let r = st.records[key];
        let id = r.tile.id();
        let b = bucket_of(st.cells, id);
        // an entry for `key` can only sit in the bucket of its tile
        assert forall|id2: u128, j: int|
            st.cells.contains_key(id2) && 0 <= j < st.cells[id2].len() && #[trigger] st.cells[id2][j].0
                == key implies id2 == id && holds_key(b, key) by {
            assert(entry_of_record(st.records, id2, st.cells[id2][j]));
        }
        if !holds_key(b, key) {
            assert(after.cells == st.cells);
            assert forall|id2: u128, j: int|
                #![trigger after.cells[id2][j]]
                after.cells.contains_key(id2) && 0 <= j < after.cells[id2].len() implies entry_of_record(
                after.records,
                id2,
                after.cells[id2][j],
            ) by {
                assert(entry_of_record(st.records, id2, st.cells[id2][j]));
            }
            assert forall|id2: u128, i: int, j: int|
                #![trigger after.cells[id2][i], after.cells[id2][j]]
                after.cells.contains_key(id2) && 0 <= i < after.cells[id2].len() && 0 <= j
                    < after.cells[id2].len() && i != j implies after.cells[id2][i].0
                != after.cells[id2][j].0 by {
                assert(st.cells[id2][i].0 != st.cells[id2][j].0);
            }
        } else {
            let j0 = choose|j: int| 0 <= j < b.len() && #[trigger] b[j].0 == key;
            assert(first_key_at(b, key, j0)) by {
                assert forall|m: int| 0 <= m < j0 implies #[trigger] b[m].0 != key by {
                    assert(st.cells[id][m].0 != st.cells[id][j0].0);
                }
            }
            lemma_first_key_unique(b, key, j0);
            let i = j0;
            let b2 = swap_removed(b, i);
            let last = b.len() - 1;
            assert forall|m: int| 0 <= m < b2.len() implies #[trigger] b2[m] == b[(if m == i {
                last
            } else {
                m
            })] && (if m == i {
                last
            } else {
                m
            }) != i by {}
            assert forall|id2: u128, j: int|
                #![trigger after.cells[id2][j]]
                after.cells.contains_key(id2) && 0 <= j < after.cells[id2].len() implies entry_of_record(
                after.records,
                id2,
                after.cells[id2][j],
            ) by {
                if id2 == id {
                    let src = if j == i {
                        last
                    } else {
                        j
                    };
                    assert(after.cells[id] == b2);
                    assert(b2[j] == st.cells[id][src]);
                    assert(st.cells[id][src].0 != st.cells[id][i].0);
                    assert(entry_of_record(st.records, id, st.cells[id][src]));
                } else {
                    assert(st.cells[id2][j] == after.cells[id2][j]);
                    assert(entry_of_record(st.records, id2, st.cells[id2][j]));
                    if st.cells[id2][j].0 == key {
                        assert(id2 == id);
                    }
                }
            }
            assert forall|id2: u128, m1: int, m2: int|
                #![trigger after.cells[id2][m1], after.cells[id2][m2]]
                after.cells.contains_key(id2) && 0 <= m1 < after.cells[id2].len() && 0 <= m2
                    < after.cells[id2].len() && m1 != m2 implies after.cells[id2][m1].0
                != after.cells[id2][m2].0 by {
                if id2 == id {
                    let s1 = if m1 == i {
                        last
                    } else {
                        m1
                    };
                    let s2 = if m2 == i {
                        last
                    } else {
                        m2
                    };
                    assert(after.cells[id] == b2);
                    assert(b2[m1] == st.cells[id][s1] && b2[m2] == st.cells[id][s2]);
                    assert(st.cells[id][s1].0 != st.cells[id][s2].0);
                } else {
                    assert(st.cells[id2][m1].0 != st.cells[id2][m2].0);
                }
            }
        }
    }
}

/// `reshape` keeps the grid exact.
pub proof fn lemma_reshape_keeps_exact<S>(st: FieldState<S>, key: u64, body: S)
    requires
        st.exact(),
    ensures
        spec_reshape(st, key, body).exact(),
{
    let after = spec_reshape(st, key, body);
    assert forall|id2: u128, j: int|
        #![trigger after.cells[id2][j]]
        after.cells.contains_key(id2) && 0 <= j < after.cells[id2].len() implies entry_of_record(
        after.records,
        id2,
        after.cells[id2][j],
    ) by {
        assert(entry_of_record(st.records, id2, st.cells[id2][j]));
    }
}

/// Moving a stored signal to another tile is ceasing it and emitting it again at the new
/// tile with the same masks.
pub proof fn lemma_reposition_moves_as_cease_then_emit<S>(
    st: FieldState<S>,
    key: u64,
    tile: TileKey,
    body: S,
)
    requires
        st.records.contains_key(key),
        st.records[key].tile != tile,
    ensures
        ({
            let r = st.records[key];
            let moved = SignalRecord {
                tile,
                emit_mask: r.emit_mask,
                sense_mask: r.sense_mask,
                body,
            };
            spec_reposition(st, key, tile, body) == spec_emit(spec_cease(st, key), moved, key)
        }),
{
    let r = st.records[key];
    let moved = SignalRecord { tile, emit_mask: r.emit_mask, sense_mask: r.sense_mask, body };
    let a = spec_reposition(st, key, tile, body);
    let b = spec_emit(spec_cease(st, key), moved, key);
    assert(a.records =~= b.records);
    assert(a.cells =~= b.cells);
    assert(a.counts =~= b.counts);
}

/// `reposition` keeps the grid exact.
pub proof fn lemma_reposition_keeps_exact<S>(st: FieldState<S>, key: u64, tile: TileKey, body: S)
    requires
        st.exact(),
    ensures
        spec_reposition(st, key, tile, body).exact(),
{
    if st.records.contains_key(key) {
        let r = st.records[key];
        if r.tile == tile {
            let after = spec_reposition(st, key, tile, body);
            assert forall|id2: u128, j: int|
                #![trigger after.cells[id2][j]]
                after.cells.contains_key(id2) && 0 <= j < after.cells[id2].len() implies entry_of_record(
                after.records,
                id2,
                after.cells[id2][j],
            ) by {
                assert(entry_of_record(st.records, id2, st.cells[id2][j]));
            }
        } else {
            let moved = SignalRecord {
                tile,
                emit_mask: r.emit_mask,
                sense_mask: r.sense_mask,
                body,
            };
            lemma_reposition_moves_as_cease_then_emit(st, key, tile, body);
            lemma_cease_keeps_exact(st, key);
            lemma_emit_keeps_exact(spec_cease(st, key), moved, key);
        }
    }
}

// ---------------------------------------------------------------------------
// cease after emit, and reposition, compared

proof fn lemma_update_keeps_meets(b: Seq<(u64, u64)>, i: int, n: (u64, u64), k: u64, query: u64)
    requires
        0 <= i < b.len(),
        b[i].0 != k,
        n.0 != k,
    ensures
        bucket_meets(b.update(i, n), k, query) == bucket_meets(b, k, query),
{
    let u = b.update(i, n);
    if bucket_meets(b, k, query) {
        let e = choose|e: (u64, u64)| #[trigger] b.contains(e) && e.0 == k && (e.1 & query) != 0;
        let m = choose|m: int| 0 <= m < b.len() && b[m] == e;
        assert(u[m] == e);
        assert(u.contains(e));
    }
    if bucket_meets(u, k, query) {
        let e = choose|e: (u64, u64)| #[trigger] u.contains(e) && e.0 == k && (e.1 & query) != 0;
        let m = choose|m: int| 0 <= m < u.len() && u[m] == e;
        assert(b[m] == e);
        assert(b.contains(e));
    }
}

proof fn lemma_swap_push_meets(b: Seq<(u64, u64)>, i: int, k: u64, query: u64)
    requires
        0 <= i < b.len(),
    ensures
        bucket_meets(swap_removed(b, i).push(b[i]), k, query) == bucket_meets(b, k, query),
{
    let c = swap_removed(b, i).push(b[i]);
    let last = b.len() - 1;
    if bucket_meets(b, k, query) {
        let e = choose|e: (u64, u64)| #[trigger] b.contains(e) && e.0 == k && (e.1 & query) != 0;
        let m = choose|m: int| 0 <= m < b.len() && b[m] == e;
        if m == i {
            assert(c[last] == e);
        } else if m == last {
            assert(c[i] == e);
        } else {
            assert(c[m] == e);
        }
        assert(c.contains(e));
    }
    if bucket_meets(c, k, query) {
        let e = choose|e: (u64, u64)| #[trigger] c.contains(e) && e.0 == k && (e.1 & query) != 0;
        let m = choose|m: int| 0 <= m < c.len() && c[m] == e;
        if m == last {
            assert(b[i] == e);
        } else if m == i {
            assert(b[last] == e);
        } else {
            assert(b[m] == e);
        }
        assert(b.contains(e));
    }
}

proof fn lemma_level_bit_restored(a: u64, bit: u64)
    by (bit_vector)
    requires
        bit < 64,
    ensures
        (a >> bit) & 1u64 != 1u64 ==> ((a | (1u64 << bit)) & !(1u64 << bit)) == a,
        (a >> bit) & 1u64 == 1u64 ==> (a | (1u64 << bit)) == a,
        (a >> bit) & 1u64 == 1u64 ==> ((a & !(1u64 << bit)) | (1u64 << bit)) == a,
{
}

/// Ceasing a signal just emitted under a key that was not stored gives back the stored
/// signals, the level counts and the levels in use, and every query reports the same keys
/// as before, even where the grid held a stale entry for the key.
pub proof fn lemma_emit_then_cease_restores<S>(field: SignalField<S>, signal: SignalRecord<S>, key: u64)
    requires
        field.wf(),
        !field@.records.contains_key(key),
        signal.tile.level < LEVEL_COUNT,
        field@.counts[signal.tile.level as int] < u32::MAX,
    ensures
        ({
            let after = spec_cease(spec_emit(field@, signal, key), key);
            &&& after.records == field@.records
            &&& after.counts == field@.counts
            &&& after.active == field@.active
            &&& forall|rs: Seq<TileRange>, query: u64, k: u64|
                #[trigger] ranges_hits(after, rs, query).contains(k) <==> ranges_hits(
                    field@,
                    rs,
                    query,
                ).contains(k)
        }),
{
    let st = field@;
    lemma_wf_signals_filed(field);
    let t = signal.tile;
    let id = t.id();
    let l = t.level as int;
    let e1 = spec_emit(st, signal, key);
    let n = (key, signal.emit_mask.bits);
    let b = bucket_of(st.cells, id);
    let b1 = b.push(n);
    assert(bucket_of(e1.cells, id) == b1);
    assert(b1[b.len() as int] == n);
    assert(b1[b.len() as int].0 == key);
    assert(holds_key(b1, key));
    lemma_holds_key_first(b1, key);
    let i = key_index(b1, key);
    let b2 = swap_removed(b1, i);
    let after = spec_cease(e1, key);
    assert(after.records =~= st.records);
    assert(after.counts =~= st.counts);
    // the bucket after: `b` itself, or `b` with its stale entry for `key` replaced by `n`
    if i == b.len() {
        assert(b2 =~= b);
    } else {
        assert(b2 =~= b.update(i, n));
        assert(b[i] == b1[i]);
    }
    if b.len() == 0 {
        assert(!st.cells.contains_key(id)) by {
            if st.cells.contains_key(id) {
                assert(st.cells[id].len() > 0);
            }
        }
    }
    let bit = t.level as u64;
    lemma_level_bit_restored(st.active, bit);
    if st.counts[l] == 0 {
        assert(!bit_set(st.active, l));
    } else {
        assert(bit_set(st.active, l));
    }
    assert forall|rs: Seq<TileRange>, query: u64, k: u64|
        #[trigger] ranges_hits(after, rs, query).contains(k) <==> ranges_hits(st, rs, query).contains(
            k,
        ) by {
        assert forall|id2: u128, k2: u64|
            #![trigger bucket_meets(bucket_of(after.cells, id2), k2, query)]
            #![trigger bucket_meets(bucket_of(st.cells, id2), k2, query)]
            after.records.contains_key(k2) implies (bucket_meets(
                bucket_of(after.cells, id2),
                k2,
                query,
            ) <==> bucket_meets(bucket_of(st.cells, id2), k2, query)) by {
            if id2 == id {
                if b2.len() == 0 {
                    assert(bucket_of(after.cells, id) =~= b);
                } else {
                    assert(bucket_of(after.cells, id) == b2);
                    if i < b.len() {
                        lemma_update_keeps_meets(b, i, n, k2, query);
                    }
                }
            } else {
                assert(bucket_of(after.cells, id2) == bucket_of(st.cells, id2));
            }
        }
        lemma_same_reports(after, st, rs, query);
    }
}

/// In an exact field, repositioning a stored signal is ceasing it and emitting it again
/// with the same masks: the stored signals, the level counts and the levels in use agree,
/// and every query reports the same keys; when the tile changes, the two fields are equal.
pub proof fn lemma_reposition_as_cease_then_emit<S>(
    field: SignalField<S>,
    key: u64,
    tile: TileKey,
    body: S,
)
    requires
        field.wf(),
        field@.exact(),
        field@.records.contains_key(key),
    ensures
        ({
            let st = field@;
            let r = st.records[key];
            let moved = SignalRecord {
                tile,
                emit_mask: r.emit_mask,
                sense_mask: r.sense_mask,
                body,
            };
            let a = spec_reposition(st, key, tile, body);
            let b = spec_emit(spec_cease(st, key), moved, key);
            &&& a.records == b.records
            &&& a.counts == b.counts
            &&& a.active == b.active
            &&& r.tile != tile ==> a == b
            &&& forall|rs: Seq<TileRange>, query: u64, k: u64|
                #[trigger] ranges_hits(a, rs, query).contains(k) <==> ranges_hits(
                    b,
                    rs,
                    query,
                ).contains(k)
        }),
{
    let st = field@;
    lemma_wf_signals_filed(field);
    let r = st.records[key];
    let moved = SignalRecord { tile, emit_mask: r.emit_mask, sense_mask: r.sense_mask, body };
    let a = spec_reposition(st, key, tile, body);
    let b = spec_emit(spec_cease(st, key), moved, key);
    if r.tile != tile {
        lemma_reposition_moves_as_cease_then_emit(st, key, tile, body);
    } else {
        let id = tile.id();
        let l = tile.level as int;
        lemma_exact_entry_index(st, key);
        let bk = st.cells[id];
        let i = key_index(bk, key);
        let b2 = swap_removed(bk, i);
        lemma_stored_level_active(field, key);
        assert(st.counts[l] > 0);
        let c = spec_cease(st, key);
        assert(bucket_of(c.cells, id) =~= b2);
        assert(bucket_of(b.cells, id) == b2.push(bk[i]));
        assert(a.records =~= b.records);
        assert(a.counts =~= b.counts);
        lemma_level_bit_restored(st.active, tile.level as u64);
        assert forall|rs: Seq<TileRange>, query: u64, k: u64|
            #[trigger] ranges_hits(a, rs, query).contains(k) <==> ranges_hits(b, rs, query).contains(
                k,
            ) by {
            assert forall|id2: u128, k2: u64|
                #![trigger bucket_meets(bucket_of(a.cells, id2), k2, query)]
                #![trigger bucket_meets(bucket_of(b.cells, id2), k2, query)]
                a.records.contains_key(k2) implies (bucket_meets(bucket_of(a.cells, id2), k2, query)
                <==> bucket_meets(bucket_of(b.cells, id2), k2, query)) by {
                if id2 == id {
                    lemma_swap_push_meets(bk, i, k2, query);
                } else {
                    assert(bucket_of(b.cells, id2) == bucket_of(a.cells, id2));
                }
            }
            lemma_same_reports(a, b, rs, query);
        }
    }
}

// ---------------------------------------------------------------------------
// What each operation does to the stored signals and the levels

/// `emit(signal, key)` stores `signal` under `key` and leaves the other signals; it
/// appends `(key, emit mask)` to the bucket of the signal's tile, leaves every other
/// bucket, counts one more entry at the signal's level, and marks that level in use
/// without touching the other levels.
pub proof fn lemma_emit_stores_signal<S>(st: FieldState<S>, signal: SignalRecord<S>, key: u64)
    requires
        signal.tile.level < LEVEL_COUNT,
        st.counts.len() == LEVEL_COUNT,
        st.counts[signal.tile.level as int] < u32::MAX,
    ensures
        ({
            let a = spec_emit(st, signal, key);
            let l = signal.tile.level as int;
            &&& a.records.contains_key(key) && a.records[key] == signal
            &&& a.records.dom() == st.records.dom().insert(key)
            &&& forall|k: u64| k != key && st.records.contains_key(k) ==> #[trigger] a.records[k] == st.records[k]
            &&& bucket_of(a.cells, signal.tile.id()) == bucket_of(st.cells, signal.tile.id()).push(
                (key, signal.emit_mask.bits),
            )
            &&& forall|id: u128| id != signal.tile.id() ==> #[trigger] bucket_of(a.cells, id) == bucket_of(st.cells, id)
            &&& a.counts.len() == LEVEL_COUNT
            &&& a.counts[l] == st.counts[l] + 1
            &&& forall|m: int| 0 <= m < LEVEL_COUNT && m != l ==> #[trigger] a.counts[m] == st.counts[m]
            &&& bit_set(a.active, l)
            &&& forall|m: int| 0 <= m < LEVEL_COUNT && m != l ==> #[trigger] bit_set(a.active, m) == bit_set(st.active, m)
        }),
{
    let a = spec_emit(st, signal, key);
    let l = signal.tile.level as int;
    assert(a.records.dom() =~= st.records.dom().insert(key));
    assert forall|m: int| 0 <= m < LEVEL_COUNT implies #[trigger] bit_set(a.active, m) == (m == l || bit_set(st.active, m)) by {
        lemma_bit_insert(st.active, signal.tile.level as u64, m as u64);
    }
}

/// `cease(key)` removes the signal under `key` and leaves every other signal; ceasing a
/// key that is not stored changes nothing.
pub proof fn lemma_cease_removes_signal<S>(st: FieldState<S>, key: u64)
    ensures
        ({
            let a = spec_cease(st, key);
            &&& !a.records.contains_key(key)
            &&& a.records.dom() == st.records.dom().remove(key)
            &&& forall|k: u64| k != key && st.records.contains_key(k) ==> #[trigger] a.records[k] == st.records[k]
            &&& !st.records.contains_key(key) ==> a == st
        }),
{
    let a = spec_cease(st, key);
    assert(a.records.dom() =~= st.records.dom().remove(key));
}

/// `reshape(key, body)` replaces only the body of the signal under `key`: its tile, emit
/// mask and sense mask stay, every other signal stays, and the grid, the level counts and
/// the levels in use are untouched.
pub proof fn lemma_reshape_changes_only_body<S>(st: FieldState<S>, key: u64, body: S)
    ensures
        ({
            let a = spec_reshape(st, key, body);
            &&& a.records.dom() == st.records.dom()
            &&& forall|k: u64| k != key && st.records.contains_key(k) ==> #[trigger] a.records[k] == st.records[k]
            &&& st.records.contains_key(key) ==> {
                &&& a.records[key].tile == st.records[key].tile
                &&& a.records[key].emit_mask == st.records[key].emit_mask
                &&& a.records[key].sense_mask == st.records[key].sense_mask
                &&& a.records[key].body == body
            }
            &&& a.cells == st.cells
            &&& a.counts == st.counts
            &&& a.active == st.active
        }),
{
    let a = spec_reshape(st, key, body);
    assert(a.records.dom() =~= st.records.dom());
}

/// `reposition(key, tile, body)` moves the signal under `key` to `tile` with the body
/// `body`, keeping its emit and sense masks, and leaves every other signal; within the same
/// tile the grid, the level counts and the levels in use are untouched; a key that is not
/// stored changes nothing.
pub proof fn lemma_reposition_moves_signal<S>(st: FieldState<S>, key: u64, tile: TileKey, body: S)
    ensures
        ({
            let a = spec_reposition(st, key, tile, body);
            &&& a.records.dom() == st.records.dom()
            &&& forall|k: u64| k != key && st.records.contains_key(k) ==> #[trigger] a.records[k] == st.records[k]
            &&& st.records.contains_key(key) ==> {
                &&& a.records[key].tile == tile
                &&& a.records[key].emit_mask == st.records[key].emit_mask
                &&& a.records[key].sense_mask == st.records[key].sense_mask
                &&& a.records[key].body == body
            }
            &&& st.records.contains_key(key) && st.records[key].tile == tile ==> a.cells == st.cells
                && a.counts == st.counts && a.active == st.active
            &&& !st.records.contains_key(key) ==> a == st
        }),
{
    let a = spec_reposition(st, key, tile, body);
    assert(a.records.dom() =~= st.records.dom());
}

} // verus!
