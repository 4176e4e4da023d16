use wavefield::field::{SignalField, SignalRecord};
use wavefield::mask::Mask;
use wavefield::tile::{TileKey, TileRange};

fn record(level: u8, x: i32, y: i32, emit: u64, sense: u64, body: u32) -> SignalRecord<u32> {
    SignalRecord {
        tile: TileKey { level, x, y },
        emit_mask: Mask::from_bits(emit),
        sense_mask: Mask::from_bits(sense),
        body,
    }
}

fn range(level: u8, min_x: i32, max_x: i32, min_y: i32, max_y: i32) -> TileRange {
    TileRange { level, min_x, max_x, min_y, max_y }
}

#[test]
fn new_field_is_empty() {
    let f: SignalField<u32> = SignalField::new();
    assert_eq!(f.get_level_mask().bits, 0);
    assert!(f.get(1).is_none());
    assert!(f.scan_range(&vec![range(0, -5, 5, -5, 5)], Mask::full()).is_empty());
}

#[test]
fn emit_then_scan_finds_signal() {
    let mut f = SignalField::new();
    f.emit(record(3, 2, -4, 0b1, 0b1, 7), 42);
    assert_eq!(f.get(42).unwrap().body, 7);
    assert_eq!(f.get_level_mask().bits, 1 << 3);
    // covering range at the right level
    assert_eq!(f.scan_range(&vec![range(3, 1, 3, -5, -3)], Mask::from_bits(0b1)), vec![42]);
    // the right tile but a query mask that misses the emit mask
    assert!(f.scan_range(&vec![range(3, 1, 3, -5, -3)], Mask::from_bits(0b10)).is_empty());
    // a range whose upper bound excludes the tile
    assert!(f.scan_range(&vec![range(3, 1, 2, -5, -3)], Mask::from_bits(0b1)).is_empty());
    // the right coordinates at another level
    assert!(f.scan_range(&vec![range(2, 1, 3, -5, -3)], Mask::from_bits(0b1)).is_empty());
}

#[test]
fn scan_order_follows_ranges_columns_and_buckets() {
    let mut f = SignalField::new();
    f.emit(record(0, 1, 0, 1, 1, 0), 10);
    f.emit(record(0, 0, 1, 1, 1, 0), 11);
    f.emit(record(0, 0, 0, 1, 1, 0), 12);
    f.emit(record(0, 0, 0, 1, 1, 0), 13);
    f.emit(record(1, 0, 0, 1, 1, 0), 14);
    let hits = f.scan_range(
        &vec![range(1, 0, 1, 0, 1), range(0, 0, 2, 0, 2)],
        Mask::from_bits(1),
    );
    // level 1 first; then x = 0 (y = 0, then y = 1), then x = 1
    assert_eq!(hits, vec![14, 12, 13, 11, 10]);
    // an empty range reports nothing
    assert!(f.scan_range(&vec![range(0, 2, 0, 0, 2)], Mask::from_bits(1)).is_empty());
}

#[test]
fn cease_removes_signal_and_clears_level() {
    let mut f = SignalField::new();
    f.emit(record(5, 0, 0, 1, 1, 1), 1);
    f.emit(record(6, 0, 0, 1, 1, 2), 2);
    assert_eq!(f.get_level_mask().bits, (1 << 5) | (1 << 6));
    f.cease(1);
    assert!(f.get(1).is_none());
    assert_eq!(f.get_level_mask().bits, 1 << 6);
    assert!(f.scan_range(&vec![range(5, -1, 1, -1, 1)], Mask::full()).is_empty());
    // ceasing an absent key changes nothing
    f.cease(99);
    assert_eq!(f.get_level_mask().bits, 1 << 6);
    assert_eq!(f.get(2).unwrap().body, 2);
}

#[test]
fn cease_after_emit_restores_field() {
    let mut f = SignalField::new();
    f.emit(record(2, 0, 0, 1, 1, 1), 1);
    f.emit(record(2, 0, 0, 1, 1, 2), 2);
    let before = f.scan_range(&vec![range(2, -1, 2, -1, 2)], Mask::full());
    f.emit(record(2, 1, 1, 1, 1, 3), 3);
    f.cease(3);
    assert_eq!(f.scan_range(&vec![range(2, -1, 2, -1, 2)], Mask::full()), before);
    assert_eq!(f.get_level_mask().bits, 1 << 2);
    assert!(f.get(3).is_none());
}

#[test]
fn cease_swaps_last_entry_into_gap() {
    let mut f = SignalField::new();
    f.emit(record(0, 0, 0, 1, 1, 0), 1);
    f.emit(record(0, 0, 0, 1, 1, 0), 2);
    f.emit(record(0, 0, 0, 1, 1, 0), 3);
    f.cease(1);
    assert_eq!(f.scan_range(&vec![range(0, 0, 1, 0, 1)], Mask::full()), vec![3, 2]);
}

#[test]
fn reposition_within_tile_keeps_grid() {
    let mut f = SignalField::new();
    f.emit(record(1, 0, 0, 1, 1, 5), 7);
    f.reposition(7, TileKey { level: 1, x: 0, y: 0 }, 6);
    assert_eq!(f.get(7).unwrap().body, 6);
    assert_eq!(f.scan_range(&vec![range(1, 0, 1, 0, 1)], Mask::full()), vec![7]);
}

#[test]
fn reposition_moves_signal_between_tiles_and_levels() {
    let mut f = SignalField::new();
    f.emit(record(1, 0, 0, 1, 2, 5), 7);
    f.reposition(7, TileKey { level: 4, x: -3, y: 9 }, 8);
    let r = f.get(7).unwrap();
    assert_eq!(r.body, 8);
    assert_eq!(r.tile, TileKey { level: 4, x: -3, y: 9 });
    assert_eq!(r.emit_mask.bits, 1);
    assert_eq!(r.sense_mask.bits, 2);
    assert_eq!(f.get_level_mask().bits, 1 << 4);
    assert!(f.scan_range(&vec![range(1, 0, 1, 0, 1)], Mask::full()).is_empty());
    assert_eq!(f.scan_range(&vec![range(4, -3, -2, 9, 10)], Mask::full()), vec![7]);
    // an absent key is ignored
    f.reposition(8, TileKey { level: 0, x: 0, y: 0 }, 1);
    assert!(f.get(8).is_none());
    assert_eq!(f.get_level_mask().bits, 1 << 4);
}

#[test]
fn reshape_changes_only_the_body() {
    let mut f = SignalField::new();
    f.emit(record(2, 1, 1, 1, 1, 5), 3);
    f.reshape(3, 9);
    assert_eq!(f.get(3).unwrap().body, 9);
    assert_eq!(f.get(3).unwrap().tile, TileKey { level: 2, x: 1, y: 1 });
    assert_eq!(f.scan_range(&vec![range(2, 1, 2, 1, 2)], Mask::full()), vec![3]);
    f.reshape(4, 1);
    assert!(f.get(4).is_none());
}

#[test]
fn scan_uses_sense_mask_of_scanner() {
    let mut f = SignalField::new();
    f.emit(record(0, 0, 0, 0b01, 0b10, 0), 1);
    f.emit(record(0, 0, 0, 0b10, 0b01, 0), 2);
    let ranges = vec![range(0, 0, 1, 0, 1)];
    assert_eq!(f.scan(1, &ranges), vec![2]);
    assert_eq!(f.scan(2, &ranges), vec![1]);
}

#[test]
fn emit_twice_leaves_stale_entry() {
    let mut f = SignalField::new();
    f.emit(record(0, 0, 0, 1, 1, 1), 5);
    f.emit(record(0, 3, 3, 1, 1, 2), 5);
    assert_eq!(f.get(5).unwrap().body, 2);
    // the first entry stays filed under the old tile
    assert_eq!(f.scan_range(&vec![range(0, 0, 1, 0, 1)], Mask::full()), vec![5]);
    f.cease(5);
    // the stale entry is no longer reported: its key is not stored
    assert!(f.scan_range(&vec![range(0, 0, 1, 0, 1)], Mask::full()).is_empty());
    assert_eq!(f.get_level_mask().bits, 1);
}

fn sorted(mut v: Vec<u64>) -> Vec<u64> {
    v.sort();
    v
}

fn all_levels(f: &SignalField<u32>, half: i32) -> Vec<TileRange> {
    f.get_level_mask()
        .ones()
        .into_iter()
        .map(|l| range(l as u8, -half, half, -half, half))
        .collect()
}

#[test]
fn fresh_keys_are_reported_once() {
    let mut f = SignalField::new();
    f.emit(record(0, 0, 0, 1, 1, 0), 1);
    f.emit(record(0, 1, 0, 1, 1, 0), 2);
    f.emit(record(2, -1, 1, 1, 1, 0), 3);
    f.reposition(2, TileKey { level: 2, x: 0, y: 0 }, 0);
    f.reposition(1, TileKey { level: 0, x: 0, y: 0 }, 5);
    f.cease(3);
    f.emit(record(3, 0, 0, 1, 1, 0), 4);
    let hits = f.scan_range(&all_levels(&f, 4), Mask::full());
    assert_eq!(sorted(hits), vec![1, 2, 4]);
}

#[test]
fn levels_in_use_are_the_stored_levels() {
    let mut f = SignalField::new();
    f.emit(record(1, 0, 0, 1, 1, 0), 1);
    f.emit(record(1, 5, 5, 1, 1, 0), 2);
    f.emit(record(7, 0, 0, 1, 1, 0), 3);
    assert_eq!(f.get_level_mask().bits, (1 << 1) | (1 << 7));
    f.reposition(3, TileKey { level: 9, x: 0, y: 0 }, 0);
    assert_eq!(f.get_level_mask().bits, (1 << 1) | (1 << 9));
    f.cease(1);
    assert_eq!(f.get_level_mask().bits, (1 << 1) | (1 << 9));
    f.cease(2);
    assert_eq!(f.get_level_mask().bits, 1 << 9);
    f.reshape(3, 4);
    assert_eq!(f.get_level_mask().bits, 1 << 9);
}

#[test]
fn emit_then_cease_restores_reports_despite_stale_entry() {
    let mut f = SignalField::new();
    f.emit(record(0, 0, 0, 1, 1, 0), 1);
    f.emit(record(0, 0, 0, 1, 1, 0), 5);
    f.emit(record(0, 2, 2, 1, 1, 0), 5);
    f.cease(5); // the entry under tile (0, 0) stays behind
    let ranges = vec![range(0, -1, 3, -1, 3)];
    let before = sorted(f.scan_range(&ranges, Mask::full()));
    let mask_before = f.get_level_mask().bits;
    f.emit(record(0, 0, 0, 2, 2, 9), 5);
    f.cease(5);
    assert_eq!(sorted(f.scan_range(&ranges, Mask::full())), before);
    assert_eq!(f.get_level_mask().bits, mask_before);
    assert!(f.get(5).is_none());
    assert_eq!(before, vec![1]);
}

#[test]
fn reposition_matches_cease_then_emit() {
    for target in [TileKey { level: 0, x: 0, y: 0 }, TileKey { level: 3, x: -2, y: 1 }] {
        let mut a = SignalField::new();
        let mut b = SignalField::new();
        for f in [&mut a, &mut b] {
            f.emit(record(0, 0, 0, 1, 2, 0), 1);
            f.emit(record(0, 0, 0, 1, 2, 0), 2);
            f.emit(record(0, 0, 0, 1, 2, 0), 3);
        }
        a.reposition(1, target, 7);
        b.cease(1);
        b.emit(
            SignalRecord { tile: target, emit_mask: Mask::from_bits(1), sense_mask: Mask::from_bits(2), body: 7 },
            1,
        );
        assert_eq!(a.get_level_mask().bits, b.get_level_mask().bits);
        assert_eq!(a.get(1).unwrap().tile, b.get(1).unwrap().tile);
        assert_eq!(a.get(1).unwrap().body, b.get(1).unwrap().body);
        let ra = all_levels(&a, 4);
        assert_eq!(sorted(a.scan_range(&ra, Mask::full())), sorted(b.scan_range(&ra, Mask::full())));
    }
}
