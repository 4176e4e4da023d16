use wavefield::mask::{Bit, Mask};
use wavefield::occlusion::arc_mask;
use wavefield::tile::tile_id_of;

#[test]
fn mask_set_and_get() {
    let mut m = Mask::zero();
    assert!(!m.any());
    m.set(3, true);
    m.set(63, true);
    assert!(m.get(3));
    assert!(m.get(63));
    assert!(!m.get(4));
    assert_eq!(m.bits, (1u64 << 3) | (1u64 << 63));
    m.set(3, false);
    assert!(!m.get(3));
    assert_eq!(m.bits, 1u64 << 63);
}

#[test]
fn mask_combinators() {
    let a = Mask::from_bits(0b1100);
    let b = Mask::from_bits(0b1010);
    assert_eq!(a.and(&b).bits, 0b1000);
    assert_eq!(a.or(&b).bits, 0b1110);
    assert_eq!(a.not().bits, !0b1100u64);
    assert!(Mask::full().all());
    assert!(!a.all());
    assert!(a.any());
}

#[test]
fn mask_ones_in_order() {
    let m = Mask::from_bits((1u64 << 0) | (1u64 << 5) | (1u64 << 40));
    assert_eq!(m.ones(), vec![0, 5, 40]);
    assert_eq!(Mask::zero().ones(), Vec::<usize>::new());
    assert_eq!(Mask::full().ones().len(), 64);
}

#[test]
fn mask_from_tags() {
    let m = Mask::with_tags(&[Bit::BoundingVolume, Bit::Collider, Bit::Player]);
    assert_eq!(m.bits, 0b10101);
    assert_eq!(Mask::with_tags(&[]).bits, 0);
    assert_eq!(Mask::with_tags(&[Bit::Audio, Bit::Audio]).bits, 0b1000);
}

#[test]
fn bit_positions() {
    assert_eq!(Bit::BoundingVolume.index(), 0);
    assert_eq!(Bit::Occlude.index(), 1);
    assert_eq!(Bit::Collider.index(), 2);
    assert_eq!(Bit::Audio.index(), 3);
    assert_eq!(Bit::Player.index(), 4);
}

#[test]
fn tile_ids_separate_levels_and_signs() {
    let a = tile_id_of(0, -1, 0);
    let b = tile_id_of(0, 0, -1);
    let c = tile_id_of(1, -1, 0);
    let d = tile_id_of(0, -1, 0);
    assert_ne!(a, b);
    assert_ne!(a, c);
    assert_eq!(a, d);
    assert_eq!(tile_id_of(2, 0, 0) >> 64, 2);
    assert_eq!(tile_id_of(0, 1, 2), (1u128 << 32) + 2);
    assert_eq!(tile_id_of(0, -1, -1), (0xffff_ffffu128 << 32) + 0xffff_ffff);
}

#[test]
fn arc_mask_clamps_span() {
    assert_eq!(arc_mask(2, 4).bits, 0b11100);
    assert_eq!(arc_mask(-5, 1).bits, 0b11);
    assert_eq!(arc_mask(62, 100).bits, (1u64 << 62) | (1u64 << 63));
    assert_eq!(arc_mask(5, 4).bits, 0);
    assert_eq!(arc_mask(-10, -1).bits, 0);
    assert_eq!(arc_mask(i32::MIN, i32::MAX).bits, u64::MAX);
}
