use wavefield::chase::{act, perceive, Motion, SourcePick};
use wavefield::components::SeekerState;
use wavefield::control::{receive_frame, stale_sources, ProducerCommand, ProducerControl, TickAction};
use wavefield::field::{SignalField, SignalRecord};
use wavefield::mask::Mask;
use wavefield::occlusion::{resolve_occlusion, OcclusionTarget};
use wavefield::tile::TileKey;

fn target(key: u64, emit: u64, projection: u64) -> OcclusionTarget {
    OcclusionTarget { key, emit_mask: Mask::from_bits(emit), projection: Mask::from_bits(projection) }
}

#[test]
fn occluder_hides_what_is_behind() {
    // bit 0: visible tag, bit 1: occluder tag
    let targets = vec![
        target(1, 0b11, 0b0000_1111),
        target(2, 0b01, 0b0011_1100),
        target(3, 0b01, 0b0000_0011),
    ];
    let seen = resolve_occlusion(Mask::from_bits(0b01), Mask::from_bits(0b10), &targets);
    let seen: Vec<(u64, u64)> = seen.into_iter().map(|(k, m)| (k, m.bits)).collect();
    assert_eq!(seen, vec![(1, 0b0000_1111), (2, 0b0011_0000)]);
}

#[test]
fn unsensed_targets_still_occlude() {
    let targets = vec![target(1, 0b10, 0b0110), target(2, 0b01, 0b1111)];
    let seen = resolve_occlusion(Mask::from_bits(0b01), Mask::from_bits(0b10), &targets);
    let seen: Vec<(u64, u64)> = seen.into_iter().map(|(k, m)| (k, m.bits)).collect();
    assert_eq!(seen, vec![(2, 0b1001)]);
}

#[test]
fn full_shadow_stops_the_scan() {
    let targets = vec![target(1, 0b11, u64::MAX), target(2, 0b01, 0b1)];
    let seen = resolve_occlusion(Mask::from_bits(0b01), Mask::from_bits(0b10), &targets);
    let seen: Vec<(u64, u64)> = seen.into_iter().map(|(k, m)| (k, m.bits)).collect();
    assert_eq!(seen, vec![(1, u64::MAX)]);
}

#[test]
fn field_scan_occluded_uses_viewer_sense() {
    let mut f = SignalField::new();
    f.emit(
        SignalRecord {
            tile: TileKey { level: 0, x: 0, y: 0 },
            emit_mask: Mask::from_bits(0b1),
            sense_mask: Mask::from_bits(0b100),
            body: (),
        },
        9,
    );
    let targets = vec![target(1, 0b100, 0b1), target(2, 0b001, 0b10)];
    let seen = f.scan_occluded(9, Mask::zero(), &targets);
    assert_eq!(seen.len(), 1);
    assert_eq!(seen[0].0, 1);
    assert_eq!(seen[0].1.bits, 0b1);
}

fn player() -> Mask {
    Mask::from_bits(1 << 4)
}

fn audio() -> Mask {
    Mask::from_bits(1 << 3)
}

#[test]
fn seeing_the_player_starts_a_chase() {
    let p = perceive(SeekerState::Idle, None, &vec![Mask::from_bits(1), player(), player()], &vec![]);
    assert_eq!(p.state, SeekerState::Chasing);
    assert_eq!(p.source, SourcePick::Sighted(1));
    assert!(p.player_found);
    assert_eq!(act(p.state, p.player_found, false), (SeekerState::Chasing, Motion::Pursue, false));
}

#[test]
fn first_sound_alerts_then_second_source_is_sought() {
    let p = perceive(SeekerState::Idle, None, &vec![], &vec![(5, Mask::from_bits(1)), (7, audio())]);
    assert_eq!(p.state, SeekerState::Alert);
    assert_eq!(p.target, Some(7));
    assert_eq!(p.source, SourcePick::Heard(1));
    assert!(!p.player_found);
    assert_eq!(act(p.state, false, false), (SeekerState::Alert, Motion::Turn, false));
    let q = perceive(p.state, p.target, &vec![], &vec![(8, audio())]);
    assert_eq!(q.state, SeekerState::Seeking);
    assert_eq!(q.target, Some(8));
    assert_eq!(act(q.state, false, true), (SeekerState::Idle, Motion::Pursue, false));
    assert_eq!(act(q.state, false, false), (SeekerState::Seeking, Motion::Pursue, false));
}

#[test]
fn lost_player_ends_the_chase() {
    let p = perceive(SeekerState::Chasing, None, &vec![Mask::zero()], &vec![]);
    assert_eq!(p.state, SeekerState::Chasing);
    assert_eq!(p.source, SourcePick::Keep);
    assert_eq!(act(p.state, p.player_found, false), (SeekerState::Idle, Motion::Pursue, false));
    assert_eq!(act(SeekerState::Idle, false, false), (SeekerState::Idle, Motion::Stop, true));
}

#[test]
fn producer_steps_once_while_paused() {
    let mut c = ProducerControl::new();
    assert_eq!(c.next_tick(), TickAction::Tick);
    c.handle(ProducerCommand::PAUSE);
    assert_eq!(c.next_tick(), TickAction::Wait);
    c.handle(ProducerCommand::STEP);
    assert_eq!(c.next_tick(), TickAction::TickOnce);
    assert_eq!(c.next_tick(), TickAction::Wait);
    c.handle(ProducerCommand::PLAY);
    assert_eq!(c.next_tick(), TickAction::Tick);
    assert_eq!(c.next_tick(), TickAction::Tick);
}

#[test]
fn newest_frame_is_kept_and_others_handed_back() {
    let mut current = Some(0);
    let (skipped, recycled) = receive_frame(vec![1, 2, 3], &mut current);
    assert_eq!(skipped, vec![1, 2]);
    assert_eq!(recycled, Some(0));
    assert_eq!(current, Some(3));
    let (skipped, recycled) = receive_frame(Vec::<i32>::new(), &mut current);
    assert!(skipped.is_empty());
    assert_eq!(recycled, None);
    assert_eq!(current, Some(3));
    let mut none: Option<i32> = None;
    let (skipped, recycled) = receive_frame(vec![4], &mut none);
    assert!(skipped.is_empty());
    assert_eq!(recycled, None);
    assert_eq!(none, Some(4));
}

#[test]
fn out_of_range_sources_are_found() {
    assert_eq!(stale_sources(&vec![1, 2, 3, 4], &vec![4, 2]), vec![1, 3]);
    assert!(stale_sources(&vec![], &vec![1]).is_empty());
    assert_eq!(stale_sources(&vec![5, 5], &vec![]), vec![5, 5]);
}
