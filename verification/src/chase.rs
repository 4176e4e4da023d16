//! The decisions of a seeker: what it perceives in its scans and how it then moves.

use crate::components::SeekerState;
use crate::mask::{Bit, Mask};
use vstd::prelude::*;

verus! {

/// Where the seeker's target position comes from after perceiving.
#[derive(Clone, Copy, PartialEq, Eq, Structural, Debug)]
pub enum SourcePick {
    /// The target position is left as it was.
    Keep,
    /// The origin of the `i`-th signal of the vision scan.
    Sighted(usize),
    /// The origin of the `i`-th signal of the hearing scan.
    Heard(usize),
}

/// What a seeker makes of its scans.
#[derive(Clone, Copy, PartialEq, Eq, Structural, Debug)]
pub struct Perception {
    pub state: SeekerState,
    /// The signal the seeker follows (`None`: no target).
    pub target: Option<u64>,
    pub source: SourcePick,
    pub player_found: bool,
}

/// How the seeker moves in this step.
#[derive(Clone, Copy, PartialEq, Eq, Structural, Debug)]
pub enum Motion {
    /// No linear and no angular velocity.
    Stop,
    /// No linear velocity; turn toward the target position.
    Turn,
    /// Walk toward the target position, turning toward it.
    Pursue,
}

pub open spec fn is_player(m: Mask) -> bool {
    m.has(Bit::Player.spec_index())
}

pub open spec fn is_audio(m: Mask) -> bool {
    m.has(Bit::Audio.spec_index())
}

/// `i` is the first signal of the vision scan that is the player.
pub open spec fn first_player_at(vision: Seq<Mask>, i: int) -> bool {
    &&& 0 <= i < vision.len()
    &&& is_player(vision[i])
    &&& forall|j: int| 0 <= j < i ==> !is_player(#[trigger] vision[j])
}

/// The hearing scan, signal by signal: each audio signal makes the seeker alert when it
/// had no target and was not alert already, and otherwise makes it seek when the signal
/// is not its target; either way the signal becomes the target and its origin the
/// target position.
pub open spec fn hear(
    state: SeekerState,
    target: Option<u64>,
    source: SourcePick,
    heard: Seq<(u64, Mask)>,
) -> (SeekerState, Option<u64>, SourcePick)
    decreases heard.len(),
{
    if heard.len() == 0 {
        (state, target, source)
    } else {
        let (s, t, src) = hear(state, target, source, heard.drop_last());
        let (k, m) = heard.last();
        if is_audio(m) {
            let s2 = if t.is_none() && s != SeekerState::Alert {
                SeekerState::Alert
            } else if t != Some(k) {
                SeekerState::Seeking
            } else {
                s
            };
            (s2, Some(k), SourcePick::Heard((heard.len() - 1) as usize))
        } else {
            (s, t, src)
        }
    }
}

/// What the seeker perceives: the first player in its vision scan makes it chase the
/// player; with no player in sight, it listens to its hearing scan.
pub open spec fn spec_perceive(
    state: SeekerState,
    target: Option<u64>,
    vision: Seq<Mask>,
    heard: Seq<(u64, Mask)>,
) -> Perception {
    if exists|i: int| first_player_at(vision, i) {
        let i = choose|i: int| first_player_at(vision, i);
        Perception {
            state: SeekerState::Chasing,
            target,
            source: SourcePick::Sighted(i as usize),
            player_found: true,
        }
    } else {
        let (s, t, src) = hear(state, target, SourcePick::Keep, heard);
        Perception { state: s, target: t, source: src, player_found: false }
    }
}

/// The seeker's behaviour in state `state`: idle stops and drops its target; alert turns
/// toward the target position; seeking walks to it, going idle once near it (and
/// chasing when the player is found); chasing walks to it, going idle once the player
/// is out of sight. Returns the next state, the motion, and whether the target is dropped.
pub open spec fn spec_act(state: SeekerState, player_found: bool, near_source: bool) -> (
    SeekerState,
    Motion,
    bool,
) {
    match state {
        SeekerState::Idle => (SeekerState::Idle, Motion::Stop, true),
        SeekerState::Alert => (SeekerState::Alert, Motion::Turn, false),
        SeekerState::Seeking => {
            let s = if player_found {
                SeekerState::Chasing
            } else if near_source {
                SeekerState::Idle
            } else {
                SeekerState::Seeking
            };
            (s, Motion::Pursue, false)
        },
        SeekerState::Chasing => {
            let s = if player_found {
                SeekerState::Chasing
            } else {
                SeekerState::Idle
            };
            (s, Motion::Pursue, false)
        },
    }
}

/// Reads the seeker's scans: `vision` holds the emit masks of what its vision cone
/// reports, `heard` the keys and emit masks of what its body's scan reports, both in
/// scan order.
pub fn perceive(
    state: SeekerState,
    target: Option<u64>,
    vision: &Vec<Mask>,
    heard: &Vec<(u64, Mask)>,
) -> (p: Perception)
    ensures
        p == spec_perceive(state, target, vision@, heard@),
{
    let player = Bit::Player.index();
    let mut i: usize = 0;
    while i < vision.len()
        invariant
            i <= vision.len(),
            player == Bit::Player.spec_index(),
            forall|j: int| 0 <= j < i ==> !is_player(#[trigger] vision@[j]),
        decreases vision.len() - i,
    {
        if vision[i].get(player) {
            proof {
                assert(first_player_at(vision@, i as int));
                let c = choose|c: int| first_player_at(vision@, c);
                if c < i {
                    assert(!is_player(vision@[c]));
                } else if c > i {
                    assert(!is_player(vision@[i as int]));
                }
            }
            return Perception {
                state: SeekerState::Chasing,
                target,
                source: SourcePick::Sighted(i),
                player_found: true,
            };
        }
        i = i + 1;
    }
    proof {
        assert(!exists|c: int| first_player_at(vision@, c));
    }
    let audio = Bit::Audio.index();
    let mut s = state;
    let mut t = target;
    let mut src = SourcePick::Keep;
    let mut j: usize = 0;
    while j < heard.len()
        invariant
            j <= heard.len(),
            audio == Bit::Audio.spec_index(),
            (s, t, src) == hear(state, target, SourcePick::Keep, heard@.take(j as int)),
        decreases heard.len() - j,
    {
        let (k, m) = heard[j];
        proof {
            assert(heard@.take(j + 1).drop_last() =~= heard@.take(j as int));
            assert(heard@.take(j + 1).last() == heard@[j as int]);
        }
        if m.get(audio) {
            if t.is_none() && s != SeekerState::Alert {
                s = SeekerState::Alert;
            } else if t != Some(k) {
                s = SeekerState::Seeking;
            }
            t = Some(k);
            src = SourcePick::Heard(j);
        }
        j = j + 1;
    }
    proof {
        assert(heard@.take(heard.len() as int) =~= heard@);
    }
    Perception { state: s, target: t, source: src, player_found: false }
}

/// Decides the seeker's motion and next state once it has perceived; `near_source` says
/// whether it stands within reach of its target position.
pub fn act(state: SeekerState, player_found: bool, near_source: bool) -> (r: (
    SeekerState,
    Motion,
    bool,
))
    ensures
        r == spec_act(state, player_found, near_source),
{
    match state {
        SeekerState::Idle => (SeekerState::Idle, Motion::Stop, true),
        SeekerState::Alert => (SeekerState::Alert, Motion::Turn, false),
        SeekerState::Seeking => {
            let mut s = SeekerState::Seeking;
            if near_source {
                s = SeekerState::Idle;
            }
            if player_found {
                s = SeekerState::Chasing;
            }
            (s, Motion::Pursue, false)
        },
        SeekerState::Chasing => {
            let s = if player_found {
                SeekerState::Chasing
            } else {
                SeekerState::Idle
            };
            (s, Motion::Pursue, false)
        },
    }
}

// ---------------------------------------------------------------------------
// Laws

/// A seeker ends its step chasing exactly when its vision scan reports the player.
pub proof fn lemma_chases_iff_player_in_sight(
    state: SeekerState,
    target: Option<u64>,
    vision: Seq<Mask>,
    heard: Seq<(u64, Mask)>,
    near_source: bool,
)
    ensures
        ({
            let p = spec_perceive(state, target, vision, heard);
            spec_act(p.state, p.player_found, near_source).0 == SeekerState::Chasing
        }) <==> exists|i: int| 0 <= i < vision.len() && is_player(#[trigger] vision[i]),
{
    let p = spec_perceive(state, target, vision, heard);
    if exists|i: int| 0 <= i < vision.len() && is_player(#[trigger] vision[i]) {
        let i = choose|i: int| 0 <= i < vision.len() && is_player(#[trigger] vision[i]);
        lemma_first_player_exists(vision, i);
    } else {
        assert(!exists|c: int| first_player_at(vision, c));
        assert(!p.player_found);
    }
}

proof fn lemma_first_player_exists(vision: Seq<Mask>, i: int)
    requires
        0 <= i < vision.len(),
        is_player(vision[i]),
    ensures
        exists|c: int| first_player_at(vision, c),
    decreases i,
{
    if exists|j: int| 0 <= j < i && is_player(#[trigger] vision[j]) {
        let j = choose|j: int| 0 <= j < i && is_player(#[trigger] vision[j]);
        lemma_first_player_exists(vision, j);
    } else {
        assert(first_player_at(vision, i));
    }
}

/// A seeker that goes idle, or stays idle, drops its target and stands still.
pub proof fn lemma_idle_drops_target(player_found: bool, near_source: bool)
    ensures
        spec_act(SeekerState::Idle, player_found, near_source) == (
            SeekerState::Idle,
            Motion::Stop,
            true,
        ),
{
}

/// `i` is the last audio signal of the hearing scan.
pub open spec fn last_audio_at(heard: Seq<(u64, Mask)>, i: int) -> bool {
    &&& 0 <= i < heard.len()
    &&& is_audio(heard[i].1)
    &&& forall|j: int| i < j < heard.len() ==> !is_audio(#[trigger] heard[j].1)
}

proof fn lemma_hear_quiet(state: SeekerState, target: Option<u64>, source: SourcePick, heard: Seq<(u64, Mask)>)
    requires
        forall|j: int| 0 <= j < heard.len() ==> !is_audio(#[trigger] heard[j].1),
    ensures
        hear(state, target, source, heard) == (state, target, source),
    decreases heard.len(),
{
    if heard.len() > 0 {
        assert(heard[heard.len() - 1] == heard.last());
        lemma_hear_quiet(state, target, source, heard.drop_last());
    }
}

proof fn lemma_hear_same_source(state: SeekerState, k: u64, source: SourcePick, heard: Seq<(u64, Mask)>)
    requires
        forall|j: int| 0 <= j < heard.len() && is_audio(#[trigger] heard[j].1) ==> heard[j].0 == k,
    ensures
        hear(state, Some(k), source, heard).0 == state,
        hear(state, Some(k), source, heard).1 == Some(k),
    decreases heard.len(),
{
    if heard.len() > 0 {
        assert(heard[heard.len() - 1] == heard.last());
        lemma_hear_same_source(state, k, source, heard.drop_last());
    }
}

proof fn lemma_hear_last_audio(
    state: SeekerState,
    target: Option<u64>,
    source: SourcePick,
    heard: Seq<(u64, Mask)>,
    i: int,
)
    requires
        last_audio_at(heard, i),
    ensures
        hear(state, target, source, heard).1 == Some(heard[i].0),
        hear(state, target, source, heard).2 == SourcePick::Heard(i as usize),
    decreases heard.len(),
{
    if i < heard.len() - 1 {
        assert(heard[heard.len() - 1] == heard.last());
        assert(last_audio_at(heard.drop_last(), i)) by {
            assert forall|j: int| i < j < heard.drop_last().len() implies !is_audio(
                #[trigger] heard.drop_last()[j].1,
            ) by {
                assert(heard.drop_last()[j] == heard[j]);
            }
        }
        lemma_hear_last_audio(state, target, source, heard.drop_last(), i);
    } else {
        assert(heard[i] == heard.last());
    }
}

/// With no player in sight and no sound heard, perception changes nothing: same state,
/// same target, and the target position is kept.
pub proof fn lemma_nothing_perceived(
    state: SeekerState,
    target: Option<u64>,
    vision: Seq<Mask>,
    heard: Seq<(u64, Mask)>,
)
    requires
        forall|i: int| 0 <= i < vision.len() ==> !is_player(#[trigger] vision[i]),
        forall|j: int| 0 <= j < heard.len() ==> !is_audio(#[trigger] heard[j].1),
    ensures
        spec_perceive(state, target, vision, heard) == (Perception {
            state,
            target,
            source: SourcePick::Keep,
            player_found: false,
        }),
{
    assert(!exists|c: int| first_player_at(vision, c));
    lemma_hear_quiet(state, target, SourcePick::Keep, heard);
}

/// A seeker that hears sounds only from the source it already targets keeps its state:
/// seeking starts only for a sound from another source.
pub proof fn lemma_same_source_keeps_state(
    state: SeekerState,
    k: u64,
    vision: Seq<Mask>,
    heard: Seq<(u64, Mask)>,
)
    requires
        forall|i: int| 0 <= i < vision.len() ==> !is_player(#[trigger] vision[i]),
        forall|j: int| 0 <= j < heard.len() && is_audio(#[trigger] heard[j].1) ==> heard[j].0 == k,
    ensures
        spec_perceive(state, Some(k), vision, heard).state == state,
        spec_perceive(state, Some(k), vision, heard).target == Some(k),
        !spec_perceive(state, Some(k), vision, heard).player_found,
{
    assert(!exists|c: int| first_player_at(vision, c));
    lemma_hear_same_source(state, k, SourcePick::Keep, heard);
}

/// With no player in sight, the last sound heard becomes the target, and its origin the
/// target position.
pub proof fn lemma_last_sound_is_target(
    state: SeekerState,
    target: Option<u64>,
    vision: Seq<Mask>,
    heard: Seq<(u64, Mask)>,
    i: int,
)
    requires
        forall|v: int| 0 <= v < vision.len() ==> !is_player(#[trigger] vision[v]),
        last_audio_at(heard, i),
    ensures
        spec_perceive(state, target, vision, heard).target == Some(heard[i].0),
        spec_perceive(state, target, vision, heard).source == SourcePick::Heard(i as usize),
        !spec_perceive(state, target, vision, heard).player_found,
{
    assert(!exists|c: int| first_player_at(vision, c));
    lemma_hear_last_audio(state, target, SourcePick::Keep, heard, i);
}

/// A single sound: a seeker with no target that is not alert becomes alert; a seeker whose
/// target is another source starts seeking.
pub proof fn lemma_single_sound(state: SeekerState, target: Option<u64>, vision: Seq<Mask>, k: u64, m: Mask)
    requires
        forall|v: int| 0 <= v < vision.len() ==> !is_player(#[trigger] vision[v]),
        is_audio(m),
    ensures
        target is None && state != SeekerState::Alert ==> spec_perceive(state, target, vision, seq![(k, m)]).state
            == SeekerState::Alert,
        target is Some && target != Some(k) ==> spec_perceive(state, target, vision, seq![(k, m)]).state
            == SeekerState::Seeking,
{
    assert(!exists|c: int| first_player_at(vision, c));
    let h = seq![(k, m)];
    assert(h.drop_last() =~= Seq::<(u64, Mask)>::empty());
    assert(h.last() == (k, m));
    assert(hear(state, target, SourcePick::Keep, h.drop_last()) == (
        state,
        target,
        SourcePick::Keep,
    ));
}

/// Seeing the player: the seeker chases, keeps its target, and takes the position of the
/// first player signal in its vision scan.
pub proof fn lemma_player_seen(
    state: SeekerState,
    target: Option<u64>,
    vision: Seq<Mask>,
    heard: Seq<(u64, Mask)>,
    i: int,
)
    requires
        first_player_at(vision, i),
    ensures
        spec_perceive(state, target, vision, heard) == (Perception {
            state: SeekerState::Chasing,
            target,
            source: SourcePick::Sighted(i as usize),
            player_found: true,
        }),
{
    let c = choose|c: int| first_player_at(vision, c);
    if c < i {
        assert(!is_player(vision[c]));
    } else if c > i {
        assert(!is_player(vision[i]));
    }
}

/// How the seeker moves depends on its state alone: seeking and chasing always pursue,
/// alert turns in place, idle stands still; only idle drops the target.
pub proof fn lemma_motion_by_state(
    state: SeekerState,
    p1: bool,
    n1: bool,
    p2: bool,
    n2: bool,
)
    ensures
        spec_act(state, p1, n1).1 == spec_act(state, p2, n2).1,
        spec_act(state, p1, n1).2 == spec_act(state, p2, n2).2,
        (spec_act(state, p1, n1).1 == Motion::Pursue) == (state == SeekerState::Seeking || state
            == SeekerState::Chasing),
        (spec_act(state, p1, n1).1 == Motion::Stop) == (state == SeekerState::Idle),
        (spec_act(state, p1, n1).1 == Motion::Turn) == (state == SeekerState::Alert),
        spec_act(state, p1, n1).2 == (state == SeekerState::Idle),
{
}

/// The next state: idle and alert stay as they are; a pursuing seeker chases while the
/// player is in sight; without the player, a chase ends in idle, and seeking ends in idle
/// once near the target position and goes on otherwise.
pub proof fn lemma_next_state(state: SeekerState, player_found: bool, near_source: bool)
    ensures
        state == SeekerState::Idle || state == SeekerState::Alert ==> spec_act(
            state,
            player_found,
            near_source,
        ).0 == state,
        (state == SeekerState::Seeking || state == SeekerState::Chasing) && player_found ==> spec_act(
            state,
            player_found,
            near_source,
        ).0 == SeekerState::Chasing,
        state == SeekerState::Chasing && !player_found ==> spec_act(state, player_found, near_source).0
            == SeekerState::Idle,
        state == SeekerState::Seeking && !player_found ==> spec_act(state, player_found, near_source).0
            == (if near_source {
            SeekerState::Idle
        } else {
            SeekerState::Seeking
        }),
{
}

} // verus!
