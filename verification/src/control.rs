//! Decisions of the producer thread and of the presenter: when the engine ticks, and
//! which frame buffer is shown, kept or handed back.

use vstd::prelude::*;

verus! {

/// Commands for the producer thread.
#[derive(Clone, Copy, PartialEq, Eq, Structural, Debug)]
pub enum ProducerCommand {
    PLAY,
    PAUSE,
    STEP,
}

/// What the producer does with the engine in one turn of its loop.
#[derive(Clone, Copy, PartialEq, Eq, Structural, Debug)]
pub enum TickAction {
    /// Advance by the elapsed time (fixed steps).
    Tick,
    /// Advance by exactly one step.
    TickOnce,
    /// Leave the simulation as it is.
    Wait,
}

/// The producer's play state.
#[derive(Clone, Copy, PartialEq, Eq, Structural, Debug)]
pub struct ProducerControl {
    pub to_tick: bool,
    pub single_step: bool,
}

pub open spec fn spec_handle(c: ProducerControl, command: ProducerCommand) -> ProducerControl {
    match command {
        ProducerCommand::PLAY => ProducerControl { to_tick: true, single_step: c.single_step },
        ProducerCommand::PAUSE => ProducerControl { to_tick: false, single_step: c.single_step },
        ProducerCommand::STEP => ProducerControl { to_tick: c.to_tick, single_step: true },
    }
}

/// The action of a turn and the play state after it: playing ticks; paused with a
/// step pending ticks once and clears the step; otherwise the turn waits.
pub open spec fn spec_next_tick(c: ProducerControl) -> (TickAction, ProducerControl) {
    if c.to_tick {
        (TickAction::Tick, c)
    } else if c.single_step {
        (TickAction::TickOnce, ProducerControl { to_tick: false, single_step: false })
    } else {
        (TickAction::Wait, c)
    }
}

impl ProducerControl {
    /// A producer starts playing, with no step pending.
    pub fn new() -> (c: ProducerControl)
        ensures
            c.to_tick,
            !c.single_step,
    {
        ProducerControl { to_tick: true, single_step: false }
    }

    /// Applies a command: PLAY resumes, PAUSE pauses, STEP asks for one step.
    pub fn handle(&mut self, command: ProducerCommand)
        ensures
            *final(self) == spec_handle(*old(self), command),
    {
        match command {
            ProducerCommand::PLAY => {
                self.to_tick = true;
            },
            ProducerCommand::PAUSE => {
                self.to_tick = false;
            },
            ProducerCommand::STEP => {
                self.single_step = true;
            },
        }
    }

    /// Decides what this turn of the producer loop does with the engine.
    pub fn next_tick(&mut self) -> (a: TickAction)
        ensures
            (a, *final(self)) == spec_next_tick(*old(self)),
    {
        if self.to_tick {
            TickAction::Tick
        } else if self.single_step {
            self.single_step = false;
            TickAction::TickOnce
        } else {
            TickAction::Wait
        }
    }
}

/// A step asked for while paused advances the engine by exactly one step, and the
/// turn after it waits.
pub proof fn lemma_step_while_paused(c: ProducerControl)
    requires
        !c.to_tick,
    ensures
        ({
            let (a1, c1) = spec_next_tick(spec_handle(c, ProducerCommand::STEP));
            let (a2, c2) = spec_next_tick(c1);
            a1 == TickAction::TickOnce && a2 == TickAction::Wait
        }),
{
}

/// While paused with no step pending, the engine never advances; once playing, every
/// turn ticks.
pub proof fn lemma_pause_and_play(c: ProducerControl)
    ensures
        spec_next_tick(spec_handle(ProducerControl { to_tick: c.to_tick, single_step: false }, ProducerCommand::PAUSE)).0
            == TickAction::Wait,
        spec_next_tick(spec_handle(c, ProducerCommand::PLAY)).0 == TickAction::Tick,
        spec_next_tick(spec_handle(c, ProducerCommand::PLAY)).1 == spec_handle(c, ProducerCommand::PLAY),
{
}

/// Takes the frames received since the last call (oldest first): the newest becomes the
/// current frame, and the older ones are returned to be handed back. Returns those
/// frames and the frame that was current before, to be recycled. With nothing
/// received, the current frame stays and nothing is returned.
pub fn receive_frame<F>(received: Vec<F>, current: &mut Option<F>) -> (r: (Vec<F>, Option<F>))
    ensures
        received@.len() == 0 ==> r.0@ == Seq::<F>::empty() && r.1 is None && *final(current)
            == *old(current),
        received@.len() > 0 ==> r.0@ == received@.drop_last() && r.1 == *old(current)
            && *final(current) == Some(received@.last()),
{
    let mut skipped = received;
    match skipped.pop() {
        None => (skipped, None),
        Some(newest) => {
            let recycled = current.take();
            *current = Some(newest);
            (skipped, recycled)
        },
    }
}

/// The entries of `last` that are not in `current`, in order: the sound sources that
/// went out of range.
pub fn stale_sources(last: &Vec<u64>, current: &Vec<u64>) -> (r: Vec<u64>)
    ensures
        r@ == last@.filter(|e: u64| !current@.contains(e)),
{
    let ghost keep = |e: u64| !current@.contains(e);
    let mut r: Vec<u64> = Vec::new();
    let mut i: usize = 0;
    while i < last.len()
        invariant
            i <= last.len(),
            keep == (|e: u64| !current@.contains(e)),
            r@ == last@.take(i as int).filter(keep),
        decreases last.len() - i,
    {
        let e = last[i];
        let mut found = false;
        let mut j: usize = 0;
        while j < current.len()
            invariant
                j <= current.len(),
                found == exists|k: int| 0 <= k < j && current@[k] == e,
            decreases current.len() - j,
        {
            if current[j] == e {
                found = true;
            }
            j = j + 1;
        }
        proof {
            reveal_with_fuel(Seq::filter, 1);
            assert(last@.take(i + 1).drop_last() =~= last@.take(i as int));
            assert(last@.take(i + 1).last() == e);
            assert(found == current@.contains(e));
        }
        if !found {
            r.push(e);
        }
        i = i + 1;
    }
    proof {
        assert(last@.take(last.len() as int) =~= last@);
    }
    r
}

/// The state after `n` turns with no command in between.
pub open spec fn after_turns(c: ProducerControl, n: nat) -> ProducerControl
    decreases n,
{
    if n == 0 {
        c
    } else {
        after_turns(spec_next_tick(c).1, (n - 1) as nat)
    }
}

/// A turn: it ticks exactly when playing, ticks once exactly when paused with a step
/// pending (and then clears the step), and otherwise waits; a turn that ticks or waits
/// leaves the play state as it was.
pub proof fn lemma_turn(c: ProducerControl)
    ensures
        (spec_next_tick(c).0 == TickAction::Tick) == c.to_tick,
        (spec_next_tick(c).0 == TickAction::TickOnce) == (!c.to_tick && c.single_step),
        (spec_next_tick(c).0 == TickAction::Wait) == (!c.to_tick && !c.single_step),
        spec_next_tick(c).0 != TickAction::TickOnce ==> spec_next_tick(c).1 == c,
        spec_next_tick(c).0 == TickAction::TickOnce ==> !spec_next_tick(c).1.single_step
            && spec_next_tick(c).1.to_tick == c.to_tick,
{
}

/// Paused with no step pending, the engine never advances: every later turn waits.
pub proof fn lemma_paused_stays_paused(c: ProducerControl, n: nat)
    requires
        !c.to_tick,
        !c.single_step,
    ensures
        after_turns(c, n) == c,
        spec_next_tick(after_turns(c, n)).0 == TickAction::Wait,
    decreases n,
{
    if n > 0 {
        lemma_paused_stays_paused(spec_next_tick(c).1, (n - 1) as nat);
    }
}

/// A command sets only its own flag: PLAY and PAUSE set whether the producer plays and
/// keep a pending step; STEP asks for a step and keeps whether it plays. Repeating a
/// command changes nothing more.
pub proof fn lemma_commands(c: ProducerControl, command: ProducerCommand)
    ensures
        command == ProducerCommand::PLAY ==> spec_handle(c, command).to_tick && spec_handle(
            c,
            command,
        ).single_step == c.single_step,
        command == ProducerCommand::PAUSE ==> !spec_handle(c, command).to_tick && spec_handle(
            c,
            command,
        ).single_step == c.single_step,
        command == ProducerCommand::STEP ==> spec_handle(c, command).single_step && spec_handle(
            c,
            command,
        ).to_tick == c.to_tick,
        spec_handle(spec_handle(c, command), command) == spec_handle(c, command),
{
}

/// Every entry the out-of-range scan returns was a source before and is not one now, and
/// every earlier source that is no longer one is returned.
pub proof fn lemma_stale_sources(last: Seq<u64>, current: Seq<u64>, r: Seq<u64>)
    requires
        r == last.filter(|e: u64| !current.contains(e)),
    ensures
        forall|i: int| 0 <= i < r.len() ==> last.contains(#[trigger] r[i]) && !current.contains(r[i]),
        forall|x: u64| last.contains(x) && !current.contains(x) ==> #[trigger] r.contains(x),
        r.len() <= last.len(),
{
    let keep = |e: u64| !current.contains(e);
    broadcast use vstd::seq_lib::group_filter_ensures;
    assert forall|x: u64| last.contains(x) && !current.contains(x) implies #[trigger] r.contains(x) by {
        let i = choose|i: int| 0 <= i < last.len() && last[i] == x;
        assert(keep(last[i]));
    }
    assert forall|i: int| 0 <= i < r.len() implies last.contains(#[trigger] r[i]) && !current.contains(r[i]) by {
        assert(keep(r[i]));
        assert(r.contains(r[i]));
        last.lemma_filter_contains_rev(keep, r[i]);
    }
}

} // verus!
