//! Occlusion of a view arc: targets seen front to back, each casting its projection
//! onto the 64 sections of the viewer's arc.

use crate::mask::Mask;
use vstd::prelude::*;

verus! {

/// A target of an occluded scan: its key, the mask it emits, and the sections of
/// the viewer's arc that it covers.
#[derive(Clone, Copy)]
pub struct OcclusionTarget {
    pub key: u64,
    pub emit_mask: Mask,
    pub projection: Mask,
}

/// What an occluded scan reports of `ts` (seen in that order, closest first), given the
/// sections already in shadow: a target that the viewer senses is reported with the
/// sections of its projection not yet in shadow, if there are any; a target that emits
/// an occluding tag adds its projection to the shadow; once every section is in shadow
/// the scan stops.
pub open spec fn occlusion_run(
    sense: u64,
    occluders: u64,
    ts: Seq<OcclusionTarget>,
    shadow: u64,
) -> Seq<(u64, Mask)>
    decreases ts.len(),
{
    if ts.len() == 0 {
        Seq::empty()
    } else {
        let t = ts[0];
        let visible = t.projection.bits & !shadow;
        let out = if (sense & t.emit_mask.bits) != 0 && visible != 0 {
            seq![(t.key, Mask { bits: visible })]
        } else {
            Seq::empty()
        };
        let shadow2 = if (t.emit_mask.bits & occluders) != 0 {
            shadow | t.projection.bits
        } else {
            shadow
        };
        if shadow2 == u64::MAX {
            out
        } else {
            out + occlusion_run(sense, occluders, ts.drop_first(), shadow2)
        }
    }
}

/// Reports, front to back, the targets that a viewer with sense mask `sense` sees
/// past the targets of `targets` that emit a tag of `occluders`, each with its
/// visible sections.
pub fn resolve_occlusion(sense: Mask, occluders: Mask, targets: &Vec<OcclusionTarget>) -> (seen:
    Vec<(u64, Mask)>)
    ensures
        seen@ == occlusion_run(sense.bits, occluders.bits, targets@, 0),
{
    let mut seen: Vec<(u64, Mask)> = Vec::new();
    let mut shadow = Mask::zero();
    let mut done = false;
    let mut i: usize = 0;
    let n = targets.len();
    proof {
        assert(targets@.skip(0) =~= targets@);
        assert(seen@ + occlusion_run(sense.bits, occluders.bits, targets@, 0) =~= occlusion_run(
            sense.bits,
            occluders.bits,
            targets@,
            0,
        ));
    }
    while i < n && !done
        invariant
            n == targets.len(),
            i <= n,
            seen@ + (if done {
                Seq::empty()
            } else {
                occlusion_run(sense.bits, occluders.bits, targets@.skip(i as int), shadow.bits)
            }) == occlusion_run(sense.bits, occluders.bits, targets@, 0),
        decreases n - i,
    {
        let t = targets[i];
        let ghost ts = targets@.skip(i as int);
        let ghost before = seen@;
        let ghost s = shadow.bits;
        proof {
            assert(ts[0] == t);
            assert(ts.drop_first() =~= targets@.skip(i + 1));
        }
        let visible = t.projection.and(&shadow.not());
        if sense.and(&t.emit_mask).any() {
            if visible.any() {
                seen.push((t.key, visible));
            }
        }
        if t.emit_mask.and(&occluders).any() {
            shadow = shadow.or(&t.projection);
        }
        if shadow.all() {
            done = true;
        }
        proof {
            let out = if (sense.bits & t.emit_mask.bits) != 0 && visible.bits != 0 {
                seq![(t.key, Mask { bits: visible.bits })]
            } else {
                Seq::empty()
            };
            assert(seen@ =~= before + out);
            if done {
                assert(occlusion_run(sense.bits, occluders.bits, ts, s) == out);
            } else {
                assert(occlusion_run(sense.bits, occluders.bits, ts, s) == out + occlusion_run(
                    sense.bits,
                    occluders.bits,
                    targets@.skip(i + 1),
                    shadow.bits,
                ));
            }
        }
        i = i + 1;
    }
    proof {
        if !done {
            assert(targets@.skip(i as int) =~= Seq::<OcclusionTarget>::empty());
        }
    }
    seen
}

/// The arc sections `bit_min..=bit_max` clamped to `0..=63`; empty when the clamped
/// span is.
pub open spec fn in_span(bit_min: int, bit_max: int, i: int) -> bool {
    0 <= i < 64 && bit_min <= i && i <= bit_max
}

/// Sets the sections `bit_min..=bit_max` of a mask, after clamping the span to the 64
/// sections of the arc.
pub fn arc_mask(bit_min: i32, bit_max: i32) -> (m: Mask)
    ensures
        forall|i: int| #[trigger] m.has(i) == in_span(bit_min as int, bit_max as int, i),
{
    let lo: i32 = if bit_min < 0 {
        0
    } else {
        bit_min
    };
    let hi: i32 = if bit_max > 63 {
        63
    } else {
        bit_max
    };
    let mut m = Mask::zero();
    if lo <= hi {
        let mut i: i32 = lo;
        while i <= hi
            invariant
                0 <= lo <= i <= hi + 1,
                hi <= 63,
                lo == (if bit_min < 0 {
                    0
                } else {
                    bit_min
                }),
                hi == (if bit_max > 63 {
                    63
                } else {
                    bit_max
                }),
                forall|j: int| #[trigger] m.has(j) == (0 <= j < 64 && lo <= j < i),
            decreases hi + 1 - i,
        {
            m.set(i as usize, true);
            i = i + 1;
        }
    }
    m
}

// ---------------------------------------------------------------------------
// Laws

proof fn lemma_visible_parts(p: u64, s: u64)
    by (bit_vector)
    ensures
        ((p & !s) & s) == 0,
        ((p & !s) & !p) == 0,
{
}

proof fn lemma_disjoint_union(x: u64, s: u64, p: u64)
    by (bit_vector)
    requires
        (x & (s | p)) == 0,
    ensures
        (x & s) == 0,
        (x & p) == 0,
{
}

/// Each report of an occluded scan run with shadow `shadow` comes from a target at some
/// position `j`: it is a target the viewer senses, its visible sections are nonempty,
/// lie within its projection, lie outside `shadow`, and lie outside the projection of
/// every occluding target before it.
pub open spec fn report_justified(
    sense: u64,
    occluders: u64,
    ts: Seq<OcclusionTarget>,
    shadow: u64,
    seen: (u64, Mask),
) -> bool {
    exists|j: int|
        0 <= j < ts.len() && #[trigger] ts[j].key == seen.0 && (sense & ts[j].emit_mask.bits) != 0
            && seen.1.bits != 0 && (seen.1.bits & !ts[j].projection.bits) == 0 && (seen.1.bits
            & shadow) == 0 && (forall|m: int|
            0 <= m < j && (#[trigger] ts[m].emit_mask.bits & occluders) != 0 ==> (seen.1.bits
                & ts[m].projection.bits) == 0)
}

proof fn lemma_occlusion_run_justified(
    sense: u64,
    occluders: u64,
    ts: Seq<OcclusionTarget>,
    shadow: u64,
)
    ensures
        forall|k: int|
            0 <= k < occlusion_run(sense, occluders, ts, shadow).len() ==> report_justified(
                sense,
                occluders,
                ts,
                shadow,
                #[trigger] occlusion_run(sense, occluders, ts, shadow)[k],
            ),
    decreases ts.len(),
{
    if ts.len() > 0 {
        let t = ts[0];
        let visible = t.projection.bits & !shadow;
        let shadow2 = if (t.emit_mask.bits & occluders) != 0 {
            shadow | t.projection.bits
        } else {
            shadow
        };
        let rest = ts.drop_first();
        lemma_occlusion_run_justified(sense, occluders, rest, shadow2);
        lemma_visible_parts(t.projection.bits, shadow);
        let out = if (sense & t.emit_mask.bits) != 0 && visible != 0 {
            seq![(t.key, Mask { bits: visible })]
        } else {
            Seq::empty()
        };
        let tail = occlusion_run(sense, occluders, rest, shadow2);
        let run = occlusion_run(sense, occluders, ts, shadow);
        assert forall|k: int| 0 <= k < run.len() implies report_justified(
            sense,
            occluders,
            ts,
            shadow,
            #[trigger] run[k],
        ) by {
            if k < out.len() {
                assert(run[k] == (t.key, Mask { bits: visible }));
                assert(ts[0].key == t.key);
            } else {
                assert(shadow2 != u64::MAX);
                assert(run[k] == tail[k - out.len()]);
                let p = tail[k - out.len()];
                assert(report_justified(sense, occluders, rest, shadow2, p));
                let j = choose|j: int|
                    0 <= j < rest.len() && #[trigger] rest[j].key == p.0 && (sense
                        & rest[j].emit_mask.bits) != 0 && p.1.bits != 0 && (p.1.bits
                        & !rest[j].projection.bits) == 0 && (p.1.bits & shadow2) == 0 && (forall|
                        m: int,
                    |
                        0 <= m < j && (#[trigger] rest[m].emit_mask.bits & occluders) != 0
                            ==> (p.1.bits & rest[m].projection.bits) == 0);
                if (t.emit_mask.bits & occluders) != 0 {
                    lemma_disjoint_union(p.1.bits, shadow, t.projection.bits);
                }
                assert(ts[j + 1] == rest[j]);
                assert forall|m: int|
                    0 <= m < j + 1 && (#[trigger] ts[m].emit_mask.bits & occluders) != 0 implies (
                    p.1.bits & ts[m].projection.bits) == 0 by {
                    if m > 0 {
                        assert(ts[m] == rest[m - 1]);
                    }
                }
            }
        }
    }
}

/// Occlusion: every target that an occluded scan reports is one that the viewer senses,
/// and its reported sections are nonempty, lie within its projection, and lie outside
/// the projection of every occluding target seen before it.
pub proof fn lemma_reports_not_occluded(sense: Mask, occluders: Mask, targets: Seq<OcclusionTarget>)
    ensures
        forall|k: int|
            0 <= k < occlusion_run(sense.bits, occluders.bits, targets, 0).len()
                ==> report_justified(
                sense.bits,
                occluders.bits,
                targets,
                0,
                #[trigger] occlusion_run(sense.bits, occluders.bits, targets, 0)[k],
            ),
{
    lemma_occlusion_run_justified(sense.bits, occluders.bits, targets, 0);
}

/// The sections covered by the projections of the occluding targets of `ts`.
pub open spec fn shadow_of(occluders: u64, ts: Seq<OcclusionTarget>) -> u64
    decreases ts.len(),
{
    if ts.len() == 0 {
        0
    } else {
        let s = shadow_of(occluders, ts.drop_last());
        if (ts.last().emit_mask.bits & occluders) != 0 {
            s | ts.last().projection.bits
        } else {
            s
        }
    }
}

proof fn lemma_disjoint_from_union(x: u64, s: u64, p: u64)
    by (bit_vector)
    requires
        (x & s) == 0,
        (x & p) == 0,
    ensures
        (x & (s | p)) == 0,
{
}

proof fn lemma_disjoint_from_shadow(x: u64, occluders: u64, ts: Seq<OcclusionTarget>)
    requires
        forall|m: int|
            0 <= m < ts.len() && (#[trigger] ts[m].emit_mask.bits & occluders) != 0 ==> (x
                & ts[m].projection.bits) == 0,
    ensures
        (x & shadow_of(occluders, ts)) == 0,
    decreases ts.len(),
{
    if ts.len() == 0 {
        assert((x & 0u64) == 0) by (bit_vector);
    } else {
        let init = ts.drop_last();
        assert forall|m: int|
            0 <= m < init.len() && (#[trigger] init[m].emit_mask.bits & occluders) != 0 implies (x
            & init[m].projection.bits) == 0 by {
            assert(init[m] == ts[m]);
        }
        lemma_disjoint_from_shadow(x, occluders, init);
        if (ts.last().emit_mask.bits & occluders) != 0 {
            assert(ts[ts.len() - 1] == ts.last());
            lemma_disjoint_from_union(x, shadow_of(occluders, init), ts.last().projection.bits);
        }
    }
}

/// Full occlusion: once the occluders among the first `k` targets cover every section of
/// the arc, every report comes from one of those `k` targets.
pub proof fn lemma_full_shadow_hides_rest(
    sense: Mask,
    occluders: Mask,
    targets: Seq<OcclusionTarget>,
    k: int,
)
    requires
        0 <= k <= targets.len(),
        shadow_of(occluders.bits, targets.take(k)) == u64::MAX,
    ensures
        forall|r: int|
            #![trigger occlusion_run(sense.bits, occluders.bits, targets, 0)[r]]
            0 <= r < occlusion_run(sense.bits, occluders.bits, targets, 0).len() ==> exists|j: int|
                0 <= j < k && #[trigger] targets[j].key == occlusion_run(
                    sense.bits,
                    occluders.bits,
                    targets,
                    0,
                )[r].0,
{
    let run = occlusion_run(sense.bits, occluders.bits, targets, 0);
    lemma_occlusion_run_justified(sense.bits, occluders.bits, targets, 0);
    assert forall|r: int| #![trigger run[r]] 0 <= r < run.len() implies exists|j: int|
        0 <= j < k && #[trigger] targets[j].key == run[r].0 by {
        let p = run[r];
        assert(report_justified(sense.bits, occluders.bits, targets, 0, p));
        let j = choose|j: int|
            0 <= j < targets.len() && #[trigger] targets[j].key == p.0 && (sense.bits
                & targets[j].emit_mask.bits) != 0 && p.1.bits != 0 && (p.1.bits
                & !targets[j].projection.bits) == 0 && (p.1.bits & 0) == 0 && (forall|m: int|
                0 <= m < j && (#[trigger] targets[m].emit_mask.bits & occluders.bits) != 0 ==> (
                p.1.bits & targets[m].projection.bits) == 0);
        if j >= k {
            let pre = targets.take(k);
            assert forall|m: int|
                0 <= m < pre.len() && (#[trigger] pre[m].emit_mask.bits & occluders.bits) != 0 implies (
            p.1.bits & pre[m].projection.bits) == 0 by {
                assert(pre[m] == targets[m]);
            }
            lemma_disjoint_from_shadow(p.1.bits, occluders.bits, pre);
            let x = p.1.bits;
            assert((x & 0xffff_ffff_ffff_ffffu64) == x) by (bit_vector);
        }
    }
}

/// The sections that target `t` adds to the shadow: its projection when it emits an
/// occluding tag, none otherwise.
pub open spec fn occluder_part(occluders: u64, t: OcclusionTarget) -> u64 {
    if (t.emit_mask.bits & occluders) != 0 {
        t.projection.bits
    } else {
        0
    }
}

proof fn lemma_or_facts(a: u64, b: u64, c: u64)
    by (bit_vector)
    ensures
        (a | 0) == a,
        (0 | a) == a,
        ((a | b) | c) == (a | (b | c)),
{
}

proof fn lemma_shadow_of_front(occluders: u64, ts: Seq<OcclusionTarget>)
    requires
        ts.len() > 0,
    ensures
        shadow_of(occluders, ts) == occluder_part(occluders, ts[0]) | shadow_of(
            occluders,
            ts.drop_first(),
        ),
    decreases ts.len(),
{
    let p0 = occluder_part(occluders, ts[0]);
    let pl = occluder_part(occluders, ts.last());
    lemma_or_facts(p0, 0, 0);
    if ts.len() == 1 {
        assert(ts.drop_last() =~= Seq::<OcclusionTarget>::empty());
        assert(ts.drop_first() =~= Seq::<OcclusionTarget>::empty());
        lemma_or_facts(0, 0, 0);
        lemma_or_facts(ts[0].projection.bits, 0, 0);
    } else {
        let init = ts.drop_last();
        let rest = ts.drop_first();
        lemma_shadow_of_front(occluders, init);
        assert(init[0] == ts[0]);
        assert(init.drop_first() =~= rest.drop_last());
        assert(rest.last() == ts.last());
        let x = shadow_of(occluders, rest.drop_last());
        lemma_or_facts(p0, x, pl);
        lemma_or_facts(shadow_of(occluders, init), 0, 0);
        lemma_or_facts(x, 0, 0);
        lemma_or_facts(p0 | x, 0, 0);
        assert(shadow_of(occluders, ts) == shadow_of(occluders, init) | pl);
        assert(shadow_of(occluders, rest) == x | pl);
    }
}

proof fn lemma_occlusion_run_complete(
    sense: u64,
    occluders: u64,
    ts: Seq<OcclusionTarget>,
    shadow: u64,
    j: int,
)
    requires
        0 <= j < ts.len(),
        forall|k: int|
            1 <= k <= j ==> (shadow | #[trigger] shadow_of(occluders, ts.take(k))) != u64::MAX,
        (sense & ts[j].emit_mask.bits) != 0,
        (ts[j].projection.bits & !(shadow | shadow_of(occluders, ts.take(j)))) != 0,
    ensures
        occlusion_run(sense, occluders, ts, shadow).contains(
            (
                ts[j].key,
                Mask { bits: ts[j].projection.bits & !(shadow | shadow_of(occluders, ts.take(j))) },
            ),
        ),
    decreases j,
{
    let t = ts[0];
    let p0 = occluder_part(occluders, t);
    let shadow2 = if (t.emit_mask.bits & occluders) != 0 {
        shadow | t.projection.bits
    } else {
        shadow
    };
    lemma_or_facts(shadow, 0, 0);
    assert(shadow2 == shadow | p0);
    let run = occlusion_run(sense, occluders, ts, shadow);
    let visible = t.projection.bits & !shadow;
    let out = if (sense & t.emit_mask.bits) != 0 && visible != 0 {
        seq![(t.key, Mask { bits: visible })]
    } else {
        Seq::empty()
    };
    if j == 0 {
        assert(ts.take(0) =~= Seq::<OcclusionTarget>::empty());
        assert(shadow_of(occluders, ts.take(0)) == 0);
        assert(out[0] == run[0]);
    } else {
        let rest = ts.drop_first();
        // the first target leaves some section uncovered
        assert(ts.take(1).drop_first() =~= Seq::<OcclusionTarget>::empty());
        lemma_shadow_of_front(occluders, ts.take(1));
        assert(ts.take(1)[0] == t);
        lemma_or_facts(p0, 0, 0);
        assert((shadow | shadow_of(occluders, ts.take(1))) != u64::MAX);
        assert(shadow2 != u64::MAX);
        assert(run == out + occlusion_run(sense, occluders, rest, shadow2));
        assert forall|k: int| 0 <= k <= j - 1 implies (shadow2 | shadow_of(occluders, rest.take(k)))
            == (shadow | shadow_of(occluders, ts.take(k + 1))) by {
            lemma_shadow_of_front(occluders, ts.take(k + 1));
            assert(ts.take(k + 1)[0] == t);
            assert(ts.take(k + 1).drop_first() =~= rest.take(k));
            lemma_or_facts(shadow, p0, shadow_of(occluders, rest.take(k)));
        }
        assert forall|k: int| 1 <= k <= j - 1 implies (shadow2 | #[trigger] shadow_of(
            occluders,
            rest.take(k),
        )) != u64::MAX by {
            assert((shadow | shadow_of(occluders, ts.take(k + 1))) != u64::MAX);
        }
        assert(rest[j - 1] == ts[j]);
        lemma_occlusion_run_complete(sense, occluders, rest, shadow2, j - 1);
        let tail = occlusion_run(sense, occluders, rest, shadow2);
        let e = (ts[j].key, Mask { bits: ts[j].projection.bits & !(shadow | shadow_of(occluders, ts.take(j))) });
        let m = choose|m: int| 0 <= m < tail.len() && tail[m] == e;
        assert(run[out.len() + m] == e);
    }
}

/// Completeness of the occluded scan: a target that the viewer senses, reached before the
/// occluders seen so far cover every section, and not wholly in their shadow, is reported
/// with exactly the sections of its projection outside that shadow.
pub proof fn lemma_occluded_scan_complete(
    sense: Mask,
    occluders: Mask,
    targets: Seq<OcclusionTarget>,
    j: int,
)
    requires
        0 <= j < targets.len(),
        forall|k: int|
            1 <= k <= j ==> #[trigger] shadow_of(occluders.bits, targets.take(k)) != u64::MAX,
        (sense.bits & targets[j].emit_mask.bits) != 0,
        (targets[j].projection.bits & !shadow_of(occluders.bits, targets.take(j))) != 0,
    ensures
        occlusion_run(sense.bits, occluders.bits, targets, 0).contains(
            (
                targets[j].key,
                Mask {
                    bits: targets[j].projection.bits & !shadow_of(occluders.bits, targets.take(j)),
                },
            ),
        ),
{
    assert forall|k: int| 0 <= k <= j implies (0u64 | shadow_of(occluders.bits, targets.take(k)))
        == shadow_of(occluders.bits, targets.take(k)) by {
        lemma_or_facts(shadow_of(occluders.bits, targets.take(k)), 0, 0);
    }
    lemma_occlusion_run_complete(sense.bits, occluders.bits, targets, 0, j);
}

} // verus!
