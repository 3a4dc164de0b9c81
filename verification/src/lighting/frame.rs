//! What the solver leaves alone: blocks and the other channels.
use vstd::prelude::*;
use crate::lighting::light_solver::{
    add_light, add_step, add_visit, add_visits, drain_additions, drain_removals,
    lemma_add_step_weight, lemma_remove_step_weight, neighbor, queue_weight, remove_light,
    remove_step, remove_visit, remove_visits, solve_state, LightState, Pending,
};
use crate::voxels::chunks::{Pos, World};

verus! {

/// From `a` to `b` nothing but the light of channel `c` and the modified
/// flags has changed: the world is as large, holds the same blocks and the
/// same light in every other channel, and is well formed if it was.
pub open spec fn same_but_channel(a: World, b: World, c: int) -> bool {
    &&& a.wf() ==> b.wf()
    &&& b.w == a.w && b.h == a.h && b.d == a.d
    &&& b.voxels == a.voxels
    &&& forall|p: Pos, o: int| 0 <= o < 4 && o != c ==> #[trigger] b.light(p, o) == a.light(p, o)
}

/// A light write touches one channel only.
pub proof fn lemma_write_frame(a: World, c: int, p: Pos, value: u8)
    requires
        0 <= c < 4,
    ensures
        same_but_channel(a, a.with_light(p, c, value), c),
{
    a.lemma_with_light(p, c, value);
}

/// `same_but_channel` composes.
pub proof fn lemma_frame_trans(a: World, b: World, d: World, c: int)
    requires
        same_but_channel(a, b, c),
        same_but_channel(b, d, c),
    ensures
        same_but_channel(a, d, c),
{
    assert forall|p: Pos, o: int| 0 <= o < 4 && o != c implies #[trigger] d.light(p, o) == a.light(
        p,
        o,
    ) by {
        assert(b.light(p, o) == a.light(p, o));
    }
}

/// Visiting neighbours of a removed voxel touches one channel only.
proof fn lemma_remove_visits_frame(s: LightState, c: int, e: Pending, k: int)
    requires
        0 <= c < 4,
        0 <= k,
    ensures
        same_but_channel(s.world, remove_visits(s, c, e, k).world, c),
    decreases k,
{
    if k > 0 {
        lemma_remove_visits_frame(s, c, e, k - 1);
        let t = remove_visits(s, c, e, k - 1);
        lemma_write_frame(t.world, c, neighbor(e.pos, k - 1), 0);
        lemma_frame_trans(s.world, t.world, remove_visit(t, c, e, k - 1).world, c);
    }
}

/// Visiting neighbours of a spreading voxel touches one channel only.
proof fn lemma_add_visits_frame(s: LightState, c: int, e: Pending, k: int)
    requires
        0 <= c < 4,
        0 <= k,
        e.level >= 1,
    ensures
        same_but_channel(s.world, add_visits(s, c, e, k).world, c),
    decreases k,
{
    if k > 0 {
        lemma_add_visits_frame(s, c, e, k - 1);
        let t = add_visits(s, c, e, k - 1);
        lemma_write_frame(
            t.world,
            c,
            neighbor(e.pos, k - 1),
            (e.level - 1) as u8,
        );
        lemma_frame_trans(s.world, t.world, add_visit(t, c, e, k - 1).world, c);
    }
}

/// Draining the removals touches one channel only.
pub proof fn lemma_drain_removals_frame(s: LightState, c: int)
    requires
        0 <= c < 4,
    ensures
        same_but_channel(s.world, drain_removals(s, c).world, c),
    decreases queue_weight(s.rem),
{
    if s.rem.len() > 0 {
        lemma_remove_step_weight(s, c);
        let rest = LightState { rem: s.rem.drop_first(), ..s };
        lemma_remove_visits_frame(rest, c, s.rem[0], 6);
        let t = remove_step(s, c);
        lemma_drain_removals_frame(t, c);
        lemma_frame_trans(s.world, t.world, drain_removals(t, c).world, c);
    }
}

/// Draining the additions touches one channel only.
pub proof fn lemma_drain_additions_frame(s: LightState, c: int)
    requires
        0 <= c < 4,
    ensures
        same_but_channel(s.world, drain_additions(s, c).world, c),
    decreases queue_weight(s.add),
{
    if s.add.len() > 0 {
        lemma_add_step_weight(s, c);
        let rest = LightState { add: s.add.drop_first(), ..s };
        if s.add[0].level > 1 {
            lemma_add_visits_frame(rest, c, s.add[0], 6);
        }
        let t = add_step(s, c);
        lemma_drain_additions_frame(t, c);
        lemma_frame_trans(s.world, t.world, drain_additions(t, c).world, c);
    }
}

/// Channels do not mix: all that `add`, `remove` and `solve` change of the
/// world is the light of the solver's channel and the modified flags.
pub proof fn lemma_channels_independent(s: LightState, c: int, p: Pos, emission: Option<i32>)
    requires
        0 <= c < 4,
    ensures
        same_but_channel(s.world, add_light(s, c, p, emission).world, c),
        same_but_channel(s.world, remove_light(s, c, p).world, c),
        same_but_channel(s.world, solve_state(s, c).world, c),
{
    match emission {
        Some(level) => {
            lemma_write_frame(s.world, c, p, (level as int % 256) as u8);
        },
        None => {
            lemma_write_frame(s.world, c, p, (s.world.light(p, c) as int % 256) as u8);
        },
    }
    lemma_write_frame(s.world, c, p, 0);
    lemma_drain_removals_frame(s, c);
    let t = drain_removals(s, c);
    lemma_drain_additions_frame(t, c);
    lemma_frame_trans(s.world, t.world, drain_additions(t, c).world, c);
}

} // verus!
