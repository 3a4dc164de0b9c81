//! A lone source in open air: the diamond it fills and its removal.
use vstd::prelude::*;
use crate::lighting::light_solver::{
    add_light, drain_additions, drain_removals, neighbor, remove_light, solve_state, Pending,
};
use crate::lighting::settling::{
    at_rest, gentle, grown, idle, lemma_dark_world_at_rest, lemma_drain_additions,
    lemma_grown_trans, lemma_neighbor, lemma_rest_without_source, lemma_seed, lit_in_air,
    opposite, settled, supported,
};
use crate::lighting::withdrawal::lemma_remove_then_solve_at_rest;
use crate::voxels::chunks::{Pos, World};

verus! {

/// The absolute value of `i`.
pub open spec fn abs(i: int) -> int {
    if i < 0 {
        -i
    } else {
        i
    }
}

/// The number of steps between two voxels.
pub open spec fn distance(a: Pos, b: Pos) -> int {
    abs(a.x - b.x) + abs(a.y - b.y) + abs(a.z - b.z)
}

/// The light that a lone source of `level` at `src` gives to `p` in open
/// air: one level less per step, and none from `level` steps on.
pub open spec fn diamond(src: Pos, level: int, p: Pos) -> int {
    if distance(p, src) < level {
        level - distance(p, src)
    } else {
        0
    }
}

/// Every voxel that the light of the source can reach is loaded and holds air.
pub open spec fn open_around(w: World, src: Pos, level: int) -> bool {
    forall|p: Pos| distance(p, src) < level ==> #[trigger] w.passable(p)
}

/// No voxel holds light of channel `c`.
pub open spec fn dark(w: World, c: int) -> bool {
    forall|p: Pos| #[trigger] w.light(p, c) == 0
}

/// The light of channel `c` is that of a lone source of `level` at `src`.
pub open spec fn lit_by(w: World, c: int, src: Pos, level: int) -> bool {
    forall|p: Pos| #[trigger] w.light(p, c) == diamond(src, level, p)
}

/// A step changes the distance by exactly one.
pub proof fn lemma_distance_step(src: Pos, p: Pos, i: int)
    requires
        0 <= i < 6,
    ensures
        distance(neighbor(p, i), src) == distance(p, src) + 1 || distance(neighbor(p, i), src)
            == distance(p, src) - 1,
        distance(p, src) >= 0,
{
}

/// From every voxel but the source some step leads closer to the source.
pub proof fn lemma_closer_neighbor(src: Pos, p: Pos) -> (i: int)
    requires
        p != src,
    ensures
        0 <= i < 6,
        distance(neighbor(p, i), src) == distance(p, src) - 1,
{
    if p.z < src.z {
        0
    } else if p.z > src.z {
        1
    } else if p.y < src.y {
        2
    } else if p.y > src.y {
        3
    } else if p.x < src.x {
        4
    } else {
        5
    }
}

/// Only the source itself is at distance 0.
pub proof fn lemma_distance_zero(src: Pos, p: Pos)
    ensures
        distance(p, src) >= 0,
        distance(p, src) == 0 <==> p == src,
{
}

/// The diamond drops by at most one level per step and never exceeds 15.
pub proof fn lemma_diamond_gentle(src: Pos, level: int)
    requires
        level <= 15,
    ensures
        gentle(|p: Pos| diamond(src, level, p)),
{
    let bound = |p: Pos| diamond(src, level, p);
    assert forall|p: Pos, i: int| 0 <= i < 6 implies bound(#[trigger] neighbor(p, i)) >= bound(p)
        - 1 by {
        lemma_distance_step(src, p, i);
    }
    assert forall|p: Pos| #[trigger] bound(p) <= 15 by {
        lemma_distance_zero(src, p);
    }
}

/// Where the light is at rest around a source that holds at least `level`,
/// and the air is open, every voxel holds at least the diamond's light.
proof fn lemma_fill_lower(w: World, c: int, src: Pos, level: int, sources: Set<Pos>, p: Pos)
    requires
        at_rest(w, c, sources),
        open_around(w, src, level),
        w.light(src, c) >= level,
    ensures
        w.light(p, c) >= diamond(src, level, p),
    decreases distance(p, src),
{
    lemma_distance_zero(src, p);
    if p != src && distance(p, src) < level {
        let i = lemma_closer_neighbor(src, p);
        let q = neighbor(p, i);
        lemma_fill_lower(w, c, src, level, sources, q);
        lemma_neighbor(p, i);
        assert(settled(w, c, q));
        assert(w.passable(p));
        assert(w.passable(neighbor(q, opposite(i))));
    }
}

/// A lone source in open air fills a diamond: in a world that is dark in
/// channel `c` and open around `src`, placing a level of 2 to 15 at `src`
/// and solving gives every voxel the light `max(0, level - distance)`;
/// blocks and the other channels are as before, and nothing stays queued.
#[verifier::rlimit(40)]
pub proof fn lemma_single_source_fill(w: World, c: int, src: Pos, level: i32)
    requires
        0 <= c < 4,
        w.wf(),
        dark(w, c),
        2 <= level <= 15,
        open_around(w, src, level as int),
    ensures
        lit_by(solve_state(add_light(idle(w), c, src, Some(level)), c).world, c, src, level as int),
        grown(w, solve_state(add_light(idle(w), c, src, Some(level)), c).world, c),
        solve_state(add_light(idle(w), c, src, Some(level)), c).add.len() == 0,
        solve_state(add_light(idle(w), c, src, Some(level)), c).rem.len() == 0,
        solve_state(add_light(idle(w), c, src, Some(level)), c).world.wf(),
{
    let s = add_light(idle(w), c, src, Some(level));
    let bound = |p: Pos| diamond(src, level as int, p);
    let x = Set::<Pos>::empty().insert(src);
    assert(w.passable(src)) by {
        lemma_distance_zero(src, src);
    }
    lemma_diamond_gentle(src, level as int);
    lemma_dark_world_at_rest(w, c);
    assert forall|q: Pos| w.light(q, c) <= #[trigger] bound(q) by {
        lemma_distance_zero(src, q);
        assert(w.light(q, c) == 0);
    }
    assert(bound(src) == level) by {
        lemma_distance_zero(src, src);
    }
    lemma_seed(w, c, Set::empty(), src, level, bound);
    assert(drain_removals(s, c) == s);
    lemma_drain_additions(s, c, x, bound);
    let t = drain_additions(s, c);
    lemma_grown_trans(w, s.world, t.world, c);
    assert(open_around(t.world, src, level as int)) by {
        assert forall|p: Pos| distance(p, src) < level implies #[trigger] t.world.passable(p) by {
            assert(w.passable(p));
            assert(t.world.voxel(p) == w.voxel(p));
        }
    }
    assert(t.world.light(src, c) >= s.world.light(src, c));
    assert forall|p: Pos| #[trigger] t.world.light(p, c) == diamond(src, level as int, p) by {
        lemma_fill_lower(t.world, c, src, level as int, x, p);
        assert(t.world.light(p, c) <= bound(p));
    }
}

/// The light of a lone source in open air is at rest, with the source as
/// the only one, and sits in air only.
pub proof fn lemma_diamond_at_rest(w: World, c: int, src: Pos, level: int)
    requires
        w.wf(),
        1 <= level <= 15,
        open_around(w, src, level),
        lit_by(w, c, src, level),
    ensures
        at_rest(w, c, Set::empty().insert(src)),
        lit_in_air(w, c),
{
    let x = Set::<Pos>::empty().insert(src);
    assert forall|p: Pos| #[trigger] settled(w, c, p) by {
        assert forall|i: int| 0 <= i < 6 && w.passable(#[trigger] neighbor(p, i)) implies w.light(
            neighbor(p, i),
            c,
        ) + 1 >= w.light(p, c) by {
            lemma_distance_step(src, p, i);
            assert(w.light(p, c) == diamond(src, level, p));
            assert(w.light(neighbor(p, i), c) == diamond(src, level, neighbor(p, i)));
        }
    }
    assert forall|p: Pos| !x.contains(p) && w.light(p, c) >= 1 implies #[trigger] supported(
        w,
        c,
        p,
    ) by {
        let i = lemma_closer_neighbor(src, p);
        assert(w.light(p, c) == diamond(src, level, p));
        assert(w.light(neighbor(p, i), c) == diamond(src, level, neighbor(p, i)));
    }
    assert forall|p: Pos| w.light(p, c) >= 1 implies #[trigger] w.passable(p) by {
        assert(w.light(p, c) == diamond(src, level, p));
    }
}

/// Removing a lone source clears its diamond: where the light of channel
/// `c` is that of a source of `level` at `src` in open air, removing the
/// light at `src` and solving leaves every voxel dark and nothing queued.
pub proof fn lemma_single_source_clear(w: World, c: int, src: Pos, level: int)
    requires
        0 <= c < 4,
        w.wf(),
        1 <= level <= 15,
        open_around(w, src, level),
        lit_by(w, c, src, level),
    ensures
        dark(solve_state(remove_light(idle(w), c, src), c).world, c),
        solve_state(remove_light(idle(w), c, src), c).add.len() == 0,
        solve_state(remove_light(idle(w), c, src), c).rem.len() == 0,
{
    let x = Set::<Pos>::empty().insert(src);
    lemma_diamond_at_rest(w, c, src, level);
    lemma_remove_then_solve_at_rest(w, c, x, src);
    let t = solve_state(remove_light(idle(w), c, src), c);
    assert(x.remove(src) =~= Set::<Pos>::empty());
    assert forall|p: Pos| #[trigger] t.world.light(p, c) == 0 by {
        lemma_rest_without_source(t.world, c, p);
    }
}

/// Round trip: in a world that is dark in channel `c` and open around
/// `src`, placing a level of 2 to 15 at `src`, solving, removing the light
/// at `src` and solving again leaves every voxel dark and nothing queued.
pub proof fn lemma_add_remove_round_trip(w: World, c: int, src: Pos, level: i32)
    requires
        0 <= c < 4,
        w.wf(),
        dark(w, c),
        2 <= level <= 15,
        open_around(w, src, level as int),
    ensures
        ({
            let lit = solve_state(add_light(idle(w), c, src, Some(level)), c);
            let cleared = solve_state(remove_light(lit, c, src), c);
            &&& lit_by(lit.world, c, src, level as int)
            &&& dark(cleared.world, c)
            &&& cleared.add.len() == 0
            &&& cleared.rem.len() == 0
        }),
{
    lemma_single_source_fill(w, c, src, level);
    let lit = solve_state(add_light(idle(w), c, src, Some(level)), c);
    assert(lit.add =~= Seq::<Pending>::empty());
    assert(lit.rem =~= Seq::<Pending>::empty());
    assert(lit == idle(lit.world));
    assert(open_around(lit.world, src, level as int)) by {
        assert forall|p: Pos| distance(p, src) < level implies #[trigger] lit.world.passable(p) by {
            assert(w.passable(p));
            assert(lit.world.voxel(p) == w.voxel(p));
        }
    }
    lemma_single_source_clear(lit.world, c, src, level as int);
}

} // verus!
