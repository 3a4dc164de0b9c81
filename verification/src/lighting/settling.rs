//! Light at rest: what the additions of a solve arrive at, and the
//! attenuation that holds there.
use vstd::prelude::*;
use crate::lighting::light_solver::{
    add_light, add_step, add_visit, add_visits, drain_additions, drain_removals,
    lemma_add_step_weight, lemma_remove_step_weight, neighbor, queue_weight, remove_step,
    solve_state, LightState, Pending,
};
use crate::voxels::chunks::{Pos, World};

verus! {

/// Draining the removals leaves no removal queued.
pub proof fn lemma_removals_drained(s: LightState, c: int)
    ensures
        drain_removals(s, c).rem.len() == 0,
    decreases queue_weight(s.rem),
{
    if s.rem.len() > 0 {
        lemma_remove_step_weight(s, c);
        lemma_removals_drained(remove_step(s, c), c);
    }
}

/// Draining the additions leaves no addition queued and does not touch the
/// removal queue.
pub proof fn lemma_additions_drained(s: LightState, c: int)
    ensures
        drain_additions(s, c).add.len() == 0,
        drain_additions(s, c).rem == s.rem,
    decreases queue_weight(s.add),
{
    if s.add.len() > 0 {
        lemma_add_step_weight(s, c);
        lemma_additions_drained(add_step(s, c), c);
    }
}

/// `solve` leaves both queues empty.
pub proof fn lemma_solve_empties_queues(s: LightState, c: int)
    ensures
        solve_state(s, c).rem.len() == 0,
        solve_state(s, c).add.len() == 0,
{
    lemma_removals_drained(s, c);
    lemma_additions_drained(drain_removals(s, c), c);
}

/// Idempotence: a second `solve` with nothing added or removed in between
/// leaves the world, every light value and every flag, as the first left it.
pub proof fn lemma_solve_idempotent(s: LightState, c: int)
    ensures
        solve_state(solve_state(s, c), c) == solve_state(s, c),
{
    lemma_solve_empties_queues(s, c);
}

/// The direction that leads back: +z and -z, +y and -y, +x and -x are paired.
pub open spec fn opposite(i: int) -> int {
    if i % 2 == 0 {
        i + 1
    } else {
        i - 1
    }
}

/// A neighbour is another voxel, and the opposite step leads back.
pub proof fn lemma_neighbor(p: Pos, i: int)
    requires
        0 <= i < 6,
    ensures
        neighbor(p, i) != p,
        0 <= opposite(i) < 6,
        neighbor(neighbor(p, i), opposite(i)) == p,
{
}

/// No air next to `p` is more than one level darker than `p`: `p` has
/// nothing left to spread.
pub open spec fn settled(w: World, c: int, p: Pos) -> bool {
    forall|i: int|
        0 <= i < 6 && w.passable(#[trigger] neighbor(p, i)) ==> w.light(neighbor(p, i), c) + 1
            >= w.light(p, c)
}

/// Some neighbour of `p` is brighter than `p`.
pub open spec fn supported(w: World, c: int, p: Pos) -> bool {
    exists|i: int| 0 <= i < 6 && w.light(#[trigger] neighbor(p, i), c) > w.light(p, c)
}

/// The queue holds `p` with `level`.
pub open spec fn queued(q: Seq<Pending>, p: Pos, level: u8) -> bool {
    exists|j: int| 0 <= j < q.len() && #[trigger] q[j] == (Pending { pos: p, level })
}

/// No queued entry claims more light than its voxel holds.
pub open spec fn fresh(w: World, c: int, q: Seq<Pending>) -> bool {
    forall|j: int| 0 <= j < q.len() ==> (#[trigger] q[j]).level <= w.light(q[j].pos, c)
}

/// `bound` drops by at most one per step and never exceeds full light.
pub open spec fn gentle(bound: spec_fn(Pos) -> int) -> bool {
    &&& forall|p: Pos, i: int| 0 <= i < 6 ==> bound(#[trigger] neighbor(p, i)) >= bound(p) - 1
    &&& forall|p: Pos| #[trigger] bound(p) <= 15
}

/// The brightest of the six neighbours of `p`.
pub open spec fn brightest_neighbor(w: World, c: int, p: Pos) -> int {
    brightest_of(w, c, p, 6)
}

/// The brightest of the first `k` neighbours of `p`.
pub open spec fn brightest_of(w: World, c: int, p: Pos, k: int) -> int
    decreases k,
{
    if k <= 0 {
        0
    } else if w.light(neighbor(p, k - 1), c) > brightest_of(w, c, p, k - 1) {
        w.light(neighbor(p, k - 1), c) as int
    } else {
        brightest_of(w, c, p, k - 1)
    }
}

/// Light at rest: every voxel is settled, and every lit voxel outside
/// `sources` has a brighter neighbour.
pub open spec fn at_rest(w: World, c: int, sources: Set<Pos>) -> bool {
    &&& w.wf()
    &&& forall|p: Pos| #[trigger] settled(w, c, p)
    &&& forall|p: Pos| !sources.contains(p) && w.light(p, c) >= 1 ==> #[trigger] supported(w, c, p)
}

/// Light on its way to rest by additions alone: no removal is queued, the
/// queue is fresh, every voxel is settled or queued with the light it
/// holds, every lit voxel outside `sources` has a brighter neighbour, and
/// no light exceeds `bound`.
pub open spec fn spreading(
    s: LightState,
    c: int,
    sources: Set<Pos>,
    bound: spec_fn(Pos) -> int,
) -> bool {
    &&& s.world.wf()
    &&& s.rem.len() == 0
    &&& fresh(s.world, c, s.add)
    &&& forall|p: Pos| #[trigger] settled(s.world, c, p) || queued(s.add, p, s.world.light(p, c))
    &&& forall|p: Pos|
        !sources.contains(p) && s.world.light(p, c) >= 1 ==> #[trigger] supported(s.world, c, p)
    &&& forall|p: Pos| s.world.light(p, c) <= #[trigger] bound(p)
}

/// `spreading`, while the entry `e` has been taken from the queue and its
/// first `k` neighbours have been visited.
pub open spec fn visiting(
    s: LightState,
    c: int,
    sources: Set<Pos>,
    bound: spec_fn(Pos) -> int,
    e: Pending,
    k: int,
) -> bool {
    &&& s.world.wf()
    &&& s.rem.len() == 0
    &&& fresh(s.world, c, s.add)
    &&& 2 <= e.level <= s.world.light(e.pos, c)
    &&& forall|p: Pos|
        p != e.pos ==> #[trigger] settled(s.world, c, p) || queued(s.add, p, s.world.light(p, c))
    &&& forall|i: int|
        0 <= i < k && s.world.passable(#[trigger] neighbor(e.pos, i)) ==> s.world.light(
            neighbor(e.pos, i),
            c,
        ) + 1 >= e.level
    &&& (e.level == s.world.light(e.pos, c) || settled(s.world, c, e.pos) || queued(
        s.add,
        e.pos,
        s.world.light(e.pos, c),
    ))
    &&& forall|p: Pos|
        !sources.contains(p) && s.world.light(p, c) >= 1 ==> #[trigger] supported(s.world, c, p)
    &&& forall|p: Pos| s.world.light(p, c) <= #[trigger] bound(p)
}

/// From `a` to `b` the light of channel `c` has only grown; blocks, loaded
/// voxels and the other channels are as they were.
pub open spec fn grown(a: World, b: World, c: int) -> bool {
    &&& forall|p: Pos| #[trigger] b.loaded(p) == a.loaded(p)
    &&& forall|p: Pos| #[trigger] b.voxel(p) == a.voxel(p)
    &&& forall|p: Pos| #[trigger] b.light(p, c) >= a.light(p, c)
    &&& forall|p: Pos, o: int| 0 <= o < 4 && o != c ==> #[trigger] b.light(p, o) == a.light(p, o)
}

/// Light sits in air only: every lit voxel is loaded and holds air.
pub open spec fn lit_in_air(w: World, c: int) -> bool {
    forall|p: Pos| w.light(p, c) >= 1 ==> #[trigger] w.passable(p)
}

/// Visiting one more neighbour keeps the light on its way to rest.
#[verifier::rlimit(40)]
pub proof fn lemma_add_visit(
    s: LightState,
    c: int,
    sources: Set<Pos>,
    bound: spec_fn(Pos) -> int,
    e: Pending,
    k: int,
)
    requires
        0 <= c < 4,
        0 <= k < 6,
        gentle(bound),
        visiting(s, c, sources, bound, e, k),
    ensures
        visiting(add_visit(s, c, e, k), c, sources, bound, e, k + 1),
        grown(s.world, add_visit(s, c, e, k).world, c),
        lit_in_air(s.world, c) ==> lit_in_air(add_visit(s, c, e, k).world, c),
{
    let w = s.world;
    let n = neighbor(e.pos, k);
    let t = add_visit(s, c, e, k);
    lemma_neighbor(e.pos, k);
    if w.passable(n) && w.light(n, c) + 2 <= e.level {
        let level = (e.level - 1) as u8;
        let v = t.world;
        w.lemma_with_light(n, c, level);
        assert(bound(e.pos) <= 15);
        assert(forall|p: Pos| v.passable(p) == w.passable(p));
        assert forall|p: Pos| #[trigger] v.light(p, c) >= w.light(p, c) by {}
        assert(fresh(v, c, t.add)) by {
            assert forall|j: int| 0 <= j < t.add.len() implies (#[trigger] t.add[j]).level
                <= v.light(t.add[j].pos, c) by {
                if j < s.add.len() {
                    assert(t.add[j] == s.add[j]);
                }
            }
        }
        assert forall|p: Pos| p != e.pos implies #[trigger] settled(v, c, p) || queued(
            t.add,
            p,
            v.light(p, c),
        ) by {
            lemma_carry(s, t, c, p, n);
        }
        assert(e.level == v.light(e.pos, c) || settled(v, c, e.pos) || queued(
            t.add,
            e.pos,
            v.light(e.pos, c),
        )) by {
            if e.level != w.light(e.pos, c) {
                assert(settled(w, c, e.pos) || queued(s.add, e.pos, w.light(e.pos, c)));
                lemma_carry(s, t, c, e.pos, n);
            }
        }
        assert forall|p: Pos| !sources.contains(p) && v.light(p, c) >= 1 implies #[trigger] supported(
            v,
            c,
            p,
        ) by {
            if p == n {
                assert(v.light(neighbor(n, opposite(k)), c) > v.light(n, c));
            } else {
                assert(supported(w, c, p));
                let i = choose|i: int| 0 <= i < 6 && w.light(#[trigger] neighbor(p, i), c) > w.light(p, c);
                assert(v.light(neighbor(p, i), c) > v.light(p, c));
            }
        }
        assert forall|p: Pos| v.light(p, c) <= #[trigger] bound(p) by {
            if p == n {
                assert(bound(neighbor(e.pos, k)) >= bound(e.pos) - 1);
            }
        }
        assert forall|i: int| 0 <= i < k + 1 && v.passable(#[trigger] neighbor(e.pos, i)) implies v.light(
            neighbor(e.pos, i),
            c,
        ) + 1 >= e.level by {
            if i < k {
                assert(w.passable(neighbor(e.pos, i)));
            }
        }
        if lit_in_air(w, c) {
            assert forall|p: Pos| v.light(p, c) >= 1 implies #[trigger] v.passable(p) by {
                if p != n {
                    assert(w.passable(p));
                }
            }
        }
    } else {
        assert forall|i: int| 0 <= i < k + 1 && w.passable(#[trigger] neighbor(e.pos, i)) implies w.light(
            neighbor(e.pos, i),
            c,
        ) + 1 >= e.level by {}
    }
}

/// When the air at `n` takes more light and is queued with it, a voxel that
/// was settled or queued still is.
proof fn lemma_carry(s: LightState, t: LightState, c: int, p: Pos, n: Pos)
    requires
        0 <= c < 4,
        settled(s.world, c, p) || queued(s.add, p, s.world.light(p, c)),
        s.add.len() + 1 == t.add.len(),
        forall|j: int| 0 <= j < s.add.len() ==> t.add[j] == s.add[j],
        t.add[s.add.len() as int] == (Pending { pos: n, level: t.world.light(n, c) }),
        forall|q: Pos| t.world.passable(q) == s.world.passable(q),
        forall|q: Pos| q != n ==> t.world.light(q, c) == s.world.light(q, c),
        t.world.light(n, c) >= s.world.light(n, c),
    ensures
        settled(t.world, c, p) || queued(t.add, p, t.world.light(p, c)),
{
    if p == n {
        assert(t.add[s.add.len() as int] == (Pending { pos: p, level: t.world.light(p, c) }));
    } else if queued(s.add, p, s.world.light(p, c)) {
        let j = choose|j: int|
            0 <= j < s.add.len() && #[trigger] s.add[j] == (Pending {
                pos: p,
                level: s.world.light(p, c),
            });
        assert(t.add[j] == (Pending { pos: p, level: t.world.light(p, c) }));
    } else {
        assert forall|i: int| 0 <= i < 6 && t.world.passable(#[trigger] neighbor(p, i)) implies t.world.light(
            neighbor(p, i),
            c,
        ) + 1 >= t.world.light(p, c) by {
            assert(s.world.passable(neighbor(p, i)));
        }
    }
}

/// A queue that holds `p` with `level` still holds it after a push, and
/// holds what was pushed.
pub proof fn lemma_queued_push(q: Seq<Pending>, e: Pending, p: Pos, level: u8)
    ensures
        queued(q, p, level) ==> queued(q.push(e), p, level),
        queued(q.push(e), e.pos, e.level),
{
    if queued(q, p, level) {
        let j = choose|j: int| 0 <= j < q.len() && #[trigger] q[j] == (Pending { pos: p, level });
        assert(q.push(e)[j] == (Pending { pos: p, level }));
    }
    assert(q.push(e)[q.len() as int] == (Pending { pos: e.pos, level: e.level }));
}

/// A queue that holds `p` with `level` behind its front still holds it
/// once the front is taken.
pub proof fn lemma_queued_rest(q: Seq<Pending>, p: Pos, level: u8)
    requires
        queued(q, p, level),
        q[0] != (Pending { pos: p, level }),
    ensures
        queued(q.drop_first(), p, level),
{
    let j = choose|j: int| 0 <= j < q.len() && #[trigger] q[j] == (Pending { pos: p, level });
    assert(q.drop_first()[j - 1] == (Pending { pos: p, level }));
}

/// `grown` composes.
pub proof fn lemma_grown_trans(a: World, b: World, d: World, c: int)
    requires
        grown(a, b, c),
        grown(b, d, c),
    ensures
        grown(a, d, c),
{
    assert forall|p: Pos| #[trigger] d.loaded(p) == a.loaded(p) by {
        assert(b.loaded(p) == a.loaded(p));
    }
    assert forall|p: Pos| #[trigger] d.voxel(p) == a.voxel(p) by {
        assert(b.voxel(p) == a.voxel(p));
    }
    assert forall|p: Pos| #[trigger] d.light(p, c) >= a.light(p, c) by {
        assert(b.light(p, c) >= a.light(p, c));
    }
    assert forall|p: Pos, o: int| 0 <= o < 4 && o != c implies #[trigger] d.light(p, o) == a.light(
        p,
        o,
    ) by {
        assert(b.light(p, o) == a.light(p, o));
    }
}

/// Visiting the first `k` neighbours keeps the light on its way to rest.
pub proof fn lemma_add_visits(
    s: LightState,
    c: int,
    sources: Set<Pos>,
    bound: spec_fn(Pos) -> int,
    e: Pending,
    k: int,
)
    requires
        0 <= c < 4,
        0 <= k <= 6,
        gentle(bound),
        visiting(s, c, sources, bound, e, 0),
    ensures
        visiting(add_visits(s, c, e, k), c, sources, bound, e, k),
        grown(s.world, add_visits(s, c, e, k).world, c),
        lit_in_air(s.world, c) ==> lit_in_air(add_visits(s, c, e, k).world, c),
    decreases k,
{
    if k > 0 {
        lemma_add_visits(s, c, sources, bound, e, k - 1);
        let t = add_visits(s, c, e, k - 1);
        lemma_add_visit(t, c, sources, bound, e, k - 1);
        lemma_grown_trans(s.world, t.world, add_visit(t, c, e, k - 1).world, c);
    }
}

/// An addition step keeps the light on its way to rest.
#[verifier::rlimit(40)]
pub proof fn lemma_add_step(s: LightState, c: int, sources: Set<Pos>, bound: spec_fn(Pos) -> int)
    requires
        0 <= c < 4,
        gentle(bound),
        spreading(s, c, sources, bound),
        s.add.len() > 0,
    ensures
        spreading(add_step(s, c), c, sources, bound),
        grown(s.world, add_step(s, c).world, c),
        lit_in_air(s.world, c) ==> lit_in_air(add_step(s, c).world, c),
{
    let w = s.world;
    let e = s.add[0];
    let rest = LightState { add: s.add.drop_first(), ..s };
    assert(fresh(w, c, rest.add)) by {
        assert forall|j: int| 0 <= j < rest.add.len() implies (#[trigger] rest.add[j]).level
            <= w.light(rest.add[j].pos, c) by {
            assert(rest.add[j] == s.add[j + 1]);
        }
    }
    assert forall|p: Pos|
        p != e.pos || e.level != w.light(p, c) || e.level <= 1 implies #[trigger] settled(w, c, p)
        || queued(rest.add, p, w.light(p, c)) by {
        if !settled(w, c, p) {
            assert(queued(s.add, p, w.light(p, c)));
            let j = choose|j: int|
                0 <= j < s.add.len() && #[trigger] s.add[j] == (Pending {
                    pos: p,
                    level: w.light(p, c),
                });
            if j == 0 {
                assert(e.level <= 1);
                assert(false);
            } else {
                assert(rest.add[j - 1] == s.add[j]);
            }
        }
    }
    if e.level > 1 {
        assert(e.level <= w.light(e.pos, c));
        assert(visiting(rest, c, sources, bound, e, 0));
        lemma_add_visits(rest, c, sources, bound, e, 6);
        let t = add_visits(rest, c, e, 6);
        assert(settled(t.world, c, e.pos) || queued(t.add, e.pos, t.world.light(e.pos, c)));
    }
}

/// Draining the additions brings the light to rest: what was on its way
/// ends settled, supported and within its bound, and on the way no light
/// has shrunk.
pub proof fn lemma_drain_additions(
    s: LightState,
    c: int,
    sources: Set<Pos>,
    bound: spec_fn(Pos) -> int,
)
    requires
        0 <= c < 4,
        gentle(bound),
        spreading(s, c, sources, bound),
    ensures
        spreading(drain_additions(s, c), c, sources, bound),
        drain_additions(s, c).add.len() == 0,
        at_rest(drain_additions(s, c).world, c, sources),
        grown(s.world, drain_additions(s, c).world, c),
        lit_in_air(s.world, c) ==> lit_in_air(drain_additions(s, c).world, c),
    decreases queue_weight(s.add),
{
    if s.add.len() > 0 {
        lemma_add_step_weight(s, c);
        lemma_add_step(s, c, sources, bound);
        let t = add_step(s, c);
        lemma_drain_additions(t, c, sources, bound);
        lemma_grown_trans(s.world, t.world, drain_additions(t, c).world, c);
    } else {
        assert forall|p: Pos| #[trigger] settled(s.world, c, p) by {
            assert(settled(s.world, c, p) || queued(s.add, p, s.world.light(p, c)));
        }
    }
}

/// The brightest neighbour is at least as bright as each neighbour and as
/// bright as one of them, if any is lit.
pub proof fn lemma_brightest(w: World, c: int, p: Pos, k: int)
    requires
        0 <= k <= 6,
    ensures
        forall|i: int| 0 <= i < k ==> w.light(#[trigger] neighbor(p, i), c) <= brightest_of(w, c, p, k),
        brightest_of(w, c, p, k) == 0 || exists|i: int|
            0 <= i < k && w.light(#[trigger] neighbor(p, i), c) == brightest_of(w, c, p, k),
    decreases k,
{
    if k > 0 {
        lemma_brightest(w, c, p, k - 1);
        let b = brightest_of(w, c, p, k - 1);
        if w.light(neighbor(p, k - 1), c) > b {
        } else if b != 0 {
            let i = choose|i: int| 0 <= i < k - 1 && w.light(#[trigger] neighbor(p, i), c) == b;
            assert(0 <= i < k && w.light(neighbor(p, i), c) == brightest_of(w, c, p, k));
        }
    }
}

/// Attenuation: where the light is at rest, air that is no source holds
/// exactly one level less than its brightest neighbour, and is dark where
/// no neighbour holds more than one level.
pub proof fn lemma_attenuation(w: World, c: int, sources: Set<Pos>, p: Pos)
    requires
        at_rest(w, c, sources),
        w.passable(p),
        !sources.contains(p),
    ensures
        w.light(p, c) == if brightest_neighbor(w, c, p) >= 1 {
            brightest_neighbor(w, c, p) - 1
        } else {
            0
        },
{
    lemma_brightest(w, c, p, 6);
    let b = brightest_neighbor(w, c, p);
    if w.light(p, c) >= 1 {
        assert(supported(w, c, p));
    }
    if b != 0 {
        let i = choose|i: int| 0 <= i < 6 && w.light(#[trigger] neighbor(p, i), c) == b;
        let m = neighbor(p, i);
        lemma_neighbor(p, i);
        assert(settled(w, c, m));
        assert(w.passable(neighbor(m, opposite(i))));
    }
}

/// Light at rest needs a source: without one, every voxel is dark.
pub proof fn lemma_rest_without_source(w: World, c: int, p: Pos)
    requires
        0 <= c < 4,
        at_rest(w, c, Set::empty()),
    ensures
        w.light(p, c) == 0,
    decreases 16 - w.light(p, c),
{
    lemma_light_range(w, c, p);
    if w.light(p, c) >= 1 {
        assert(supported(w, c, p));
        let i = choose|i: int| 0 <= i < 6 && w.light(#[trigger] neighbor(p, i), c) > w.light(p, c);
        lemma_light_range(w, c, neighbor(p, i));
        lemma_rest_without_source(w, c, neighbor(p, i));
    }
}

/// A solver with nothing queued, looking at the world `w`.
pub open spec fn idle(w: World) -> LightState {
    LightState { world: w, rem: Seq::empty(), add: Seq::empty() }
}

/// Where every voxel is dark, the light is at rest without any source.
pub proof fn lemma_dark_world_at_rest(w: World, c: int)
    requires
        w.wf(),
        forall|p: Pos| w.light(p, c) == 0,
    ensures
        at_rest(w, c, Set::empty()),
{
    assert forall|p: Pos| #[trigger] settled(w, c, p) by {
        assert(w.light(p, c) == 0);
    }
}

/// Placing a level at a loaded voxel that holds no more puts light at rest
/// on its way to rest again, with the voxel as one more source.
#[verifier::rlimit(40)]
pub proof fn lemma_seed(
    w: World,
    c: int,
    sources: Set<Pos>,
    p: Pos,
    level: i32,
    bound: spec_fn(Pos) -> int,
)
    requires
        0 <= c < 4,
        at_rest(w, c, sources),
        w.loaded(p),
        2 <= level <= 15,
        w.light(p, c) <= level <= bound(p),
        forall|q: Pos| w.light(q, c) <= #[trigger] bound(q),
    ensures
        spreading(add_light(idle(w), c, p, Some(level)), c, sources.insert(p), bound),
        grown(w, add_light(idle(w), c, p, Some(level)).world, c),
        add_light(idle(w), c, p, Some(level)).world.light(p, c) == level,
        lit_in_air(w, c) && w.passable(p) ==> lit_in_air(
            add_light(idle(w), c, p, Some(level)).world,
            c,
        ),
{
    let s = add_light(idle(w), c, p, Some(level));
    let stored = (level as int % 256) as u8;
    let x = sources.insert(p);
    let v = s.world;
    w.lemma_with_light(p, c, stored);
    assert(s.add =~= seq![Pending { pos: p, level: stored }]);
    assert(s.add[0] == (Pending { pos: p, level: stored }));
    assert(forall|q: Pos| v.passable(q) == w.passable(q));
    assert(forall|q: Pos| q != p ==> v.light(q, c) == w.light(q, c));
    assert(v.light(p, c) == stored);
    assert(fresh(v, c, s.add));
    assert forall|q: Pos| #[trigger] settled(v, c, q) || queued(s.add, q, v.light(q, c)) by {
        if q != p {
            assert(settled(w, c, q));
            assert forall|i: int| 0 <= i < 6 && v.passable(#[trigger] neighbor(q, i)) implies v.light(
                neighbor(q, i),
                c,
            ) + 1 >= v.light(q, c) by {
                assert(w.passable(neighbor(q, i)));
                assert(v.light(neighbor(q, i), c) >= w.light(neighbor(q, i), c));
            }
        }
    }
    assert forall|q: Pos| !x.contains(q) && v.light(q, c) >= 1 implies #[trigger] supported(
        v,
        c,
        q,
    ) by {
        assert(q != p);
        assert(supported(w, c, q));
        let i = choose|i: int| 0 <= i < 6 && w.light(#[trigger] neighbor(q, i), c) > w.light(q, c);
        assert(v.light(neighbor(q, i), c) >= w.light(neighbor(q, i), c));
    }
    assert forall|q: Pos| v.light(q, c) <= #[trigger] bound(q) by {
        if q != p {
            assert(w.light(q, c) <= bound(q));
        }
    }
    assert(grown(w, v, c));
    if lit_in_air(w, c) && w.passable(p) {
        assert forall|q: Pos| v.light(q, c) >= 1 implies #[trigger] v.passable(q) by {
            if q != p {
                assert(w.passable(q));
            }
        }
    }
}

/// Attenuation holds of every state that additions lead to: from light at
/// rest, placing at a loaded voxel `p` a level of 2 to 15 that is no less
/// than what `p` holds, and solving, the light comes to rest again, with
/// `p` as one more source; no light has shrunk on the way, and light that
/// sat in air only still does if `p` holds air.
pub proof fn lemma_add_then_solve_at_rest(
    w: World,
    c: int,
    sources: Set<Pos>,
    p: Pos,
    level: i32,
)
    requires
        0 <= c < 4,
        at_rest(w, c, sources),
        w.loaded(p),
        2 <= level <= 15,
        w.light(p, c) <= level,
    ensures
        at_rest(solve_state(add_light(idle(w), c, p, Some(level)), c).world, c, sources.insert(p)),
        grown(w, solve_state(add_light(idle(w), c, p, Some(level)), c).world, c),
        solve_state(add_light(idle(w), c, p, Some(level)), c).world.light(p, c) >= level,
        lit_in_air(w, c) && w.passable(p) ==> lit_in_air(
            solve_state(add_light(idle(w), c, p, Some(level)), c).world,
            c,
        ),
{
    let s = add_light(idle(w), c, p, Some(level));
    let bound = |q: Pos| 15int;
    assert forall|q: Pos| w.light(q, c) <= #[trigger] bound(q) by {
        lemma_light_range(w, c, q);
    }
    lemma_seed(w, c, sources, p, level, bound);
    assert(drain_removals(s, c) == s);
    lemma_drain_additions(s, c, sources.insert(p), bound);
    lemma_grown_trans(w, s.world, drain_additions(s, c).world, c);
}

/// A channel holds at most 15.
pub proof fn lemma_light_range(w: World, c: int, p: Pos)
    requires
        0 <= c < 4,
    ensures
        w.light(p, c) <= 15,
{
    if w.loaded(p) {
        crate::lighting::light_map::lemma_with_channel(w.lights[p], c, 0, c);
    }
}

} // verus!
