//! The removal of light from a world at rest brings it to rest again.
use vstd::prelude::*;
use crate::lighting::light_solver::{
    drain_additions, drain_removals, lemma_remove_step_weight, neighbor, queue_weight,
    remove_light, remove_step, remove_visit, remove_visits, solve_state, LightState, Pending,
};
use crate::lighting::settling::{
    at_rest, fresh, gentle, idle, lemma_drain_additions, lemma_light_range, lemma_neighbor,
    lemma_queued_push, lemma_queued_rest, lit_in_air, opposite, queued, settled, spreading,
    supported,
};
use crate::voxels::chunks::{Pos, World};

verus! {

/// Whether `z` is the voxel whose entry is being worked on, and its
/// neighbour in the direction opposite to `i` has not been visited yet.
pub open spec fn in_hole(hole: Option<(Pos, int)>, z: Pos, i: int) -> bool {
    hole matches Some(h) && h.0 == z && opposite(i) >= h.1
}

/// Whether the removal queue of `s` consists of entries of the levels `k`
/// and `k - 1`, the higher ones in front, each the light that its voxel
/// held in `before` and has lost.
pub open spec fn rem_layered(s: LightState, c: int, before: World, k: int) -> bool {
    &&& forall|j: int|
        0 <= j < s.rem.len() ==> {
            let e = #[trigger] s.rem[j];
            &&& (e.level == k || e.level == k - 1)
            &&& e.level >= 1
            &&& e.level == before.light(e.pos, c)
            &&& s.world.light(e.pos, c) == 0
        }
    &&& forall|i: int, j: int|
        0 <= i <= j < s.rem.len() ==> (#[trigger] s.rem[i]).level >= (#[trigger] s.rem[j]).level
}

/// The withdrawal of the light at `gone` from a world `before` in which the
/// light was at rest and sat in air only, with layer `k` being taken away.
/// Every voxel is dark or holds what it held. A voxel that has gone dark
/// held at least `k - 1`, and is queued for removal if it held just that.
/// Every queued addition holds the light of its voxel, at least `k`, so
/// that no removal to come will darken it. Where a lit voxel outshines air
/// next to it by more than one level, that air is queued for removal or
/// the lit voxel for addition. A lit voxel outside `sources` has every
/// neighbour that held one level more still lit or queued for removal.
pub open spec fn withdrawing(
    s: LightState,
    c: int,
    before: World,
    sources: Set<Pos>,
    gone: Pos,
    k: int,
    hole: Option<(Pos, int)>,
) -> bool {
    &&& 1 <= k <= 15
    &&& s.world.wf()
    &&& at_rest(before, c, sources)
    &&& lit_in_air(before, c)
    &&& s.world.light(gone, c) == 0
    &&& forall|q: Pos| #[trigger] s.world.passable(q) == before.passable(q)
    &&& forall|q: Pos| #[trigger]
        s.world.light(q, c) == 0 || s.world.light(q, c) == before.light(q, c)
    &&& rem_layered(s, c, before, k)
    &&& forall|q: Pos|
        #[trigger] s.world.light(q, c) == 0 && before.light(q, c) >= 1 ==> before.light(q, c) >= k
            - 1 && (before.light(q, c) == k - 1 ==> queued(s.rem, q, (k - 1) as u8))
    &&& forall|j: int|
        0 <= j < s.add.len() ==> (#[trigger] s.add[j]).level == s.world.light(s.add[j].pos, c)
            && s.add[j].level >= k
    &&& forall|q: Pos, i: int|
        0 <= i < 6 && s.world.light(q, c) >= 1 && before.passable(#[trigger] neighbor(q, i))
            && s.world.light(neighbor(q, i), c) + 1 < s.world.light(q, c) ==> queued(
            s.rem,
            neighbor(q, i),
            before.light(neighbor(q, i), c),
        ) || queued(s.add, q, s.world.light(q, c)) || in_hole(hole, neighbor(q, i), i)
    &&& forall|q: Pos, i: int|
        0 <= i < 6 && s.world.light(q, c) >= 1 && !sources.contains(q) && before.light(
            #[trigger] neighbor(q, i),
            c,
        ) == before.light(q, c) + 1 ==> s.world.light(neighbor(q, i), c) >= 1 || queued(
            s.rem,
            neighbor(q, i),
            before.light(neighbor(q, i), c),
        ) || in_hole(hole, neighbor(q, i), i)
}

/// Visiting one more neighbour of the entry that is being worked on.
#[verifier::rlimit(60)]
proof fn lemma_withdraw_visit(
    s: LightState,
    c: int,
    before: World,
    sources: Set<Pos>,
    gone: Pos,
    k: int,
    e: Pending,
    m: int,
)
    requires
        0 <= c < 4,
        0 <= m < 6,
        withdrawing(s, c, before, sources, gone, k, Some((e.pos, m))),
        e.level == k,
        before.light(e.pos, c) == k,
        s.world.light(e.pos, c) == 0,
    ensures
        withdrawing(remove_visit(s, c, e, m), c, before, sources, gone, k, Some((e.pos, m + 1))),
        remove_visit(s, c, e, m).world.light(e.pos, c) == 0,
{
    let w = s.world;
    let n = neighbor(e.pos, m);
    let t = remove_visit(s, c, e, m);
    let light = w.light(n, c);
    let here = Some((e.pos, m));
    let next = Some((e.pos, m + 1));
    lemma_neighbor(e.pos, m);
    assert(w.light(n, c) == 0 || w.light(n, c) == before.light(n, c));
    if w.loaded(n) && light != 0 && light == e.level - 1 {
        let v = t.world;
        let pushed = Pending { pos: n, level: light };
        w.lemma_with_light(n, c, 0);
        assert forall|q: Pos| #[trigger] v.passable(q) == before.passable(q) by {
            assert(w.passable(q) == before.passable(q));
        }
        assert forall|q: Pos| #[trigger] v.light(q, c) == 0 || v.light(q, c) == before.light(q, c) by {
            assert(w.light(q, c) == 0 || w.light(q, c) == before.light(q, c));
        }
        assert(rem_layered(t, c, before, k)) by {
            assert forall|j: int| 0 <= j < t.rem.len() implies {
                let f = #[trigger] t.rem[j];
                &&& (f.level == k || f.level == k - 1)
                &&& f.level >= 1
                &&& f.level == before.light(f.pos, c)
                &&& v.light(f.pos, c) == 0
            } by {
                if j < s.rem.len() {
                    assert(t.rem[j] == s.rem[j]);
                }
            }
            assert forall|i: int, j: int| 0 <= i <= j < t.rem.len() implies (#[trigger] t.rem[i]).level
                >= (#[trigger] t.rem[j]).level by {
                if j < s.rem.len() {
                    assert(t.rem[i] == s.rem[i] && t.rem[j] == s.rem[j]);
                } else if i < s.rem.len() {
                    assert(t.rem[i] == s.rem[i]);
                }
            }
        }
        assert forall|q: Pos| #[trigger] v.light(q, c) == 0 && before.light(q, c) >= 1 implies before.light(
            q,
            c,
        ) >= k - 1 && (before.light(q, c) == k - 1 ==> queued(t.rem, q, (k - 1) as u8)) by {
            lemma_queued_push(s.rem, pushed, q, (k - 1) as u8);
            if q != n {
                assert(w.light(q, c) == 0);
            }
        }
        assert forall|j: int| 0 <= j < t.add.len() implies (#[trigger] t.add[j]).level == v.light(
            t.add[j].pos,
            c,
        ) && t.add[j].level >= k by {
            assert(s.add[j].level == w.light(s.add[j].pos, c));
        }
        assert forall|q: Pos, i: int|
            0 <= i < 6 && v.light(q, c) >= 1 && before.passable(#[trigger] neighbor(q, i))
                && v.light(neighbor(q, i), c) + 1 < v.light(q, c) implies queued(
            t.rem,
            neighbor(q, i),
            before.light(neighbor(q, i), c),
        ) || queued(t.add, q, v.light(q, c)) || in_hole(next, neighbor(q, i), i) by {
            let z = neighbor(q, i);
            lemma_neighbor(q, i);
            lemma_queued_push(s.rem, pushed, z, before.light(z, c));
            if z != n {
                assert(w.light(q, c) >= 1 && w.light(z, c) + 1 < w.light(q, c));
                assert(queued(s.rem, z, before.light(z, c)) || queued(s.add, q, w.light(q, c))
                    || in_hole(here, z, i));
            }
        }
        assert forall|q: Pos, i: int|
            0 <= i < 6 && v.light(q, c) >= 1 && !sources.contains(q) && before.light(
                #[trigger] neighbor(q, i),
                c,
            ) == before.light(q, c) + 1 implies v.light(neighbor(q, i), c) >= 1 || queued(
            t.rem,
            neighbor(q, i),
            before.light(neighbor(q, i), c),
        ) || in_hole(next, neighbor(q, i), i) by {
            let z = neighbor(q, i);
            lemma_neighbor(q, i);
            lemma_queued_push(s.rem, pushed, z, before.light(z, c));
            if z != n {
                assert(w.light(q, c) >= 1);
                assert(w.light(z, c) >= 1 || queued(s.rem, z, before.light(z, c)) || in_hole(
                    here,
                    z,
                    i,
                ));
            }
        }
    } else if w.loaded(n) && light >= e.level {
        let pushed = Pending { pos: n, level: light };
        assert forall|j: int| 0 <= j < t.add.len() implies (#[trigger] t.add[j]).level == w.light(
            t.add[j].pos,
            c,
        ) && t.add[j].level >= k by {
            if j < s.add.len() {
                assert(t.add[j] == s.add[j]);
            }
        }
        assert forall|q: Pos, i: int|
            0 <= i < 6 && w.light(q, c) >= 1 && before.passable(#[trigger] neighbor(q, i))
                && w.light(neighbor(q, i), c) + 1 < w.light(q, c) implies queued(
            t.rem,
            neighbor(q, i),
            before.light(neighbor(q, i), c),
        ) || queued(t.add, q, w.light(q, c)) || in_hole(next, neighbor(q, i), i) by {
            let z = neighbor(q, i);
            lemma_neighbor(q, i);
            lemma_queued_push(s.add, pushed, q, w.light(q, c));
            assert(queued(s.rem, z, before.light(z, c)) || queued(s.add, q, w.light(q, c))
                || in_hole(here, z, i));
        }
        assert forall|q: Pos, i: int|
            0 <= i < 6 && w.light(q, c) >= 1 && !sources.contains(q) && before.light(
                #[trigger] neighbor(q, i),
                c,
            ) == before.light(q, c) + 1 implies w.light(neighbor(q, i), c) >= 1 || queued(
            t.rem,
            neighbor(q, i),
            before.light(neighbor(q, i), c),
        ) || in_hole(next, neighbor(q, i), i) by {
            let z = neighbor(q, i);
            lemma_neighbor(q, i);
            assert(w.light(z, c) >= 1 || queued(s.rem, z, before.light(z, c)) || in_hole(
                here,
                z,
                i,
            ));
            if in_hole(here, z, i) && opposite(i) == m {
                assert(q == n);
                assert(w.light(q, c) == before.light(q, c));
            }
        }
    } else {
        assert(t == s);
        assert forall|q: Pos, i: int|
            0 <= i < 6 && w.light(q, c) >= 1 && before.passable(#[trigger] neighbor(q, i))
                && w.light(neighbor(q, i), c) + 1 < w.light(q, c) implies queued(
            s.rem,
            neighbor(q, i),
            before.light(neighbor(q, i), c),
        ) || queued(s.add, q, w.light(q, c)) || in_hole(next, neighbor(q, i), i) by {
            let z = neighbor(q, i);
            lemma_neighbor(q, i);
            assert(queued(s.rem, z, before.light(z, c)) || queued(s.add, q, w.light(q, c))
                || in_hole(here, z, i));
            if in_hole(here, z, i) && opposite(i) == m {
                assert(q == n);
                assert(w.light(q, c) == before.light(q, c));
                assert(before.passable(q));
                assert(w.passable(q) == before.passable(q));
                assert(settled(before, c, e.pos));
                assert(before.passable(neighbor(e.pos, m)));
                assert(false);
            }
        }
        assert forall|q: Pos, i: int|
            0 <= i < 6 && w.light(q, c) >= 1 && !sources.contains(q) && before.light(
                #[trigger] neighbor(q, i),
                c,
            ) == before.light(q, c) + 1 implies w.light(neighbor(q, i), c) >= 1 || queued(
            s.rem,
            neighbor(q, i),
            before.light(neighbor(q, i), c),
        ) || in_hole(next, neighbor(q, i), i) by {
            let z = neighbor(q, i);
            lemma_neighbor(q, i);
            assert(w.light(z, c) >= 1 || queued(s.rem, z, before.light(z, c)) || in_hole(
                here,
                z,
                i,
            ));
            if in_hole(here, z, i) && opposite(i) == m {
                assert(q == n);
                assert(w.light(q, c) == before.light(q, c));
                assert(before.passable(q));
                assert(w.passable(q) == before.passable(q));
                assert(false);
            }
        }
    }
}

/// Visiting the first `m` neighbours of the entry that is being worked on.
proof fn lemma_withdraw_visits(
    s: LightState,
    c: int,
    before: World,
    sources: Set<Pos>,
    gone: Pos,
    k: int,
    e: Pending,
    m: int,
)
    requires
        0 <= c < 4,
        0 <= m <= 6,
        withdrawing(s, c, before, sources, gone, k, Some((e.pos, 0))),
        e.level == k,
        before.light(e.pos, c) == k,
        s.world.light(e.pos, c) == 0,
    ensures
        withdrawing(remove_visits(s, c, e, m), c, before, sources, gone, k, Some((e.pos, m))),
        remove_visits(s, c, e, m).world.light(e.pos, c) == 0,
    decreases m,
{
    if m > 0 {
        lemma_withdraw_visits(s, c, before, sources, gone, k, e, m - 1);
        lemma_withdraw_visit(
            remove_visits(s, c, e, m - 1),
            c,
            before,
            sources,
            gone,
            k,
            e,
            m - 1,
        );
    }
}

/// Working on the front entry, which is of layer `k`.
#[verifier::rlimit(60)]
proof fn lemma_withdraw_step(
    s: LightState,
    c: int,
    before: World,
    sources: Set<Pos>,
    gone: Pos,
    k: int,
)
    requires
        0 <= c < 4,
        withdrawing(s, c, before, sources, gone, k, None),
        s.rem.len() > 0,
        s.rem[0].level == k,
    ensures
        withdrawing(remove_step(s, c), c, before, sources, gone, k, None),
{
    let w = s.world;
    let e = s.rem[0];
    let rest = LightState { rem: s.rem.drop_first(), ..s };
    let here = Some((e.pos, 0int));
    assert(rem_layered(rest, c, before, k)) by {
        assert forall|j: int| 0 <= j < rest.rem.len() implies {
            let f = #[trigger] rest.rem[j];
            &&& (f.level == k || f.level == k - 1)
            &&& f.level >= 1
            &&& f.level == before.light(f.pos, c)
            &&& w.light(f.pos, c) == 0
        } by {
            assert(rest.rem[j] == s.rem[j + 1]);
        }
        assert forall|i: int, j: int| 0 <= i <= j < rest.rem.len() implies (#[trigger] rest.rem[i]).level
            >= (#[trigger] rest.rem[j]).level by {
            assert(rest.rem[i] == s.rem[i + 1] && rest.rem[j] == s.rem[j + 1]);
        }
    }
    assert forall|q: Pos| #[trigger] w.light(q, c) == 0 && before.light(q, c) >= 1 implies before.light(
        q,
        c,
    ) >= k - 1 && (before.light(q, c) == k - 1 ==> queued(rest.rem, q, (k - 1) as u8)) by {
        if before.light(q, c) == k - 1 {
            lemma_queued_rest(s.rem, q, (k - 1) as u8);
        }
    }
    assert forall|q: Pos, i: int|
        0 <= i < 6 && w.light(q, c) >= 1 && before.passable(#[trigger] neighbor(q, i)) && w.light(
            neighbor(q, i),
            c,
        ) + 1 < w.light(q, c) implies queued(
        rest.rem,
        neighbor(q, i),
        before.light(neighbor(q, i), c),
    ) || queued(rest.add, q, w.light(q, c)) || in_hole(here, neighbor(q, i), i) by {
        let z = neighbor(q, i);
        lemma_neighbor(q, i);
        if queued(s.rem, z, before.light(z, c)) && z != e.pos {
            lemma_queued_rest(s.rem, z, before.light(z, c));
        }
    }
    assert forall|q: Pos, i: int|
        0 <= i < 6 && w.light(q, c) >= 1 && !sources.contains(q) && before.light(
            #[trigger] neighbor(q, i),
            c,
        ) == before.light(q, c) + 1 implies w.light(neighbor(q, i), c) >= 1 || queued(
        rest.rem,
        neighbor(q, i),
        before.light(neighbor(q, i), c),
    ) || in_hole(here, neighbor(q, i), i) by {
        let z = neighbor(q, i);
        lemma_neighbor(q, i);
        if queued(s.rem, z, before.light(z, c)) && z != e.pos {
            lemma_queued_rest(s.rem, z, before.light(z, c));
        }
    }
    assert(withdrawing(rest, c, before, sources, gone, k, here));
    lemma_withdraw_visits(rest, c, before, sources, gone, k, e, 6);
    let t = remove_visits(rest, c, e, 6);
    let done = Some((e.pos, 6int));
    assert forall|q: Pos, i: int|
        0 <= i < 6 && t.world.light(q, c) >= 1 && before.passable(#[trigger] neighbor(q, i))
            && t.world.light(neighbor(q, i), c) + 1 < t.world.light(q, c) implies queued(
        t.rem,
        neighbor(q, i),
        before.light(neighbor(q, i), c),
    ) || queued(t.add, q, t.world.light(q, c)) by {
        assert(!in_hole(done, neighbor(q, i), i));
    }
    assert forall|q: Pos, i: int|
        0 <= i < 6 && t.world.light(q, c) >= 1 && !sources.contains(q) && before.light(
            #[trigger] neighbor(q, i),
            c,
        ) == before.light(q, c) + 1 implies t.world.light(neighbor(q, i), c) >= 1 || queued(
        t.rem,
        neighbor(q, i),
        before.light(neighbor(q, i), c),
    ) by {
        assert(!in_hole(done, neighbor(q, i), i));
    }
}

/// When the front entry is of layer `k - 1`, layer `k` is done and the
/// withdrawal goes on with layer `k - 1`.
#[verifier::rlimit(40)]
proof fn lemma_withdraw_next_layer(
    s: LightState,
    c: int,
    before: World,
    sources: Set<Pos>,
    gone: Pos,
    k: int,
)
    requires
        withdrawing(s, c, before, sources, gone, k, None),
        s.rem.len() > 0,
        s.rem[0].level == k - 1,
    ensures
        withdrawing(s, c, before, sources, gone, k - 1, None),
{
    assert forall|j: int| 0 <= j < s.rem.len() implies (#[trigger] s.rem[j]).level == k - 1 by {
        assert(s.rem[0].level >= s.rem[j].level);
    }
    assert(s.rem[0].level >= 1);
}

/// Once the removal queue is empty, what is left is light on its way to
/// rest by additions alone.
#[verifier::rlimit(40)]
proof fn lemma_withdraw_done(
    s: LightState,
    c: int,
    before: World,
    sources: Set<Pos>,
    gone: Pos,
    k: int,
)
    requires
        0 <= c < 4,
        withdrawing(s, c, before, sources, gone, k, None),
        s.rem.len() == 0,
    ensures
        spreading(s, c, sources.remove(gone), |q: Pos| 15int),
        lit_in_air(s.world, c),
{
    let w = s.world;
    let bound = |q: Pos| 15int;
    assert forall|q: Pos| #[trigger] settled(w, c, q) || queued(s.add, q, w.light(q, c)) by {
        if !settled(w, c, q) {
            let i = choose|i: int|
                0 <= i < 6 && w.passable(#[trigger] neighbor(q, i)) && !(w.light(neighbor(q, i), c)
                    + 1 >= w.light(q, c));
            assert(w.passable(neighbor(q, i)) == before.passable(neighbor(q, i)));
            assert(!queued(s.rem, neighbor(q, i), before.light(neighbor(q, i), c)));
        }
    }
    assert forall|q: Pos| !sources.remove(gone).contains(q) && w.light(q, c) >= 1 implies #[trigger] supported(
        w,
        c,
        q,
    ) by {
        assert(!sources.contains(q));
        assert(w.light(q, c) == before.light(q, c));
        assert(supported(before, c, q));
        let i = choose|i: int|
            0 <= i < 6 && before.light(#[trigger] neighbor(q, i), c) > before.light(q, c);
        let z = neighbor(q, i);
        lemma_neighbor(q, i);
        assert(before.passable(q));
        assert(settled(before, c, z));
        assert(before.passable(neighbor(z, opposite(i))));
        assert(before.light(z, c) == before.light(q, c) + 1);
        assert(!queued(s.rem, z, before.light(z, c)));
        assert(w.light(z, c) >= 1);
        assert(w.light(z, c) == 0 || w.light(z, c) == before.light(z, c));
    }
    assert forall|q: Pos| w.light(q, c) <= #[trigger] bound(q) by {
        lemma_light_range(w, c, q);
    }
    assert(fresh(w, c, s.add));
    assert forall|q: Pos| w.light(q, c) >= 1 implies #[trigger] w.passable(q) by {
        assert(w.light(q, c) == 0 || w.light(q, c) == before.light(q, c));
        assert(before.passable(q));
        assert(w.passable(q) == before.passable(q));
    }
}

/// Draining the removals of a withdrawal leaves light on its way to rest
/// by additions alone, in air only, with the blocks as they were.
proof fn lemma_withdraw_drain(
    s: LightState,
    c: int,
    before: World,
    sources: Set<Pos>,
    gone: Pos,
    k: int,
)
    requires
        0 <= c < 4,
        withdrawing(s, c, before, sources, gone, k, None),
    ensures
        spreading(drain_removals(s, c), c, sources.remove(gone), |q: Pos| 15int),
        lit_in_air(drain_removals(s, c).world, c),
        forall|q: Pos| #[trigger] drain_removals(s, c).world.passable(q) == before.passable(q),
    decreases queue_weight(s.rem),
{
    if s.rem.len() == 0 {
        lemma_withdraw_done(s, c, before, sources, gone, k);
    } else {
        lemma_remove_step_weight(s, c);
        assert(s.rem[0].level == k || s.rem[0].level == k - 1);
        if s.rem[0].level == k {
            lemma_withdraw_step(s, c, before, sources, gone, k);
            lemma_withdraw_drain(remove_step(s, c), c, before, sources, gone, k);
        } else {
            lemma_withdraw_next_layer(s, c, before, sources, gone, k);
            lemma_withdraw_step(s, c, before, sources, gone, k - 1);
            lemma_withdraw_drain(remove_step(s, c), c, before, sources, gone, k - 1);
        }
    }
}

/// Attenuation holds of every state that a removal leads to: from light at
/// rest that sits in air only, taking the light at `p` away and solving
/// brings the light to rest again, with `p` no longer a source; the light
/// still sits in air only, the blocks are as they were, and nothing stays
/// queued.
#[verifier::rlimit(40)]
pub proof fn lemma_remove_then_solve_at_rest(w: World, c: int, sources: Set<Pos>, p: Pos)
    requires
        0 <= c < 4,
        at_rest(w, c, sources),
        lit_in_air(w, c),
    ensures
        at_rest(solve_state(remove_light(idle(w), c, p), c).world, c, sources.remove(p)),
        lit_in_air(solve_state(remove_light(idle(w), c, p), c).world, c),
        forall|q: Pos| #[trigger]
            solve_state(remove_light(idle(w), c, p), c).world.passable(q) == w.passable(q),
        solve_state(remove_light(idle(w), c, p), c).add.len() == 0,
        solve_state(remove_light(idle(w), c, p), c).rem.len() == 0,
{
    let s = remove_light(idle(w), c, p);
    let bound = |q: Pos| 15int;
    let level = w.light(p, c);
    assert(gentle(bound));
    lemma_light_range(w, c, p);
    if level == 0 {
        assert(s == idle(w));
        assert(drain_removals(s, c) == s);
        assert forall|q: Pos| #[trigger] settled(w, c, q) || queued(s.add, q, w.light(q, c)) by {}
        assert forall|q: Pos| w.light(q, c) <= #[trigger] bound(q) by {
            lemma_light_range(w, c, q);
        }
        assert(spreading(s, c, sources.remove(p), bound));
    } else {
        let v = s.world;
        let first = Pending { pos: p, level };
        assert(w.passable(p));
        w.lemma_with_light(p, c, 0);
        assert(s.rem =~= seq![first]);
        assert(s.rem[0] == first);
        assert forall|q: Pos| #[trigger] v.light(q, c) == 0 || v.light(q, c) == w.light(q, c) by {}
        assert forall|q: Pos, i: int|
            0 <= i < 6 && v.light(q, c) >= 1 && w.passable(#[trigger] neighbor(q, i)) && v.light(
                neighbor(q, i),
                c,
            ) + 1 < v.light(q, c) implies queued(s.rem, neighbor(q, i), w.light(neighbor(q, i), c))
            || queued(s.add, q, v.light(q, c)) by {
            assert(settled(w, c, q));
        }
        assert forall|q: Pos, i: int|
            0 <= i < 6 && v.light(q, c) >= 1 && !sources.contains(q) && w.light(
                #[trigger] neighbor(q, i),
                c,
            ) == w.light(q, c) + 1 implies v.light(neighbor(q, i), c) >= 1 || queued(
            s.rem,
            neighbor(q, i),
            w.light(neighbor(q, i), c),
        ) by {}
        assert(rem_layered(s, c, w, level as int));
        assert(withdrawing(s, c, w, sources, p, level as int, None));
        lemma_withdraw_drain(s, c, w, sources, p, level as int);
    }
    let t = drain_removals(s, c);
    lemma_drain_additions(t, c, sources.remove(p), bound);
    let u = drain_additions(t, c);
    assert forall|q: Pos| #[trigger] u.world.passable(q) == w.passable(q) by {
        assert(u.world.voxel(q) == t.world.voxel(q));
        assert(t.world.passable(q) == w.passable(q));
    }
}

} // verus!
