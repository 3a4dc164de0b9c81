//! Flood fill of one light channel: what `add`, `remove` and `solve` do to
//! the world, as functions on a flat grid, and the solver that does it.
use vstd::prelude::*;
use std::collections::VecDeque;
use crate::voxels::chunks::{Chunks, Pos, World};

verus! {

/// A queued voxel: its world position and the light level it had when it
/// was queued.
#[derive(Clone, Copy, Debug)]
pub struct LightEntry {
    pub x: i32,
    pub y: i32,
    pub z: i32,
    pub light: u8,
}

/// A queued voxel on the integer grid.
pub ghost struct Pending {
    pub pos: Pos,
    pub level: u8,
}

impl View for LightEntry {
    type V = Pending;

    open spec fn view(&self) -> Pending {
        Pending { pos: Pos { x: self.x as int, y: self.y as int, z: self.z as int }, level: self.light }
    }
}

/// The entries of a queue, front first, on the integer grid.
pub open spec fn pending_seq(q: Seq<LightEntry>) -> Seq<Pending> {
    Seq::new(q.len(), |i: int| q[i]@)
}

/// The `i`-th of the six axis neighbours of `p`, in the order +z, -z, +y,
/// -y, +x, -x.
pub open spec fn neighbor(p: Pos, i: int) -> Pos {
    if i == 0 {
        Pos { z: p.z + 1, ..p }
    } else if i == 1 {
        Pos { z: p.z - 1, ..p }
    } else if i == 2 {
        Pos { y: p.y + 1, ..p }
    } else if i == 3 {
        Pos { y: p.y - 1, ..p }
    } else if i == 4 {
        Pos { x: p.x + 1, ..p }
    } else {
        Pos { x: p.x - 1, ..p }
    }
}

/// The light of one channel together with the work that is still queued:
/// the world, the removal queue and the addition queue, front first.
pub ghost struct LightState {
    pub world: World,
    pub rem: Seq<Pending>,
    pub add: Seq<Pending>,
}

/// `add` with a level: levels of at most 1 cannot spread and are dropped;
/// any other level is written at `p` (its low four bits) and queued for
/// spreading.
pub open spec fn seed_light(s: LightState, c: int, p: Pos, level: int) -> LightState {
    if level <= 1 {
        s
    } else {
        let stored = (level % 256) as u8;
        LightState {
            world: s.world.with_light(p, c, stored),
            add: s.add.push(Pending { pos: p, level: stored }),
            ..s
        }
    }
}

/// `add`: with a level, [`seed_light`]; without one, the light that `p`
/// holds now is queued again.
pub open spec fn add_light(s: LightState, c: int, p: Pos, emission: Option<i32>) -> LightState {
    match emission {
        Some(level) => seed_light(s, c, p, level as int),
        None => seed_light(s, c, p, s.world.light(p, c) as int),
    }
}

/// `remove`: a lit voxel goes dark at once and is queued, with the light it
/// had, for the removal of what it lit. A dark or unloaded voxel changes
/// nothing.
pub open spec fn remove_light(s: LightState, c: int, p: Pos) -> LightState {
    let light = s.world.light(p, c);
    if light == 0 {
        s
    } else {
        LightState {
            world: s.world.with_light(p, c, 0),
            rem: s.rem.push(Pending { pos: p, level: light }),
            ..s
        }
    }
}

/// One neighbour of a removed voxel `e`. A neighbour that holds exactly one
/// level less was lit by `e`: it goes dark and is queued for removal. One
/// that holds at least the level of `e` has a source of its own: it is
/// queued for addition, to light the darkened region again. Any other is
/// left alone.
pub open spec fn remove_visit(s: LightState, c: int, e: Pending, i: int) -> LightState {
    let n = neighbor(e.pos, i);
    let light = s.world.light(n, c);
    if !s.world.loaded(n) {
        s
    } else if light != 0 && light == e.level - 1 {
        LightState {
            world: s.world.with_light(n, c, 0),
            rem: s.rem.push(Pending { pos: n, level: light }),
            ..s
        }
    } else if light >= e.level {
        LightState { add: s.add.push(Pending { pos: n, level: light }), ..s }
    } else {
        s
    }
}

/// The first `k` neighbours of a removed voxel, visited in order.
pub open spec fn remove_visits(s: LightState, c: int, e: Pending, k: int) -> LightState
    decreases k,
{
    if k <= 0 {
        s
    } else {
        remove_visit(remove_visits(s, c, e, k - 1), c, e, k - 1)
    }
}

/// Takes the front of the removal queue and visits its six neighbours.
pub open spec fn remove_step(s: LightState, c: int) -> LightState
    recommends
        s.rem.len() > 0,
{
    remove_visits(LightState { rem: s.rem.drop_first(), ..s }, c, s.rem[0], 6)
}

/// One neighbour of a spreading voxel `e`. Air that holds at least two
/// levels less than `e` takes one level less than `e` and is queued to
/// spread further.
pub open spec fn add_visit(s: LightState, c: int, e: Pending, i: int) -> LightState {
    let n = neighbor(e.pos, i);
    if s.world.passable(n) && s.world.light(n, c) + 2 <= e.level {
        let level = (e.level - 1) as u8;
        LightState {
            world: s.world.with_light(n, c, level),
            add: s.add.push(Pending { pos: n, level }),
            ..s
        }
    } else {
        s
    }
}

/// The first `k` neighbours of a spreading voxel, visited in order.
pub open spec fn add_visits(s: LightState, c: int, e: Pending, k: int) -> LightState
    decreases k,
{
    if k <= 0 {
        s
    } else {
        add_visit(add_visits(s, c, e, k - 1), c, e, k - 1)
    }
}

/// Takes the front of the addition queue; a level above 1 spreads to the six
/// neighbours.
pub open spec fn add_step(s: LightState, c: int) -> LightState
    recommends
        s.add.len() > 0,
{
    let rest = LightState { add: s.add.drop_first(), ..s };
    if s.add[0].level <= 1 {
        rest
    } else {
        add_visits(rest, c, s.add[0], 6)
    }
}

/// 7 to the power `level`: the weight of a queued entry. An entry makes way
/// for at most six entries of the next lower level, which together weigh less.
pub open spec fn level_weight(level: nat) -> nat
    decreases level,
{
    if level == 0 {
        1
    } else {
        7 * level_weight((level - 1) as nat)
    }
}

/// The summed weight of a queue, which every step of a drain lowers.
pub open spec fn queue_weight(q: Seq<Pending>) -> nat
    decreases q.len(),
{
    if q.len() == 0 {
        0
    } else {
        queue_weight(q.drop_last()) + level_weight(q.last().level as nat)
    }
}

/// A pushed entry adds its weight to the queue's.
pub proof fn lemma_weight_push(q: Seq<Pending>, e: Pending)
    ensures
        queue_weight(q.push(e)) == queue_weight(q) + level_weight(e.level as nat),
{
    assert(q.push(e).drop_last() =~= q);
}

/// Taking the front entry takes its weight from the queue's.
pub proof fn lemma_weight_drop_first(q: Seq<Pending>)
    requires
        q.len() > 0,
    ensures
        queue_weight(q) == queue_weight(q.drop_first()) + level_weight(q[0].level as nat),
    decreases q.len(),
{
    if q.len() == 1 {
        assert(q.drop_last() =~= Seq::<Pending>::empty());
        assert(q.drop_first() =~= Seq::<Pending>::empty());
        assert(queue_weight(Seq::<Pending>::empty()) == 0);
    } else {
        lemma_weight_drop_first(q.drop_last());
        assert(q.drop_last().drop_first() =~= q.drop_first().drop_last());
    }
}

/// Every entry weighs at least 1.
pub proof fn lemma_level_weight(level: nat)
    ensures
        level_weight(level) >= 1,
    decreases level,
{
    if level > 0 {
        lemma_level_weight((level - 1) as nat);
    }
}

/// Visiting neighbours of a removed voxel adds at most one entry of the next
/// lower level per neighbour to the removal queue.
pub proof fn lemma_remove_visits_weight(s: LightState, c: int, e: Pending, k: int)
    requires
        0 <= k,
    ensures
        e.level == 0 ==> remove_visits(s, c, e, k).rem == s.rem,
        e.level > 0 ==> queue_weight(remove_visits(s, c, e, k).rem) <= queue_weight(s.rem) + k
            * level_weight((e.level - 1) as nat),
    decreases k,
{
    if k > 0 {
        lemma_remove_visits_weight(s, c, e, k - 1);
        let t = remove_visits(s, c, e, k - 1);
        let n = neighbor(e.pos, k - 1);
        let light = t.world.light(n, c);
        lemma_weight_push(t.rem, Pending { pos: n, level: light });
        if e.level > 0 {
            lemma_level_weight((e.level - 1) as nat);
            assert((k - 1) * level_weight((e.level - 1) as nat) + level_weight(
                (e.level - 1) as nat,
            ) == k * level_weight((e.level - 1) as nat)) by (nonlinear_arith);
        }
    }
}

/// A removal step lowers the weight of the removal queue.
pub proof fn lemma_remove_step_weight(s: LightState, c: int)
    requires
        s.rem.len() > 0,
    ensures
        queue_weight(remove_step(s, c).rem) < queue_weight(s.rem),
{
    let e = s.rem[0];
    let rest = LightState { rem: s.rem.drop_first(), ..s };
    lemma_weight_drop_first(s.rem);
    lemma_remove_visits_weight(rest, c, e, 6);
    lemma_level_weight(e.level as nat);
    if e.level > 0 {
        lemma_level_weight((e.level - 1) as nat);
    }
}

/// Visiting neighbours of a spreading voxel adds at most one entry of the
/// next lower level per neighbour to the addition queue, and leaves the
/// removal queue alone.
pub proof fn lemma_add_visits_weight(s: LightState, c: int, e: Pending, k: int)
    requires
        0 <= k,
        e.level > 1,
    ensures
        queue_weight(add_visits(s, c, e, k).add) <= queue_weight(s.add) + k * level_weight(
            (e.level - 1) as nat,
        ),
        add_visits(s, c, e, k).rem == s.rem,
    decreases k,
{
    if k > 0 {
        lemma_add_visits_weight(s, c, e, k - 1);
        let t = add_visits(s, c, e, k - 1);
        let n = neighbor(e.pos, k - 1);
        lemma_weight_push(t.add, Pending { pos: n, level: (e.level - 1) as u8 });
        lemma_level_weight((e.level - 1) as nat);
        assert((k - 1) * level_weight((e.level - 1) as nat) + level_weight((e.level - 1) as nat)
            == k * level_weight((e.level - 1) as nat)) by (nonlinear_arith);
    }
}

/// An addition step lowers the weight of the addition queue and leaves the
/// removal queue alone.
pub proof fn lemma_add_step_weight(s: LightState, c: int)
    requires
        s.add.len() > 0,
    ensures
        queue_weight(add_step(s, c).add) < queue_weight(s.add),
        add_step(s, c).rem == s.rem,
{
    let e = s.add[0];
    let rest = LightState { add: s.add.drop_first(), ..s };
    lemma_weight_drop_first(s.add);
    lemma_level_weight(e.level as nat);
    if e.level > 1 {
        lemma_add_visits_weight(rest, c, e, 6);
        lemma_level_weight((e.level - 1) as nat);
    }
}

/// Removal steps until the removal queue is empty.
pub open spec fn drain_removals(s: LightState, c: int) -> LightState
    decreases queue_weight(s.rem),
{
    if s.rem.len() == 0 {
        s
    } else {
        proof {
            lemma_remove_step_weight(s, c);
        }
        drain_removals(remove_step(s, c), c)
    }
}

/// Addition steps until the addition queue is empty.
pub open spec fn drain_additions(s: LightState, c: int) -> LightState
    decreases queue_weight(s.add),
{
    if s.add.len() == 0 {
        s
    } else {
        proof {
            lemma_add_step_weight(s, c);
        }
        drain_additions(add_step(s, c), c)
    }
}

/// `solve`: all removals first, then all additions.
pub open spec fn solve_state(s: LightState, c: int) -> LightState {
    drain_additions(drain_removals(s, c), c)
}

/// The `i`-th neighbour of `(x, y, z)`, unless a coordinate leaves the
/// 32-bit range.
fn neighbor_coords(x: i32, y: i32, z: i32, i: usize) -> (r: Option<(i32, i32, i32)>)
    requires
        i < 6,
    ensures
        ({
            let n = neighbor(Pos { x: x as int, y: y as int, z: z as int }, i as int);
            match r {
                Some((nx, ny, nz)) => n == Pos { x: nx as int, y: ny as int, z: nz as int },
                None => n.x < i32::MIN || n.x > i32::MAX || n.y < i32::MIN || n.y > i32::MAX || n.z
                    < i32::MIN || n.z > i32::MAX,
            }
        }),
{
    if i == 0 {
        if z < i32::MAX {
            Some((x, y, z + 1))
        } else {
            None
        }
    } else if i == 1 {
        if z > i32::MIN {
            Some((x, y, z - 1))
        } else {
            None
        }
    } else if i == 2 {
        if y < i32::MAX {
            Some((x, y + 1, z))
        } else {
            None
        }
    } else if i == 3 {
        if y > i32::MIN {
            Some((x, y - 1, z))
        } else {
            None
        }
    } else if i == 4 {
        if x < i32::MAX {
            Some((x + 1, y, z))
        } else {
            None
        }
    } else {
        if x > i32::MIN {
            Some((x - 1, y, z))
        } else {
            None
        }
    }
}

/// Every loaded voxel of a well-formed world has coordinates of 32 bits.
pub proof fn lemma_loaded_range(w: World, p: Pos)
    requires
        w.wf(),
        w.loaded(p),
    ensures
        0 <= p.x <= i32::MAX,
        0 <= p.y <= i32::MAX,
        0 <= p.z <= i32::MAX,
{
}

/// Spreads and withdraws the light of one channel by flood fill over the
/// world, through a queue of additions and a queue of removals.
pub struct LightSolver {
    add_queue: VecDeque<LightEntry>,
    rem_queue: VecDeque<LightEntry>,
    channel: i32,
}

impl LightSolver {
    /// The solver is bound to one of the four channels.
    pub closed spec fn wf(&self) -> bool {
        0 <= self.channel < 4
    }

    /// The channel this solver works on.
    pub closed spec fn channel(&self) -> int {
        self.channel as int
    }

    /// The addition queue, front first.
    pub closed spec fn additions(&self) -> Seq<Pending> {
        pending_seq(self.add_queue@)
    }

    /// The removal queue, front first.
    pub closed spec fn removals(&self) -> Seq<Pending> {
        pending_seq(self.rem_queue@)
    }

    /// The solver's queues together with the world they refer to.
    pub open spec fn state(&self, chunks: &Chunks) -> LightState {
        LightState { world: chunks@, rem: self.removals(), add: self.additions() }
    }

    /// A solver for `channel` with nothing queued.
    pub fn new(channel: i32) -> (r: Self)
        requires
            0 <= channel < 4,
        ensures
            r.wf(),
            r.channel() == channel,
            r.additions() == Seq::<Pending>::empty(),
            r.removals() == Seq::<Pending>::empty(),
    {
        let r = Self { add_queue: VecDeque::new(), rem_queue: VecDeque::new(), channel };
        assert(r.additions() =~= Seq::<Pending>::empty());
        assert(r.removals() =~= Seq::<Pending>::empty());
        r
    }

    /// Number of queued additions.
    pub fn add_queue_len(&self) -> (r: usize)
        ensures
            r == self.additions().len(),
    {
        self.add_queue.len()
    }

    /// Number of queued removals.
    pub fn rem_queue_len(&self) -> (r: usize)
        ensures
            r == self.removals().len(),
    {
        self.rem_queue.len()
    }

    fn push_addition(&mut self, entry: LightEntry)
        ensures
            final(self).wf() == old(self).wf(),
            final(self).channel() == old(self).channel(),
            final(self).additions() == old(self).additions().push(entry@),
            final(self).removals() == old(self).removals(),
    {
        self.add_queue.push_back(entry);
        assert(final(self).additions() =~= old(self).additions().push(entry@));
    }

    fn push_removal(&mut self, entry: LightEntry)
        ensures
            final(self).wf() == old(self).wf(),
            final(self).channel() == old(self).channel(),
            final(self).removals() == old(self).removals().push(entry@),
            final(self).additions() == old(self).additions(),
    {
        self.rem_queue.push_back(entry);
        assert(final(self).removals() =~= old(self).removals().push(entry@));
    }

    fn pop_addition(&mut self) -> (r: Option<LightEntry>)
        ensures
            final(self).wf() == old(self).wf(),
            final(self).channel() == old(self).channel(),
            final(self).removals() == old(self).removals(),
            match r {
                Some(e) => old(self).additions().len() > 0 && e@ == old(self).additions()[0]
                    && final(self).additions() == old(self).additions().drop_first(),
                None => old(self).additions().len() == 0 && final(self).additions() == old(
                    self,
                ).additions(),
            },
    {
        let r = self.add_queue.pop_front();
        if r.is_some() {
            assert(final(self).additions() =~= old(self).additions().drop_first());
        }
        r
    }

    fn pop_removal(&mut self) -> (r: Option<LightEntry>)
        ensures
            final(self).wf() == old(self).wf(),
            final(self).channel() == old(self).channel(),
            final(self).additions() == old(self).additions(),
            match r {
                Some(e) => old(self).removals().len() > 0 && e@ == old(self).removals()[0]
                    && final(self).removals() == old(self).removals().drop_first(),
                None => old(self).removals().len() == 0 && final(self).removals() == old(
                    self,
                ).removals(),
            },
    {
        let r = self.rem_queue.pop_front();
        if r.is_some() {
            assert(final(self).removals() =~= old(self).removals().drop_first());
        }
        r
    }

    /// Places light at `(x, y, z)` and queues it for spreading. With
    /// `Some(level)`, a level above 1 is written into the world (its low
    /// eight bits queued, its low four bits stored) and the owning chunk is
    /// flagged; a level of at most 1 is dropped. With `None`, the light that
    /// the voxel holds now is queued again in the same way.
    pub fn add(&mut self, x: i32, y: i32, z: i32, emission: Option<i32>, chunks: &mut Chunks)
        requires
            old(self).wf(),
            old(chunks).wf(),
        ensures
            final(self).wf(),
            final(chunks).wf(),
            final(self).channel() == old(self).channel(),
            final(self).state(final(chunks)) == add_light(
                old(self).state(old(chunks)),
                old(self).channel(),
                Pos { x: x as int, y: y as int, z: z as int },
                emission,
            ),
    {
        let channel: usize = self.channel as usize;
        let level: i32 = match emission {
            Some(level) => level,
            None => chunks.get_light(x as isize, y as isize, z as isize, channel) as i32,
        };
        if level <= 1 {
            return ;
        }
        let entry = LightEntry { x, y, z, light: (level % 256) as u8 };
        self.push_addition(entry);
        chunks.set_light(x as isize, y as isize, z as isize, channel, entry.light);
    }

    /// Queues the light that `(x, y, z)` holds now for spreading, as `add`
    /// does without a level.
    pub fn _add_light(&mut self, x: isize, y: isize, z: isize, chunks: &mut Chunks)
        requires
            old(self).wf(),
            old(chunks).wf(),
        ensures
            final(self).wf(),
            final(chunks).wf(),
            final(self).channel() == old(self).channel(),
            final(self).state(final(chunks)) == add_light(
                old(self).state(old(chunks)),
                old(self).channel(),
                Pos { x: x as int, y: y as int, z: z as int },
                None,
            ),
    {
        let light: u8 = chunks.get_light(x, y, z, self.channel as usize);
        if light <= 1 {
            return ;
        }
        proof {
            chunks.lemma_view_wf();
            lemma_loaded_range(chunks@, Pos { x: x as int, y: y as int, z: z as int });
        }
        self.add(x as i32, y as i32, z as i32, Some(light as i32), chunks);
    }

    /// Takes the light at `(x, y, z)` away: a lit voxel goes dark at once,
    /// its chunk is flagged, and the voxel is queued with the light it had.
    /// A dark voxel, or one outside the loaded world, changes nothing.
    pub fn remove(&mut self, x: isize, y: isize, z: isize, chunks: &mut Chunks)
        requires
            old(self).wf(),
            old(chunks).wf(),
        ensures
            final(self).wf(),
            final(chunks).wf(),
            final(self).channel() == old(self).channel(),
            final(self).state(final(chunks)) == remove_light(
                old(self).state(old(chunks)),
                old(self).channel(),
                Pos { x: x as int, y: y as int, z: z as int },
            ),
    {
        let channel: usize = self.channel as usize;
        let light: u8 = chunks.get_light(x, y, z, channel);
        if light == 0 {
            return ;
        }
        proof {
            chunks.lemma_view_wf();
            lemma_loaded_range(chunks@, Pos { x: x as int, y: y as int, z: z as int });
        }
        let entry = LightEntry { x: x as i32, y: y as i32, z: z as i32, light };
        self.push_removal(entry);
        chunks.set_light(x, y, z, channel, 0);
    }

    /// Visits the `i`-th neighbour of the removed voxel `entry`.
    fn remove_from_neighbor(&mut self, entry: LightEntry, i: usize, chunks: &mut Chunks)
        requires
            old(self).wf(),
            old(chunks).wf(),
            i < 6,
        ensures
            final(self).wf(),
            final(chunks).wf(),
            final(self).channel() == old(self).channel(),
            final(self).state(final(chunks)) == remove_visit(
                old(self).state(old(chunks)),
                old(self).channel(),
                entry@,
                i as int,
            ),
    {
        proof {
            chunks.lemma_view_wf();
        }
        let channel: usize = self.channel as usize;
        let ghost n = neighbor(entry@.pos, i as int);
        match neighbor_coords(entry.x, entry.y, entry.z, i) {
            Some((x, y, z)) => {
                let light: u8 = chunks.get_light(x as isize, y as isize, z as isize, channel);
                if chunks.get_chunk_by_voxel(x as isize, y as isize, z as isize).is_some() {
                    if light != 0 && light as i32 == entry.light as i32 - 1 {
                        self.push_removal(LightEntry { x, y, z, light });
                        chunks.set_light(x as isize, y as isize, z as isize, channel, 0);
                    } else if light >= entry.light {
                        self.push_addition(LightEntry { x, y, z, light });
                    }
                }
            },
            None => {
                proof {
                    if chunks@.loaded(n) {
                        lemma_loaded_range(chunks@, n);
                    }
                }
            },
        }
    }

    /// Visits the `i`-th neighbour of the spreading voxel `entry`.
    fn spread_to_neighbor(&mut self, entry: LightEntry, i: usize, chunks: &mut Chunks)
        requires
            old(self).wf(),
            old(chunks).wf(),
            i < 6,
            entry.light > 1,
        ensures
            final(self).wf(),
            final(chunks).wf(),
            final(self).channel() == old(self).channel(),
            final(self).state(final(chunks)) == add_visit(
                old(self).state(old(chunks)),
                old(self).channel(),
                entry@,
                i as int,
            ),
    {
        proof {
            chunks.lemma_view_wf();
        }
        let channel: usize = self.channel as usize;
        let ghost n = neighbor(entry@.pos, i as int);
        match neighbor_coords(entry.x, entry.y, entry.z, i) {
            Some((x, y, z)) => {
                let light: u8 = chunks.get_light(x as isize, y as isize, z as isize, channel);
                let passable: bool = match chunks.get_voxel(x as isize, y as isize, z as isize) {
                    Some(v) => v.id == 0,
                    None => false,
                };
                if passable && light + 2 <= entry.light {
                    chunks.set_light(x as isize, y as isize, z as isize, channel, entry.light - 1);
                    self.push_addition(LightEntry { x, y, z, light: entry.light - 1 });
                }
            },
            None => {
                proof {
                    if chunks@.loaded(n) {
                        lemma_loaded_range(chunks@, n);
                    }
                }
            },
        }
    }

    /// Brings the light to rest: drains the removal queue to the end, then
    /// the addition queue, each of which may grow while it is drained.
    pub fn solve(&mut self, chunks: &mut Chunks)
        requires
            old(self).wf(),
            old(chunks).wf(),
        ensures
            final(self).wf(),
            final(chunks).wf(),
            final(self).channel() == old(self).channel(),
            final(self).state(final(chunks)) == solve_state(
                old(self).state(old(chunks)),
                old(self).channel(),
            ),
            final(self).removals().len() == 0,
            final(self).additions().len() == 0,
    {
        let ghost c = self.channel();
        let ghost start = self.state(chunks);
        loop
            invariant
                self.wf(),
                chunks.wf(),
                self.channel() == c,
                drain_removals(self.state(chunks), c) == drain_removals(start, c),
            ensures
                self.removals().len() == 0,
            decreases queue_weight(self.removals()),
        {
            let ghost before = self.state(chunks);
            let entry = match self.pop_removal() {
                Some(entry) => entry,
                None => {
                    break ;
                },
            };
            let mut i: usize = 0;
            while i < 6
                invariant
                    i <= 6,
                    self.wf(),
                    chunks.wf(),
                    self.channel() == c,
                    self.state(chunks) == remove_visits(
                        LightState { rem: before.rem.drop_first(), ..before },
                        c,
                        entry@,
                        i as int,
                    ),
                decreases 6 - i,
            {
                self.remove_from_neighbor(entry, i, chunks);
                i += 1;
            }
            proof {
                lemma_remove_step_weight(before, c);
            }
        }
        let ghost middle = self.state(chunks);
        loop
            invariant
                self.wf(),
                chunks.wf(),
                self.channel() == c,
                self.removals().len() == 0,
                drain_additions(self.state(chunks), c) == drain_additions(middle, c),
            ensures
                self.additions().len() == 0,
            decreases queue_weight(self.additions()),
        {
            let ghost before = self.state(chunks);
            let entry = match self.pop_addition() {
                Some(entry) => entry,
                None => {
                    break ;
                },
            };
            if entry.light > 1 {
                let mut i: usize = 0;
                while i < 6
                    invariant
                        i <= 6,
                        entry.light > 1,
                        self.wf(),
                        chunks.wf(),
                        self.channel() == c,
                        self.state(chunks) == add_visits(
                            LightState { add: before.add.drop_first(), ..before },
                            c,
                            entry@,
                            i as int,
                        ),
                    decreases 6 - i,
                {
                    self.spread_to_neighbor(entry, i, chunks);
                    i += 1;
                }
            }
            proof {
                lemma_add_step_weight(before, c);
            }
        }
    }
}

} // verus!
