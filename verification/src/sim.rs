//! The sand simulator: per-tick movement and settling of grains.
//!
//! Each in-flight grain is advanced by one cell per tick.  A grain falls
//! straight down when the cell below is free, otherwise slides down-left,
//! then down-right, and settles in place when all three are blocked.  The
//! per-tick pass over the active grains reports every effect as an [`Event`],
//! which is the whole interface a presentation layer needs.

use vstd::prelude::*;
use crate::grid::{Cell, Grid, GridModel, lemma_put_cell, lemma_put_idempotent};

verus! {

/// One unit of falling sand: a stable identifier plus its current position.
#[derive(Clone, Copy, PartialEq, Eq, Debug, Structural)]
pub struct Grain {
    pub id: usize,
    pub x: usize,
    pub y: usize,
}

/// What one grain did during a tick, reported to the presentation layer.
#[derive(Clone, Copy, PartialEq, Eq, Debug, Structural)]
pub enum Event {
    /// The grain is still falling and now stands at `(x, y)`.
    Moved { id: usize, x: usize, y: usize },
    /// The grain came to rest at `(x, y)` and left the active set.
    Settled { id: usize, x: usize, y: usize },
    /// The grain fell past the open bottom boundary at `(x, y)`.
    Voided { id: usize, x: usize, y: usize },
}

/// An internal-consistency failure: a grain would have to inspect a cell
/// outside the grid.  The grid was not built wide enough.
#[derive(Clone, Copy, PartialEq, Eq, Debug, Structural)]
pub enum SimError {
    GrainOutOfBounds,
}

/// A cell a grain may move into.  The source marker is not an obstacle.
pub open spec fn passable(c: Cell) -> bool {
    c == Cell::Empty || c == Cell::Source
}

/// Executable form of [`passable`].
pub fn is_passable(c: Cell) -> (b: bool)
    ensures
        b == passable(c),
{
    c == Cell::Empty || c == Cell::Source
}

/// What the movement rule decides for one grain in one tick.
pub ghost enum MoveOutcome {
    /// The grain's own cell is already settled sand (defensive check); the
    /// grain is finalized without writing the grid again.
    AlreadySettled,
    /// There is no cell below: the grain falls into the void.
    Void,
    /// The grain moves to `(x, y)`.
    To { x: int, y: int },
    /// All three cells below are blocked: the grain settles in place.
    Settle,
    /// A diagonal check would leave the grid: internal-consistency failure.
    OutOfBounds,
}

/// The per-tick movement rule for a single grain at `(x, y)`.
///
/// Straight down if free; else down-left; else down-right; else settle.
pub open spec fn grain_outcome(g: GridModel, x: int, y: int) -> MoveOutcome {
    if !g.in_bounds(y, x) {
        MoveOutcome::OutOfBounds
    } else if g.cell(y, x) == Cell::Sand {
        MoveOutcome::AlreadySettled
    } else if y + 1 >= g.height {
        MoveOutcome::Void
    } else if passable(g.cell(y + 1, x)) {
        MoveOutcome::To { x, y: y + 1 }
    } else if x == 0 {
        MoveOutcome::OutOfBounds
    } else if passable(g.cell(y + 1, x - 1)) {
        MoveOutcome::To { x: x - 1, y: y + 1 }
    } else if x + 1 >= g.width {
        MoveOutcome::OutOfBounds
    } else if passable(g.cell(y + 1, x + 1)) {
        MoveOutcome::To { x: x + 1, y: y + 1 }
    } else {
        MoveOutcome::Settle
    }
}

/// Executable counterpart of [`MoveOutcome`], with machine coordinates.
#[derive(Clone, Copy, PartialEq, Eq, Debug, Structural)]
pub enum GrainStep {
    AlreadySettled,
    Void,
    To { x: usize, y: usize },
    Settle,
    OutOfBounds,
}

impl GrainStep {
    /// The mathematical outcome this executable step stands for.
    pub open spec fn model(self) -> MoveOutcome {
        match self {
            GrainStep::AlreadySettled => MoveOutcome::AlreadySettled,
            GrainStep::Void => MoveOutcome::Void,
            GrainStep::To { x, y } => MoveOutcome::To { x: x as int, y: y as int },
            GrainStep::Settle => MoveOutcome::Settle,
            GrainStep::OutOfBounds => MoveOutcome::OutOfBounds,
        }
    }
}

/// Decide one grain's move against the current grid.
pub fn grain_step(grid: &Grid, x: usize, y: usize) -> (m: GrainStep)
    requires
        grid@.wf(),
    ensures
        m.model() == grain_outcome(grid@, x as int, y as int),
{
    let h = grid.height();
    let w = grid.width();
    if y >= h || x >= w {
        return GrainStep::OutOfBounds;
    }
    if grid.at(y, x) == Cell::Sand {
        return GrainStep::AlreadySettled;
    }
    if y + 1 >= h {
        return GrainStep::Void;
    }
    if is_passable(grid.at(y + 1, x)) {
        return GrainStep::To { x, y: y + 1 };
    }
    if x == 0 {
        return GrainStep::OutOfBounds;
    }
    if is_passable(grid.at(y + 1, x - 1)) {
        return GrainStep::To { x: x - 1, y: y + 1 };
    }
    if x + 1 >= w {
        return GrainStep::OutOfBounds;
    }
    if is_passable(grid.at(y + 1, x + 1)) {
        return GrainStep::To { x: x + 1, y: y + 1 };
    }
    GrainStep::Settle
}

/// What a whole pass over the active grains produces: the new grid, the
/// grains still falling (in the same relative order), and one event per
/// processed grain, in processing order.
pub ghost struct PassResult {
    pub grid: GridModel,
    pub active: Seq<Grain>,
    pub events: Seq<Event>,
}

/// One pass over the active grains, in spawn order.  Settles are committed
/// to the grid immediately, so later grains in the same tick see them.
/// `None` is the internal-consistency failure: some grain ran out of bounds.
pub open spec fn spec_pass(g: GridModel, grains: Seq<Grain>) -> Option<PassResult>
    decreases grains.len(),
{
    if grains.len() == 0 {
        Some(PassResult { grid: g, active: Seq::empty(), events: Seq::empty() })
    } else {
        let gr = grains[0];
        let rest = grains.drop_first();
        match grain_outcome(g, gr.x as int, gr.y as int) {
            MoveOutcome::OutOfBounds => None,
            MoveOutcome::AlreadySettled => match spec_pass(g, rest) {
                None => None,
                Some(p) => Some(
                    PassResult {
                        grid: p.grid,
                        active: p.active,
                        events: seq![Event::Settled { id: gr.id, x: gr.x, y: gr.y }] + p.events,
                    },
                ),
            },
            MoveOutcome::Void => match spec_pass(g, rest) {
                None => None,
                Some(p) => Some(
                    PassResult {
                        grid: p.grid,
                        active: p.active,
                        events: seq![Event::Voided { id: gr.id, x: gr.x, y: gr.y }] + p.events,
                    },
                ),
            },
            MoveOutcome::Settle => match spec_pass(
                g.put(gr.y as int, gr.x as int, Cell::Sand),
                rest,
            ) {
                None => None,
                Some(p) => Some(
                    PassResult {
                        grid: p.grid,
                        active: p.active,
                        events: seq![Event::Settled { id: gr.id, x: gr.x, y: gr.y }] + p.events,
                    },
                ),
            },
            MoveOutcome::To { x: nx, y: ny } => match spec_pass(g, rest) {
                None => None,
                Some(p) => Some(
                    PassResult {
                        grid: p.grid,
                        active: seq![Grain { id: gr.id, x: nx as usize, y: ny as usize }]
                            + p.active,
                        events: seq![Event::Moved { id: gr.id, x: nx as usize, y: ny as usize }]
                            + p.events,
                    },
                ),
            },
        }
    }
}

/// Advance every in-flight grain by one cell, in spawn order.
///
/// Settled grains write `Sand` into the grid and leave the active set; moved
/// grains stay with their new position; voided grains leave without a write.
/// The returned events list holds exactly one event per processed grain, in
/// processing order.  `Err` is the internal-consistency failure of a grain
/// needing a cell outside the grid; the grid keeps its dimensions either way.
pub fn move_all_sand_one_step(grid: &mut Grid, sand: &mut Vec<Grain>) -> (r: Result<
    Vec<Event>,
    SimError,
>)
    requires
        old(grid)@.wf(),
    ensures
        final(grid)@.wf(),
        final(grid)@.width == old(grid)@.width,
        final(grid)@.height == old(grid)@.height,
        match r {
            Ok(events) => spec_pass(old(grid)@, old(sand)@) == Some(
                PassResult { grid: final(grid)@, active: final(sand)@, events: events@ },
            ),
            Err(_) => spec_pass(old(grid)@, old(sand)@) is None && final(sand)@ == old(sand)@,
        },
{
    let ghost g0 = grid@;
    let ghost all = sand@;
    let mut events: Vec<Event> = Vec::new();
    let mut active: Vec<Grain> = Vec::new();
    let n = sand.len();
    let mut i: usize = 0;
    proof {
        assert(all.skip(0) =~= all);
        match spec_pass(g0, all) {
            None => {},
            Some(p) => {
                assert(Seq::<Grain>::empty() + p.active =~= p.active);
                assert(Seq::<Event>::empty() + p.events =~= p.events);
            },
        }
    }
    while i < n
        invariant
            i <= n,
            n == all.len(),
            g0 == old(grid)@,
            all == old(sand)@,
            sand@ == all,
            grid@.wf(),
            grid@.width == g0.width,
            grid@.height == g0.height,
            spec_pass(g0, all) == match spec_pass(grid@, all.skip(i as int)) {
                None => None::<PassResult>,
                Some(p) => Some(
                    PassResult {
                        grid: p.grid,
                        active: active@ + p.active,
                        events: events@ + p.events,
                    },
                ),
            },
        decreases n - i,
    {
        let gr = sand[i];
        let ghost g_pre = grid@;
        let ghost e_pre = events@;
        let ghost a_pre = active@;
        let ghost s_cur = all.skip(i as int);
        let ghost s_next = all.skip(i as int + 1);
        proof {
            assert(s_cur[0] == all[i as int]);
            assert(s_cur.drop_first() =~= s_next);
        }
        let step = grain_step(grid, gr.x, gr.y);
        match step {
            GrainStep::OutOfBounds => {
                proof {
                    assert(spec_pass(g_pre, s_cur) is None);
                }
                return Err(SimError::GrainOutOfBounds);
            },
            GrainStep::AlreadySettled => {
                let e = Event::Settled { id: gr.id, x: gr.x, y: gr.y };
                events.push(e);
                proof {
                    match spec_pass(g_pre, s_next) {
                        None => {},
                        Some(p2) => {
                            assert(e_pre + (seq![e] + p2.events) =~= e_pre.push(e) + p2.events);
                        },
                    }
                }
            },
            GrainStep::Void => {
                let e = Event::Voided { id: gr.id, x: gr.x, y: gr.y };
                events.push(e);
                proof {
                    match spec_pass(g_pre, s_next) {
                        None => {},
                        Some(p2) => {
                            assert(e_pre + (seq![e] + p2.events) =~= e_pre.push(e) + p2.events);
                        },
                    }
                }
            },
            GrainStep::Settle => {
                proof {
                    lemma_put_cell(grid@, gr.y as int, gr.x as int, Cell::Sand);
                }
                grid.put(gr.y, gr.x, Cell::Sand);
                let e = Event::Settled { id: gr.id, x: gr.x, y: gr.y };
                events.push(e);
                proof {
                    match spec_pass(g_pre.put(gr.y as int, gr.x as int, Cell::Sand), s_next) {
                        None => {},
                        Some(p2) => {
                            assert(e_pre + (seq![e] + p2.events) =~= e_pre.push(e) + p2.events);
                        },
                    }
                }
            },
            GrainStep::To { x: nx, y: ny } => {
                let g2 = Grain { id: gr.id, x: nx, y: ny };
                active.push(g2);
                let e = Event::Moved { id: gr.id, x: nx, y: ny };
                events.push(e);
                proof {
                    match spec_pass(g_pre, s_next) {
                        None => {},
                        Some(p2) => {
                            assert(e_pre + (seq![e] + p2.events) =~= e_pre.push(e) + p2.events);
                            assert(a_pre + (seq![g2] + p2.active) =~= a_pre.push(g2) + p2.active);
                        },
                    }
                }
            },
        }
        i = i + 1;
    }
    proof {
        assert(all.skip(n as int) =~= Seq::<Grain>::empty());
        match spec_pass(grid@, all.skip(n as int)) {
            None => {},
            Some(p) => {
                assert(active@ + p.active =~= active@);
                assert(events@ + p.events =~= events@);
            },
        }
    }
    *sand = active;
    Ok(events)
}

/// Spawn one new grain with the given identifier at the source coordinate.
pub fn add_sand(sand: &mut Vec<Grain>, id: usize, x: usize, y: usize)
    ensures
        final(sand)@ == old(sand)@.push(Grain { id, x, y }),
{
    sand.push(Grain { id, x, y });
}

/// The identifier an event reports.
pub open spec fn event_id(e: Event) -> usize {
    match e {
        Event::Moved { id, .. } => id,
        Event::Settled { id, .. } => id,
        Event::Voided { id, .. } => id,
    }
}

/// How many events of a tick report a settled grain.
pub open spec fn count_settled(ev: Seq<Event>) -> int
    decreases ev.len(),
{
    if ev.len() == 0 {
        0
    } else {
        count_settled(ev.drop_last()) + if ev.last() is Settled {
            1int
        } else {
            0int
        }
    }
}

/// How many events of a tick report a grain lost past the open bottom.
pub open spec fn count_voided(ev: Seq<Event>) -> int
    decreases ev.len(),
{
    if ev.len() == 0 {
        0
    } else {
        count_voided(ev.drop_last()) + if ev.last() is Voided {
            1int
        } else {
            0int
        }
    }
}

/// Event counts add up over concatenation.
proof fn lemma_counts_concat(a: Seq<Event>, b: Seq<Event>)
    ensures
        count_settled(a + b) == count_settled(a) + count_settled(b),
        count_voided(a + b) == count_voided(a) + count_voided(b),
    decreases b.len(),
{
    if b.len() == 0 {
        assert(a + b =~= a);
    } else {
        lemma_counts_concat(a, b.drop_last());
        assert((a + b).drop_last() =~= a + b.drop_last());
        assert((a + b).last() == b.last());
    }
}

/// The identifiers of a grain sequence.
pub open spec fn grain_ids(grains: Seq<Grain>) -> Seq<usize> {
    grains.map_values(|gr: Grain| gr.id)
}

/// What a pass guarantees structurally: the grid keeps its dimensions and
/// stays well formed; there is exactly one event per processed grain, in
/// order, carrying that grain's identifier; and every processed grain either
/// stays active or is accounted for by a settle or void event.
pub proof fn lemma_pass_facts(g: GridModel, grains: Seq<Grain>)
    requires
        g.wf(),
        spec_pass(g, grains) is Some,
    ensures
        ({
            let p = spec_pass(g, grains)->Some_0;
            &&& p.grid.wf()
            &&& p.grid.width == g.width
            &&& p.grid.height == g.height
            &&& p.events.len() == grains.len()
            &&& p.active.len() + count_settled(p.events) + count_voided(p.events)
                == grains.len()
            &&& forall|k: int|
                0 <= k < grains.len() ==> event_id(#[trigger] p.events[k]) == grains[k].id
            &&& forall|j: int|
                0 <= j < p.active.len() ==> grain_ids(grains).contains(
                    (#[trigger] p.active[j]).id,
                )
        }),
    decreases grains.len(),
{
    if grains.len() == 0 {
    } else {
        let p = spec_pass(g, grains)->Some_0;
        let gr = grains[0];
        let rest = grains.drop_first();
        let outcome = grain_outcome(g, gr.x as int, gr.y as int);
        let g1 = if outcome is Settle {
            g.put(gr.y as int, gr.x as int, Cell::Sand)
        } else {
            g
        };
        if outcome is Settle {
            lemma_put_cell(g, gr.y as int, gr.x as int, Cell::Sand);
        }
        lemma_pass_facts(g1, rest);
        let p2 = spec_pass(g1, rest)->Some_0;
        let e = p.events[0];
        assert(p.events =~= seq![e] + p2.events);
        lemma_counts_concat(seq![e], p2.events);
        assert(count_settled(seq![e].drop_last()) == 0);
        assert(count_voided(seq![e].drop_last()) == 0);
        assert forall|j: int| 0 <= j < p.active.len() implies grain_ids(grains).contains(
            (#[trigger] p.active[j]).id,
        ) by {
            if outcome is To && j == 0 {
                assert(grain_ids(grains)[0] == gr.id);
            } else {
                let jj = if outcome is To {
                    j - 1
                } else {
                    j
                };
                assert(p.active[j] == p2.active[jj]);
                let k = choose|k: int|
                    0 <= k < grain_ids(rest).len() && grain_ids(rest)[k] == p2.active[jj].id;
                assert(grain_ids(grains)[k + 1] == grain_ids(rest)[k]);
            }
        }
    }
}

/// Write-once occupancy: a pass never changes a cell that already holds
/// rock or settled sand.  Grains never stand on rock (they spawn at the
/// source and only ever move into passable cells), and a grain standing on
/// settled sand is finalized by the defensive check without writing.
pub proof fn lemma_pass_write_once(g: GridModel, grains: Seq<Grain>)
    requires
        g.wf(),
        spec_pass(g, grains) is Some,
        forall|k: int|
            0 <= k < grains.len() && g.in_bounds(
                (#[trigger] grains[k]).y as int,
                grains[k].x as int,
            ) ==> g.cell(grains[k].y as int, grains[k].x as int) != Cell::Rock,
    ensures
        ({
            let p = spec_pass(g, grains)->Some_0;
            forall|r: int, c: int|
                g.in_bounds(r, c) && (g.cell(r, c) == Cell::Rock || #[trigger] g.cell(r, c)
                    == Cell::Sand) ==> p.grid.cell(r, c) == g.cell(r, c)
        }),
    decreases grains.len(),
{
    if grains.len() == 0 {
    } else {
        let p = spec_pass(g, grains)->Some_0;
        let gr = grains[0];
        let rest = grains.drop_first();
        let outcome = grain_outcome(g, gr.x as int, gr.y as int);
        let g1 = if outcome is Settle {
            g.put(gr.y as int, gr.x as int, Cell::Sand)
        } else {
            g
        };
        if outcome is Settle {
            lemma_put_cell(g, gr.y as int, gr.x as int, Cell::Sand);
        }
        assert forall|k: int|
            0 <= k < rest.len() && g1.in_bounds(
            (#[trigger] rest[k]).y as int,
            rest[k].x as int,
        ) implies g1.cell(rest[k].y as int, rest[k].x as int) != Cell::Rock by {
            assert(rest[k] == grains[k + 1]);
            assert(g.in_bounds(rest[k].y as int, rest[k].x as int));
        }
        lemma_pass_write_once(g1, rest);
        assert forall|r: int, c: int|
            g.in_bounds(r, c) && (g.cell(r, c) == Cell::Rock || #[trigger] g.cell(r, c)
                == Cell::Sand) implies p.grid.cell(r, c) == g.cell(r, c) by {
            if outcome is Settle {
                assert(!(r == gr.y as int && c == gr.x as int));
                assert(g1.cell(r, c) == g.cell(r, c));
            }
        }
    }
}

/// Processing the same grain position twice never settles twice.
///
/// A grain that settles writes `Sand` into its cell exactly once; a second
/// evaluation of the same position finds the cell already settled, changes
/// nothing in the grid, and finalizes the grain by the defensive check rather
/// than by a second settle.  Together with [`crate::grid::lemma_put_idempotent`]
/// this makes settling idempotent.
pub proof fn lemma_settle_once(g: GridModel, x: int, y: int)
    requires
        g.wf(),
        grain_outcome(g, x, y) is Settle,
    ensures
        grain_outcome(g.put(y, x, Cell::Sand), x, y) == MoveOutcome::AlreadySettled,
        g.put(y, x, Cell::Sand).put(y, x, Cell::Sand) == g.put(y, x, Cell::Sand),
{
    lemma_put_cell(g, y, x, Cell::Sand);
    lemma_put_idempotent(g, y, x, Cell::Sand);
}

/// A tick never reports the same grain twice: with distinct grain
/// identifiers, a grain reported settled or voided is gone from the active
/// set, so no later tick can report it again.
pub proof fn lemma_finalized_grain_leaves(g: GridModel, grains: Seq<Grain>)
    requires
        g.wf(),
        spec_pass(g, grains) is Some,
        forall|k1: int, k2: int|
            0 <= k1 < k2 < grains.len() ==> (#[trigger] grains[k1]).id != (
            #[trigger] grains[k2]).id,
    ensures
        ({
            let p = spec_pass(g, grains)->Some_0;
            forall|k: int, j: int|
                0 <= k < grains.len() && 0 <= j < p.active.len() && ((#[trigger] p.events[k])
                    is Settled || p.events[k] is Voided) ==> (#[trigger] p.active[j]).id
                    != grains[k].id
        }),
    decreases grains.len(),
{
    if grains.len() == 0 {
    } else {
        let p = spec_pass(g, grains)->Some_0;
        let gr = grains[0];
        let rest = grains.drop_first();
        let outcome = grain_outcome(g, gr.x as int, gr.y as int);
        let g1 = if outcome is Settle {
            g.put(gr.y as int, gr.x as int, Cell::Sand)
        } else {
            g
        };
        if outcome is Settle {
            lemma_put_cell(g, gr.y as int, gr.x as int, Cell::Sand);
        }
        lemma_pass_facts(g1, rest);
        lemma_finalized_grain_leaves(g1, rest);
        let p2 = spec_pass(g1, rest)->Some_0;
        assert forall|k: int, j: int|
            0 <= k < grains.len() && 0 <= j < p.active.len() && ((#[trigger] p.events[k])
                is Settled || p.events[k] is Voided) implies (#[trigger] p.active[j]).id
            != grains[k].id by {
            if k == 0 {
                // The head grain was finalized, so the active set comes solely
                // from the rest, whose identifiers all differ from the head's.
                assert(p.active == p2.active);
                assert(grain_ids(rest).contains(p2.active[j].id));
                let kk = choose|kk: int|
                    0 <= kk < grain_ids(rest).len() && grain_ids(rest)[kk] == p2.active[j].id;
                assert(rest[kk] == grains[kk + 1]);
            } else {
                assert(p.events[k] == p2.events[k - 1]);
                if outcome is To && j == 0 {
                    lemma_pass_facts(g1, rest);
                    assert(event_id(p2.events[k - 1]) == rest[k - 1].id);
                    assert(rest[k - 1] == grains[k]);
                } else {
                    let jj = if outcome is To {
                        j - 1
                    } else {
                        j
                    };
                    assert(p.active[j] == p2.active[jj]);
                    assert(rest[k - 1] == grains[k]);
                }
            }
        }
    }
}

/// Event counts are non-negative and never exceed the number of events.
proof fn lemma_counts_bounds(ev: Seq<Event>)
    ensures
        0 <= count_settled(ev),
        0 <= count_voided(ev),
        count_settled(ev) + count_voided(ev) <= ev.len(),
    decreases ev.len(),
{
    if ev.len() > 0 {
        lemma_counts_bounds(ev.drop_last());
    }
}

/// Count how many events report a settled and a voided grain.
fn count_events(events: &Vec<Event>) -> (counts: (usize, usize))
    ensures
        counts.0 == count_settled(events@),
        counts.1 == count_voided(events@),
{
    let mut s: usize = 0;
    let mut v: usize = 0;
    let n = events.len();
    let mut i: usize = 0;
    proof {
        assert(events@.take(0) =~= Seq::<Event>::empty());
    }
    while i < n
        invariant
            i <= n,
            n == events@.len(),
            s == count_settled(events@.take(i as int)),
            v == count_voided(events@.take(i as int)),
            s <= i,
            v <= i,
        decreases n - i,
    {
        proof {
            assert(events@.take(i as int + 1).drop_last() =~= events@.take(i as int));
            assert(events@.take(i as int + 1).last() == events@[i as int]);
        }
        match events[i] {
            Event::Settled { .. } => {
                s = s + 1;
            },
            Event::Voided { .. } => {
                v = v + 1;
            },
            Event::Moved { .. } => {},
        }
        i = i + 1;
    }
    proof {
        assert(events@.take(n as int) =~= events@);
    }
    (s, v)
}

/// Does some event of this tick report a grain settled at `(x, y)`?
pub open spec fn any_settled_at(ev: Seq<Event>, x: int, y: int) -> bool {
    exists|k: int|
        0 <= k < ev.len() && ((#[trigger] ev[k]) matches Event::Settled { id: _, x: ex, y: ey }
            && ex == x && ey == y)
}

/// Scan a tick's events for a settle at `(x, y)`.
fn settled_at(events: &Vec<Event>, x: usize, y: usize) -> (b: bool)
    ensures
        b == any_settled_at(events@, x as int, y as int),
{
    let n = events.len();
    let mut i: usize = 0;
    while i < n
        invariant
            i <= n,
            n == events@.len(),
            !any_settled_at(events@.take(i as int), x as int, y as int),
        decreases n - i,
    {
        let hit = match events[i] {
            Event::Settled { id: _, x: ex, y: ey } => ex == x && ey == y,
            _ => false,
        };
        if hit {
            proof {
                assert(events@[i as int] matches Event::Settled { id: _, x: ex, y: ey } && ex == x
                    && ey == y);
            }
            return true;
        }
        proof {
            assert forall|k: int| 0 <= k < i as int + 1 implies !((#[trigger] events@.take(
                i as int + 1,
            )[k]) matches Event::Settled { id: _, x: ex, y: ey } && ex == x as int
                && ey == y as int) by {
                assert(events@.take(i as int + 1)[k] == events@[k]);
                if k < i as int {
                    assert(events@.take(i as int)[k] == events@[k]);
                }
            }
        }
        i = i + 1;
    }
    proof {
        assert(events@.take(n as int) =~= events@);
    }
    false
}

/// Tie-break law: a grain whose cell below is blocked, with both diagonal
/// cells inside the grid and open, always moves down-left, never down-right.
pub proof fn lemma_diagonal_tie_break(g: GridModel, x: int, y: int)
    requires
        g.wf(),
        g.in_bounds(y, x),
        g.cell(y, x) != Cell::Sand,
        y + 1 < g.height,
        !passable(g.cell(y + 1, x)),
        0 < x,
        x + 1 < g.width,
        passable(g.cell(y + 1, x - 1)),
        passable(g.cell(y + 1, x + 1)),
    ensures
        grain_outcome(g, x, y) == (MoveOutcome::To { x: x - 1, y: y + 1 }),
{
}

/// With an open bottom, a grain standing on the lowest row always falls into
/// the void; it never settles at the bottom boundary.
pub proof fn lemma_open_bottom_voids(g: GridModel, x: int, y: int)
    requires
        g.wf(),
        g.in_bounds(y, x),
        g.cell(y, x) != Cell::Sand,
        y == g.height - 1,
    ensures
        grain_outcome(g, x, y) == MoveOutcome::Void,
{
}

/// With the lowest row entirely rock, no grain above it is ever lost to the
/// void, and a falling grain never descends past the row just above the floor.
pub proof fn lemma_floor_stops_grains(g: GridModel, x: int, y: int)
    requires
        g.wf(),
        g.in_bounds(y, x),
        y < g.height - 1,
        floored(g),
    ensures
        grain_outcome(g, x, y) != MoveOutcome::Void,
        forall|nx: int, ny: int|
            grain_outcome(g, x, y) == (MoveOutcome::To { x: nx, y: ny }) ==> ny < g.height - 1,
{
    if y + 1 == g.height - 1 {
        assert(g.cell(g.height - 1, x) == Cell::Rock);
        if 0 < x {
            assert(g.cell(g.height - 1, x - 1) == Cell::Rock);
        }
        if x + 1 < g.width {
            assert(g.cell(g.height - 1, x + 1) == Cell::Rock);
        }
    }
}

/// A grid whose lowest row is one unbroken line of rock.
pub open spec fn floored(g: GridModel) -> bool {
    forall|c: int| 0 <= c < g.width ==> #[trigger] g.cell(g.height - 1, c) == Cell::Rock
}

/// Over a floor, no grain is ever lost: a pass over grains that all stand
/// above the row just over the floor reports no void event, leaves every
/// still-falling grain above that row again, and keeps the floor intact.
/// Grains can therefore never fall past a synthesized floor.
pub proof fn lemma_floor_pass_no_void(g: GridModel, grains: Seq<Grain>)
    requires
        g.wf(),
        spec_pass(g, grains) is Some,
        floored(g),
        forall|k: int| 0 <= k < grains.len() ==> (#[trigger] grains[k]).y < g.height - 1,
    ensures
        ({
            let p = spec_pass(g, grains)->Some_0;
            &&& count_voided(p.events) == 0
            &&& forall|j: int|
                0 <= j < p.active.len() ==> (#[trigger] p.active[j]).y < g.height - 1
            &&& floored(p.grid)
        }),
    decreases grains.len(),
{
    if grains.len() == 0 {
    } else {
        let p = spec_pass(g, grains)->Some_0;
        let gr = grains[0];
        let rest = grains.drop_first();
        let outcome = grain_outcome(g, gr.x as int, gr.y as int);
        if outcome is Void {
            lemma_floor_stops_grains(g, gr.x as int, gr.y as int);
        }
        let g1 = if outcome is Settle {
            g.put(gr.y as int, gr.x as int, Cell::Sand)
        } else {
            g
        };
        if outcome is Settle {
            lemma_put_cell(g, gr.y as int, gr.x as int, Cell::Sand);
            assert forall|c: int| 0 <= c < g1.width implies #[trigger] g1.cell(g1.height - 1, c)
                == Cell::Rock by {
                assert(g.cell(g.height - 1, c) == Cell::Rock);
            }
        }
        lemma_floor_pass_no_void(g1, rest);
        let p2 = spec_pass(g1, rest)->Some_0;
        let e = p.events[0];
        assert(p.events =~= seq![e] + p2.events);
        lemma_counts_concat(seq![e], p2.events);
        assert(count_voided(seq![e].drop_last()) == 0);
        if outcome is To {
            lemma_floor_stops_grains(g, gr.x as int, gr.y as int);
            assert forall|j: int| 0 <= j < p.active.len() implies (#[trigger] p.active[j]).y
                < g.height - 1 by {
                if j > 0 {
                    assert(p.active[j] == p2.active[j - 1]);
                }
            }
        }
    }
}

/// Mathematical model of the simulator state.
pub ghost struct SimModel {
    pub grid: GridModel,
    pub sand: Seq<Grain>,
    pub source_x: int,
    pub source_y: int,
    pub cadence: int,
    pub ticks: int,
    pub next_id: int,
    pub terminal: bool,
    pub settled: int,
    pub voided: int,
}

impl SimModel {
    pub open spec fn wf(self) -> bool {
        &&& self.grid.wf()
        &&& 0 <= self.source_y < self.grid.height
        &&& 0 <= self.source_x < self.grid.width
        &&& 1 <= self.cadence
        &&& 0 <= self.ticks
        &&& 0 <= self.next_id
        &&& 0 <= self.settled
        &&& 0 <= self.voided
    }
}

/// One simulated tick.
///
/// A terminal simulator does nothing.  Otherwise, on a spawn tick with the
/// source cell already settled, the simulation becomes terminal ("source
/// blocked") without spawning or stepping.  Otherwise a grain is spawned on a
/// spawn tick, every in-flight grain advances one step, the counters take up
/// the tick's settle and void events, and a settle at the source coordinate
/// makes the simulation terminal.
pub open spec fn spec_tick(m: SimModel) -> Option<(SimModel, Seq<Event>)> {
    if m.terminal {
        Some((m, Seq::<Event>::empty()))
    } else {
        let spawn = m.ticks % m.cadence == 0;
        if spawn && m.grid.cell(m.source_y, m.source_x) == Cell::Sand {
            Some((SimModel { terminal: true, ticks: m.ticks + 1, ..m }, Seq::<Event>::empty()))
        } else {
            let sand1 = if spawn {
                m.sand.push(
                    Grain { id: m.next_id as usize, x: m.source_x as usize, y: m.source_y as usize },
                )
            } else {
                m.sand
            };
            let next1 = if spawn {
                m.next_id + 1
            } else {
                m.next_id
            };
            match spec_pass(m.grid, sand1) {
                None => None,
                Some(p) => Some(
                    (
                        SimModel {
                            grid: p.grid,
                            sand: p.active,
                            ticks: m.ticks + 1,
                            next_id: next1,
                            terminal: any_settled_at(p.events, m.source_x, m.source_y),
                            settled: m.settled + count_settled(p.events),
                            voided: m.voided + count_voided(p.events),
                            ..m
                        },
                        p.events,
                    ),
                ),
            }
        }
    }
}

/// A bounded number of ticks, stopping early at the terminal state.
pub open spec fn spec_run(m: SimModel, fuel: nat) -> Option<SimModel>
    decreases fuel,
{
    if fuel == 0 || m.terminal {
        Some(m)
    } else {
        match spec_tick(m) {
            None => None,
            Some((m2, _)) => spec_run(m2, (fuel - 1) as nat),
        }
    }
}

/// A floored simulation never reports "fell into the void": when the floor
/// is intact and the source and every in-flight grain stand above the row
/// just over the floor, a tick preserves all of that and leaves the void
/// counter untouched.  By induction over ticks, a cave with floor mode on
/// loses no grain in any run; without a floor, grains on the lowest row are
/// voided instead and never settle there (see [`lemma_open_bottom_voids`]).
pub proof fn lemma_floor_tick_no_void(m: SimModel)
    requires
        m.wf(),
        spec_tick(m) is Some,
        floored(m.grid),
        m.source_y < m.grid.height - 1,
        forall|k: int| 0 <= k < m.sand.len() ==> (#[trigger] m.sand[k]).y < m.grid.height - 1,
    ensures
        ({
            let (m2, ev) = spec_tick(m)->Some_0;
            &&& m2.voided == m.voided
            &&& count_voided(ev) == 0
            &&& floored(m2.grid)
            &&& m2.grid.height == m.grid.height
            &&& m2.source_y == m.source_y
            &&& forall|k: int|
                0 <= k < m2.sand.len() ==> (#[trigger] m2.sand[k]).y < m2.grid.height - 1
        }),
{
    if m.terminal {
    } else {
        let spawn = m.ticks % m.cadence == 0;
        if spawn && m.grid.cell(m.source_y, m.source_x) == Cell::Sand {
        } else {
            let sand1 = if spawn {
                m.sand.push(
                    Grain { id: m.next_id as usize, x: m.source_x as usize, y: m.source_y as usize },
                )
            } else {
                m.sand
            };
            assert forall|k: int| 0 <= k < sand1.len() implies (#[trigger] sand1[k]).y
                < m.grid.height - 1 by {
                if k < m.sand.len() {
                    assert(sand1[k] == m.sand[k]);
                }
            }
            lemma_pass_facts(m.grid, sand1);
            lemma_floor_pass_no_void(m.grid, sand1);
        }
    }
}

/// Determinism law: the simulation is a pure function of its state, so two
/// runs from identical grids and spawn schedules produce identical states
/// and, tick by tick, identical event sequences.
pub proof fn lemma_run_deterministic(a: SimModel, b: SimModel, fuel: nat)
    requires
        a == b,
    ensures
        spec_run(a, fuel) == spec_run(b, fuel),
        spec_tick(a) == spec_tick(b),
{
}

/// The sand simulator: the cave grid, the in-flight grains, and the spawn
/// schedule, advanced one tick at a time.
pub struct Simulator {
    grid: Grid,
    sand: Vec<Grain>,
    source_x: usize,
    source_y: usize,
    cadence: usize,
    ticks: usize,
    next_id: usize,
    terminal: bool,
    settled: usize,
    voided: usize,
}

impl View for Simulator {
    type V = SimModel;

    closed spec fn view(&self) -> SimModel {
        SimModel {
            grid: self.grid@,
            sand: self.sand@,
            source_x: self.source_x as int,
            source_y: self.source_y as int,
            cadence: self.cadence as int,
            ticks: self.ticks as int,
            next_id: self.next_id as int,
            terminal: self.terminal,
            settled: self.settled as int,
            voided: self.voided as int,
        }
    }
}

impl Simulator {
    /// A fresh simulator over `grid`, spawning at `(source_x, source_y)`
    /// every `cadence` ticks.
    pub fn new(grid: Grid, source_x: usize, source_y: usize, cadence: usize) -> (s: Simulator)
        requires
            grid@.wf(),
            source_y < grid@.height,
            source_x < grid@.width,
            1 <= cadence,
        ensures
            s@.wf(),
            s@ == (SimModel {
                grid: grid@,
                sand: Seq::<Grain>::empty(),
                source_x: source_x as int,
                source_y: source_y as int,
                cadence: cadence as int,
                ticks: 0,
                next_id: 0,
                terminal: false,
                settled: 0,
                voided: 0,
            }),
    {
        Simulator {
            grid,
            sand: Vec::new(),
            source_x,
            source_y,
            cadence,
            ticks: 0,
            next_id: 0,
            terminal: false,
            settled: 0,
            voided: 0,
        }
    }

    pub fn is_terminal(&self) -> (b: bool)
        ensures
            b == self@.terminal,
    {
        self.terminal
    }

    pub fn settled_count(&self) -> (n: usize)
        ensures
            n == self@.settled,
    {
        self.settled
    }

    pub fn voided_count(&self) -> (n: usize)
        ensures
            n == self@.voided,
    {
        self.voided
    }

    pub fn ticks(&self) -> (n: usize)
        ensures
            n == self@.ticks,
    {
        self.ticks
    }

    pub fn grid(&self) -> (g: &Grid)
        ensures
            g@ == self@.grid,
    {
        &self.grid
    }

    /// Advance the simulation by one tick and report its events.
    pub fn tick(&mut self) -> (r: Result<Vec<Event>, SimError>)
        requires
            old(self)@.wf(),
            old(self)@.ticks + 1 <= usize::MAX,
            old(self)@.next_id + 1 <= usize::MAX,
            old(self)@.settled + old(self)@.sand.len() + 1 <= usize::MAX,
            old(self)@.voided + old(self)@.sand.len() + 1 <= usize::MAX,
        ensures
            final(self)@.wf(),
            match r {
                Ok(ev) => spec_tick(old(self)@) == Some((final(self)@, ev@)),
                Err(_) => spec_tick(old(self)@) is None,
            },
            final(self)@.ticks <= old(self)@.ticks + 1,
            final(self)@.next_id <= old(self)@.next_id + 1,
            final(self)@.settled + final(self)@.sand.len() <= old(self)@.settled + old(
                self,
            )@.sand.len() + 1,
            final(self)@.voided + final(self)@.sand.len() <= old(self)@.voided + old(
                self,
            )@.sand.len() + 1,
            old(self)@.terminal ==> final(self)@.terminal,
    {
        if self.terminal {
            return Ok(Vec::new());
        }
        let spawn = self.ticks % self.cadence == 0;
        if spawn {
            if self.grid.at(self.source_y, self.source_x) == Cell::Sand {
                self.terminal = true;
                self.ticks = self.ticks + 1;
                return Ok(Vec::new());
            }
            let id = self.next_id;
            self.next_id = self.next_id + 1;
            add_sand(&mut self.sand, id, self.source_x, self.source_y);
        }
        let ghost sand1 = self.sand@;
        match move_all_sand_one_step(&mut self.grid, &mut self.sand) {
            Err(e) => Err(e),
            Ok(events) => {
                proof {
                    lemma_pass_facts(old(self)@.grid, sand1);
                    lemma_counts_bounds(events@);
                }
                self.ticks = self.ticks + 1;
                let counts = count_events(&events);
                self.settled = self.settled + counts.0;
                self.voided = self.voided + counts.1;
                if settled_at(&events, self.source_x, self.source_y) {
                    self.terminal = true;
                }
                Ok(events)
            },
        }
    }

    /// Run at most `max_ticks` ticks, stopping as soon as the simulation is
    /// terminal; the result says whether it is.
    pub fn run(&mut self, max_ticks: usize) -> (r: Result<bool, SimError>)
        requires
            old(self)@.wf(),
            old(self)@.ticks + max_ticks <= usize::MAX,
            old(self)@.next_id + max_ticks <= usize::MAX,
            old(self)@.settled + old(self)@.sand.len() + max_ticks <= usize::MAX,
            old(self)@.voided + old(self)@.sand.len() + max_ticks <= usize::MAX,
        ensures
            final(self)@.wf(),
            match r {
                Ok(done) => spec_run(old(self)@, max_ticks as nat) == Some(final(self)@) && done
                    == final(self)@.terminal,
                Err(_) => spec_run(old(self)@, max_ticks as nat) is None,
            },
    {
        let mut t: usize = 0;
        while t < max_ticks && !self.terminal
            invariant
                t <= max_ticks,
                self@.wf(),
                spec_run(old(self)@, max_ticks as nat) == spec_run(
                    self@,
                    (max_ticks - t) as nat,
                ),
                self@.ticks <= old(self)@.ticks + t,
                self@.next_id <= old(self)@.next_id + t,
                self@.settled + self@.sand.len() <= old(self)@.settled + old(self)@.sand.len()
                    + t,
                self@.voided + self@.sand.len() <= old(self)@.voided + old(self)@.sand.len() + t,
                old(self)@.ticks + max_ticks <= usize::MAX,
                old(self)@.next_id + max_ticks <= usize::MAX,
                old(self)@.settled + old(self)@.sand.len() + max_ticks <= usize::MAX,
                old(self)@.voided + old(self)@.sand.len() + max_ticks <= usize::MAX,
            decreases max_ticks - t,
        {
            match self.tick() {
                Err(e) => {
                    return Err(e);
                },
                Ok(_) => {},
            }
            t = t + 1;
        }
        Ok(self.terminal)
    }
}

} // verus!
