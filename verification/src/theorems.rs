//! What holds of every board and every fill, proved over the models that the
//! contracts of the board and of the fill are stated in.

use vstd::prelude::*;
use crate::board::{Cell, agrees_with_oracle, evolves, spec_fresh_cell, spec_mark_revealed,
    spec_materialize};
use crate::coord::{Coordinate, adjacent, spec_neighbor};
use crate::flood::{Fill, Run, can_step, propagates, ringed, settled, spec_border,
    spec_border_from, spec_drain, spec_expand, spec_expand_step, spec_note, spec_reveal,
    spec_seed, spec_uncover, spec_visit, spec_visit_from, tells_changes};
use crate::oracle::{Config, lemma_mines_among_bounded, spec_is_bomb};

verus! {

/// Generating a coordinate a second time changes nothing, whatever the
/// second call asks for: the cell of the first call stays as it is.
pub proof fn lemma_materialize_is_idempotent(
    cfg: Config,
    cells: Map<Coordinate, Cell>,
    p: Coordinate,
    first: bool,
    second: bool,
)
    ensures
        spec_materialize(cfg, cells, p, first).contains_key(p),
        spec_materialize(cfg, spec_materialize(cfg, cells, p, first), p, second)
            == spec_materialize(cfg, cells, p, first),
{
}

/// Generating a coordinate keeps every cell that was there as it was, and
/// the new cell agrees with the oracle.
pub proof fn lemma_materialize_evolves(
    cfg: Config,
    cells: Map<Coordinate, Cell>,
    p: Coordinate,
    reveal: bool,
)
    ensures
        cells.submap_of(spec_materialize(cfg, cells, p, reveal)),
        evolves(cells, spec_materialize(cfg, cells, p, reveal)),
        agrees_with_oracle(cfg, cells) ==> agrees_with_oracle(
            cfg,
            spec_materialize(cfg, cells, p, reveal),
        ),
{
    lemma_mines_among_bounded(cfg, p, 8);
}

/// Uncovering a cell changes nothing but that cell's cover.
pub proof fn lemma_mark_revealed_evolves(cfg: Config, cells: Map<Coordinate, Cell>, p: Coordinate)
    ensures
        evolves(cells, spec_mark_revealed(cells, p)),
        spec_mark_revealed(cells, p).dom() == cells.dom(),
        agrees_with_oracle(cfg, cells) ==> agrees_with_oracle(cfg, spec_mark_revealed(cells, p)),
        spec_mark_revealed(spec_mark_revealed(cells, p), p) == spec_mark_revealed(cells, p),
{
    assert(spec_mark_revealed(cells, p).dom() =~= cells.dom());
    assert(spec_mark_revealed(spec_mark_revealed(cells, p), p) =~= spec_mark_revealed(cells, p));
}

/// A board evolves from itself.
pub proof fn lemma_evolves_reflexive(cells: Map<Coordinate, Cell>)
    ensures
        evolves(cells, cells),
{
}

/// Whatever a board evolves into in two stages, it evolves into: over any
/// sequence of operations no cell is lost, no mine or count changes, and an
/// uncovered cell stays uncovered.
pub proof fn lemma_evolves_transitive(
    a: Map<Coordinate, Cell>,
    b: Map<Coordinate, Cell>,
    c: Map<Coordinate, Cell>,
)
    requires
        evolves(a, b),
        evolves(b, c),
    ensures
        evolves(a, c),
{
    assert forall|p: Coordinate| #[trigger] a.contains_key(p) implies {
        &&& c.contains_key(p)
        &&& c[p].pos == a[p].pos
        &&& c[p].is_bomb == a[p].is_bomb
        &&& c[p].neighbor_count == a[p].neighbor_count
        &&& a[p].revealed ==> c[p].revealed
    } by {
        assert(b.contains_key(p));
    }
}

/// A stored cell carries the oracle's answers for its coordinate, whether
/// or not the cells around it have been generated.
pub proof fn lemma_stored_cell_is_the_oracle_cell(
    cfg: Config,
    cells: Map<Coordinate, Cell>,
    p: Coordinate,
)
    requires
        agrees_with_oracle(cfg, cells),
        cells.contains_key(p),
    ensures
        cells[p] == spec_fresh_cell(cfg, p, cells[p].revealed),
{
    lemma_mines_among_bounded(cfg, p, 8);
}

/// A sequence that grew by one element holds what it held, and that element.
proof fn lemma_push_contains(s: Seq<Coordinate>, x: Coordinate, p: Coordinate)
    ensures
        s.push(x).contains(p) <==> (s.contains(p) || p == x),
{
    if s.contains(p) {
        let i = choose|i: int| 0 <= i < s.len() && s[i] == p;
        assert(s.push(x)[i] == p);
    }
    if p == x {
        assert(s.push(x)[s.len() as int] == p);
    }
}

/// A sequence holds its first element and what the rest holds.
proof fn lemma_rest_contains(s: Seq<Coordinate>, p: Coordinate)
    requires
        s.len() > 0,
    ensures
        s.contains(p) <==> (p == s[0] || s.subrange(1, s.len() as int).contains(p)),
{
    let rest = s.subrange(1, s.len() as int);
    if s.contains(p) {
        let i = choose|i: int| 0 <= i < s.len() && s[i] == p;
        if i > 0 {
            assert(rest[i - 1] == p);
        }
    }
    if rest.contains(p) {
        let i = choose|i: int| 0 <= i < rest.len() && rest[i] == p;
        assert(s[i + 1] == p);
    }
    if p == s[0] {
        assert(s.contains(p));
    }
}

/// A part of a part of a board is a part of it.
proof fn lemma_submap_transitive(
    a: Map<Coordinate, Cell>,
    b: Map<Coordinate, Cell>,
    c: Map<Coordinate, Cell>,
)
    requires
        a.submap_of(b),
        b.submap_of(c),
    ensures
        a.submap_of(c),
{
    assert forall|p: Coordinate| #[trigger] a.dom().contains(p) implies c.dom().contains(p) && a[p]
        == c[p] by {
        assert(b.dom().contains(p));
    }
}

/// The fill has expanded `p` or holds it in its queue.
spec fn known(seen: Seq<Coordinate>, s: Fill, p: Coordinate) -> bool {
    seen.contains(p) || s.expand.contains(p)
}

/// The first `k` cells around `c` have been generated, and each of them that
/// the fill carries on through has been expanded or is queued.
spec fn surrounded(
    cfg: Config,
    seen: Seq<Coordinate>,
    s: Fill,
    c: Coordinate,
    k: int,
) -> bool {
    forall|j: int|
        0 <= j < k ==> {
            &&& s.cells.contains_key(#[trigger] spec_neighbor(c, j))
            &&& propagates(cfg, spec_neighbor(c, j)) ==> known(seen, s, spec_neighbor(c, j))
        }
}

/// Every cell generated since `base` is uncovered.
spec fn new_cells_uncovered(base: Map<Coordinate, Cell>, s: Fill) -> bool {
    forall|p: Coordinate| #[trigger]
        s.cells.contains_key(p) && !base.contains_key(p) ==> s.cells[p].revealed
}

/// Every cell of `line` is the origin or one that the fill carries on through.
spec fn all_propagate(cfg: Config, origin: Coordinate, line: Seq<Coordinate>) -> bool {
    forall|i: int| 0 <= i < line.len() ==> #[trigger] line[i] == origin || propagates(cfg, line[i])
}

/// No frontier cell is one that the fill carries on through, and each has
/// been generated.
spec fn frontier_stops(cfg: Config, s: Fill) -> bool {
    forall|j: int|
        0 <= j < s.frontier.len() ==> !propagates(cfg, #[trigger] s.frontier[j])
            && s.cells.contains_key(s.frontier[j])
}

/// What holds of an expansion that started on the cells `base`, has
/// finished the cells `done` and has taken the cells `seen` from its queue.
#[verifier::opaque]
spec fn fill_inv(
    cfg: Config,
    base: Map<Coordinate, Cell>,
    origin: Coordinate,
    done: Seq<Coordinate>,
    seen: Seq<Coordinate>,
    s: Fill,
) -> bool {
    &&& base.submap_of(s.cells)
    &&& new_cells_uncovered(base, s)
    &&& forall|i: int| 0 <= i < done.len() ==> surrounded(cfg, seen, s, #[trigger] done[i], 8)
    &&& all_propagate(cfg, origin, seen)
    &&& all_propagate(cfg, origin, s.expand)
    &&& frontier_stops(cfg, s)
}

/// The cells around `c` stay generated and known when the fill grows.
proof fn lemma_surrounded_grows(
    cfg: Config,
    seen: Seq<Coordinate>,
    s: Fill,
    t: Fill,
    c: Coordinate,
    k: int,
)
    requires
        surrounded(cfg, seen, s, c, k),
        s.cells.submap_of(t.cells),
        forall|p: Coordinate| s.expand.contains(p) ==> #[trigger] t.expand.contains(p),
    ensures
        surrounded(cfg, seen, t, c, k),
{
    assert forall|j: int| 0 <= j < k implies {
        &&& t.cells.contains_key(#[trigger] spec_neighbor(c, j))
        &&& propagates(cfg, spec_neighbor(c, j)) ==> known(seen, t, spec_neighbor(c, j))
    } by {
        assert(s.cells.contains_key(spec_neighbor(c, j)));
    }
}

/// Visiting the `k`-th cell around `c` keeps what holds of the expansion,
/// generates that cell and queues it if the fill carries on through it.
proof fn lemma_visit_keeps(
    cfg: Config,
    base: Map<Coordinate, Cell>,
    origin: Coordinate,
    done: Seq<Coordinate>,
    seen: Seq<Coordinate>,
    s: Fill,
    c: Coordinate,
    k: int,
)
    requires
        0 <= k < 8,
        fill_inv(cfg, base, origin, done, seen, s),
        surrounded(cfg, seen, s, c, k),
    ensures
        fill_inv(cfg, base, origin, done, seen, spec_visit(cfg, s, spec_neighbor(c, k))),
        surrounded(cfg, seen, spec_visit(cfg, s, spec_neighbor(c, k)), c, k + 1),
        s.cells.submap_of(spec_visit(cfg, s, spec_neighbor(c, k)).cells),
{
    reveal(fill_inv);
    let n = spec_neighbor(c, k);
    let t = spec_visit(cfg, s, n);
    assert forall|p: Coordinate| s.expand.contains(p) implies #[trigger] t.expand.contains(p) by {
        lemma_push_contains(s.expand, n, p);
    }
    lemma_push_contains(s.expand, n, n);
    assert(all_propagate(cfg, origin, t.expand));
    assert(frontier_stops(cfg, t));
    assert(new_cells_uncovered(base, t));
    assert forall|i: int| 0 <= i < done.len() implies surrounded(
        cfg,
        seen,
        t,
        #[trigger] done[i],
        8,
    ) by {
        lemma_surrounded_grows(cfg, seen, s, t, done[i], 8);
    }
    lemma_surrounded_grows(cfg, seen, s, t, c, k);
    assert(surrounded(cfg, seen, t, c, k + 1)) by {
        assert forall|j: int| 0 <= j < k + 1 implies {
            &&& t.cells.contains_key(#[trigger] spec_neighbor(c, j))
            &&& propagates(cfg, spec_neighbor(c, j)) ==> known(seen, t, spec_neighbor(c, j))
        } by {
            if j == k {
                assert(t.cells.contains_key(n));
            }
        }
    }
}

/// Visiting the cells around `c` from the `k`-th on keeps what holds of the
/// expansion and leaves `c` surrounded.
proof fn lemma_visit_from_keeps(
    cfg: Config,
    base: Map<Coordinate, Cell>,
    origin: Coordinate,
    done: Seq<Coordinate>,
    seen: Seq<Coordinate>,
    s: Fill,
    c: Coordinate,
    k: nat,
)
    requires
        k <= 8,
        fill_inv(cfg, base, origin, done, seen, s),
        surrounded(cfg, seen, s, c, k as int),
    ensures
        fill_inv(cfg, base, origin, done, seen, spec_visit_from(cfg, s, c, k)),
        surrounded(cfg, seen, spec_visit_from(cfg, s, c, k), c, 8),
        s.cells.submap_of(spec_visit_from(cfg, s, c, k).cells),
    decreases 8 - k,
{
    if k < 8 {
        let t = spec_visit(cfg, s, spec_neighbor(c, k as int));
        lemma_visit_keeps(cfg, base, origin, done, seen, s, c, k as int);
        lemma_visit_from_keeps(cfg, base, origin, done, seen, t, c, k + 1);
        lemma_submap_transitive(s.cells, t.cells, spec_visit_from(cfg, t, c, k + 1).cells);
    }
}

/// One step of the expansion keeps what holds of it, with the cell that
/// was taken from the queue now finished.
proof fn lemma_step_keeps(
    cfg: Config,
    base: Map<Coordinate, Cell>,
    origin: Coordinate,
    done: Seq<Coordinate>,
    r: Run,
)
    requires
        fill_inv(cfg, base, origin, done, done, r.fill),
        r.fill.expand.len() > 0,
    ensures
        fill_inv(
            cfg,
            base,
            origin,
            done.push(r.fill.expand[0]),
            done.push(r.fill.expand[0]),
            spec_expand_step(cfg, r).fill,
        ),
        r.fill.cells.submap_of(spec_expand_step(cfg, r).fill.cells),
{
    reveal(fill_inv);
    let s = r.fill;
    let cur = s.expand[0];
    let seen = done.push(cur);
    let taken = Fill { expand: s.expand.subrange(1, s.expand.len() as int), ..s };
    assert(all_propagate(cfg, origin, taken.expand)) by {
        assert forall|i: int| 0 <= i < taken.expand.len() implies #[trigger] taken.expand[i]
            == origin || propagates(cfg, taken.expand[i]) by {
            assert(taken.expand[i] == s.expand[i + 1]);
        }
    }
    assert(all_propagate(cfg, origin, seen)) by {
        assert forall|i: int| 0 <= i < seen.len() implies #[trigger] seen[i] == origin
            || propagates(cfg, seen[i]) by {
            if i < done.len() {
                assert(seen[i] == done[i]);
            } else {
                assert(seen[i] == s.expand[0]);
            }
        }
    }
    assert forall|p: Coordinate| known(done, s, p) implies known(seen, taken, p) by {
        lemma_push_contains(done, cur, p);
        lemma_rest_contains(s.expand, p);
    }
    assert forall|i: int| 0 <= i < done.len() implies surrounded(
        cfg,
        seen,
        taken,
        #[trigger] done[i],
        8,
    ) by {
        assert(surrounded(cfg, done, s, done[i], 8));
    }
    assert(frontier_stops(cfg, taken));
    assert(new_cells_uncovered(base, taken));
    assert(fill_inv(cfg, base, origin, done, seen, taken));
    lemma_visit_from_keeps(cfg, base, origin, done, seen, taken, cur, 0);
    let t = spec_visit_from(cfg, taken, cur, 0);
    assert forall|i: int| 0 <= i < seen.len() implies surrounded(
        cfg,
        seen,
        t,
        #[trigger] seen[i],
        8,
    ) by {
        if i < done.len() {
            assert(seen[i] == done[i]);
        } else {
            assert(seen[i] == cur);
        }
    }
}

/// The cells that an expansion takes from its queue, in order, after those
/// in `done`.
pub open spec fn spec_expanded(cfg: Config, r: Run, done: Seq<Coordinate>) -> Seq<Coordinate>
    decreases cfg.step_limit - r.steps,
{
    if can_step(cfg, r) {
        spec_expanded(cfg, spec_expand_step(cfg, r), done.push(r.fill.expand[0]))
    } else {
        done
    }
}

/// The whole expansion keeps what holds of it, stays within both budgets,
/// and takes one cell from the queue at each step.
proof fn lemma_expand_keeps(
    cfg: Config,
    base: Map<Coordinate, Cell>,
    origin: Coordinate,
    done: Seq<Coordinate>,
    r: Run,
)
    requires
        fill_inv(cfg, base, origin, done, done, r.fill),
        r.steps <= cfg.step_limit,
        r.idle <= cfg.idle_limit,
    ensures
        fill_inv(
            cfg,
            base,
            origin,
            spec_expanded(cfg, r, done),
            spec_expanded(cfg, r, done),
            spec_expand(cfg, r).fill,
        ),
        r.fill.cells.submap_of(spec_expand(cfg, r).fill.cells),
        r.steps <= spec_expand(cfg, r).steps <= cfg.step_limit,
        spec_expand(cfg, r).idle <= cfg.idle_limit,
        spec_expanded(cfg, r, done).len() == done.len() + spec_expand(cfg, r).steps - r.steps,
        forall|i: int| 0 <= i < done.len() ==> spec_expanded(cfg, r, done)[i] == done[i],
        can_step(cfg, r) ==> spec_expanded(cfg, r, done)[done.len() as int] == r.fill.expand[0],
        can_step(cfg, r) ==> spec_expand(cfg, r).steps > r.steps,
    decreases cfg.step_limit - r.steps,
{
    if can_step(cfg, r) {
        let next = spec_expand_step(cfg, r);
        let more = done.push(r.fill.expand[0]);
        lemma_step_keeps(cfg, base, origin, done, r);
        lemma_expand_keeps(cfg, base, origin, more, next);
        lemma_submap_transitive(r.fill.cells, next.fill.cells, spec_expand(cfg, next).fill.cells);
        assert(more[done.len() as int] == r.fill.expand[0]);
        assert forall|i: int| 0 <= i < done.len() implies spec_expanded(cfg, r, done)[i]
            == done[i] by {
            assert(more[i] == done[i]);
        }
    }
}

/// Cells that are ringed stay so when the board grows.
proof fn lemma_ringed_grows(a: Map<Coordinate, Cell>, b: Map<Coordinate, Cell>, p: Coordinate)
    requires
        ringed(a, p),
        a.submap_of(b),
    ensures
        ringed(b, p),
{
    assert forall|k: int| 0 <= k < 8 implies b.contains_key(#[trigger] spec_neighbor(p, k)) by {
        assert(a.contains_key(spec_neighbor(p, k)));
    }
}

/// Generating the cells around a frontier cell changes no cell that exists
/// and neither queue, and leaves the frontier cell ringed.
proof fn lemma_border_from_grows(cfg: Config, s: Fill, c: Coordinate, k: nat)
    requires
        k <= 8,
        forall|j: int| 0 <= j < k ==> s.cells.contains_key(#[trigger] spec_neighbor(c, j)),
    ensures
        s.cells.submap_of(spec_border_from(cfg, s, c, k).cells),
        spec_border_from(cfg, s, c, k).expand == s.expand,
        spec_border_from(cfg, s, c, k).frontier == s.frontier,
        ringed(spec_border_from(cfg, s, c, k).cells, c),
    decreases 8 - k,
{
    if k < 8 {
        let t = spec_border(cfg, s, spec_neighbor(c, k as int));
        assert forall|j: int| 0 <= j < k + 1 implies t.cells.contains_key(
            #[trigger] spec_neighbor(c, j),
        ) by {
            if j < k {
                assert(s.cells.contains_key(spec_neighbor(c, j)));
            }
        }
        lemma_border_from_grows(cfg, t, c, k + 1);
        lemma_submap_transitive(s.cells, t.cells, spec_border_from(cfg, t, c, k + 1).cells);
    }
}

/// Draining the frontier changes no cell that exists and neither queue, and
/// leaves every frontier cell ringed.
proof fn lemma_drain_grows(cfg: Config, s: Fill, frontier: Seq<Coordinate>, i: nat)
    requires
        i <= frontier.len(),
        forall|j: int| 0 <= j < i ==> ringed(s.cells, #[trigger] frontier[j]),
    ensures
        s.cells.submap_of(spec_drain(cfg, s, frontier, i).cells),
        spec_drain(cfg, s, frontier, i).expand == s.expand,
        spec_drain(cfg, s, frontier, i).frontier == s.frontier,
        forall|j: int|
            0 <= j < frontier.len() ==> ringed(
                spec_drain(cfg, s, frontier, i).cells,
                #[trigger] frontier[j],
            ),
    decreases frontier.len() - i,
{
    if i < frontier.len() {
        let t = spec_border_from(cfg, s, frontier[i as int], 0);
        lemma_border_from_grows(cfg, s, frontier[i as int], 0);
        assert forall|j: int| 0 <= j < i + 1 implies ringed(t.cells, #[trigger] frontier[j]) by {
            if j < i {
                lemma_ringed_grows(s.cells, t.cells, frontier[j]);
            }
        }
        lemma_drain_grows(cfg, t, frontier, i + 1);
        lemma_submap_transitive(s.cells, t.cells, spec_drain(cfg, t, frontier, i + 1).cells);
    }
}

/// The cells that a reveal at `origin` expands, in order.
pub open spec fn spec_reveal_expanded(
    cfg: Config,
    cells: Map<Coordinate, Cell>,
    origin: Coordinate,
) -> Seq<Coordinate> {
    if settled(cells, origin) || spec_is_bomb(cfg, origin) {
        Seq::empty()
    } else {
        spec_expanded(cfg, spec_seed(cfg, cells, origin), Seq::empty())
    }
}

/// What a reveal that ended as `run`, having expanded the cells `e`, did
/// for the cell `n` beside one of them: `n` is generated, uncovered unless
/// it existed before, and has been expanded in its turn or was left in the
/// queue if the fill carries on through it.
pub open spec fn reached(
    cfg: Config,
    cells: Map<Coordinate, Cell>,
    run: Run,
    e: Seq<Coordinate>,
    n: Coordinate,
) -> bool {
    &&& run.fill.cells.contains_key(n)
    &&& !cells.contains_key(n) ==> run.fill.cells[n].revealed
    &&& propagates(cfg, n) ==> e.contains(n) || run.fill.expand.contains(n)
}

/// The expansion starts in a state of which the invariant holds.
proof fn lemma_seed_holds(cfg: Config, cells: Map<Coordinate, Cell>, origin: Coordinate)
    ensures
        fill_inv(
            cfg,
            spec_uncover(cfg, cells, origin).cells,
            origin,
            Seq::empty(),
            Seq::empty(),
            spec_seed(cfg, cells, origin).fill,
        ),
        evolves(cells, spec_uncover(cfg, cells, origin).cells),
        spec_uncover(cfg, cells, origin).cells.contains_key(origin),
        spec_uncover(cfg, cells, origin).cells[origin].revealed,
        forall|p: Coordinate|
            cells.contains_key(p) || p == origin <==> #[trigger] spec_uncover(
                cfg,
                cells,
                origin,
            ).cells.contains_key(p),
{
    reveal(fill_inv);
}

/// What the expansion of a reveal has done when it ends.
proof fn lemma_expansion_reaches(cfg: Config, cells: Map<Coordinate, Cell>, origin: Coordinate)
    ensures
        ({
            let grown = spec_expand(cfg, spec_seed(cfg, cells, origin));
            let e = spec_expanded(cfg, spec_seed(cfg, cells, origin), Seq::empty());
            &&& e.len() == grown.steps
            &&& grown.steps > 0 ==> e[0] == origin
            &&& cfg.step_limit > 0 && cfg.idle_limit > 0 ==> grown.steps > 0
            &&& grown.steps <= cfg.step_limit
            &&& grown.idle <= cfg.idle_limit
            &&& all_propagate(cfg, origin, e)
            &&& forall|i: int, k: int|
                0 <= i < e.len() && 0 <= k < 8 ==> reached(
                    cfg,
                    cells,
                    grown,
                    e,
                    #[trigger] spec_neighbor(e[i], k),
                )
            &&& frontier_stops(cfg, grown.fill)
            &&& evolves(cells, grown.fill.cells)
            &&& grown.fill.cells.contains_key(origin)
            &&& grown.fill.cells[origin].revealed
        }),
{
    let base = spec_uncover(cfg, cells, origin).cells;
    let seed = spec_seed(cfg, cells, origin);
    let grown = spec_expand(cfg, seed);
    let e = spec_expanded(cfg, seed, Seq::empty());
    lemma_seed_holds(cfg, cells, origin);
    lemma_expand_keeps(cfg, base, origin, Seq::empty(), seed);
    reveal(fill_inv);
    assert(base.dom().contains(origin));
    assert forall|i: int, k: int| 0 <= i < e.len() && 0 <= k < 8 implies reached(
        cfg,
        cells,
        grown,
        e,
        #[trigger] spec_neighbor(e[i], k),
    ) by {
        let n = spec_neighbor(e[i], k);
        assert(surrounded(cfg, e, grown.fill, e[i], 8));
        assert(grown.fill.cells.contains_key(n));
        if !cells.contains_key(n) {
            if n == origin {
                assert(base.dom().contains(n));
            } else {
                assert(!base.contains_key(n));
            }
        }
    }
    assert forall|p: Coordinate| #[trigger] cells.contains_key(p) implies {
        &&& grown.fill.cells.contains_key(p)
        &&& grown.fill.cells[p].pos == cells[p].pos
        &&& grown.fill.cells[p].is_bomb == cells[p].is_bomb
        &&& grown.fill.cells[p].neighbor_count == cells[p].neighbor_count
        &&& cells[p].revealed ==> grown.fill.cells[p].revealed
    } by {
        assert(base.contains_key(p));
        assert(base.dom().contains(p));
    }
}

/// How far a fill goes. Of every reveal:
///
/// - the cells it expands are as many as its steps, the origin first;
/// - each of them is the origin or a cell with no mine on it or around it;
/// - every cell beside an expanded cell is generated, is uncovered unless it
///   existed before the reveal, and, where it has no mine on it or around it,
///   was expanded in its turn or waited in the queue when a budget ran out;
/// - no frontier cell is free of mines on it and around it, so the fill went
///   no further through any of them, and all eight cells around each frontier
///   cell are generated.
pub proof fn lemma_flood_containment(
    cfg: Config,
    cells: Map<Coordinate, Cell>,
    origin: Coordinate,
)
    ensures
        ({
            let run = spec_reveal(cfg, cells, origin);
            let e = spec_reveal_expanded(cfg, cells, origin);
            &&& e.len() == run.steps
            &&& run.steps > 0 ==> e[0] == origin
            &&& forall|i: int|
                0 <= i < e.len() ==> #[trigger] e[i] == origin || propagates(cfg, e[i])
            &&& forall|i: int, k: int|
                0 <= i < e.len() && 0 <= k < 8 ==> reached(
                    cfg,
                    cells,
                    run,
                    e,
                    #[trigger] spec_neighbor(e[i], k),
                )
            &&& forall|j: int|
                0 <= j < run.fill.frontier.len() ==> !propagates(
                    cfg,
                    #[trigger] run.fill.frontier[j],
                ) && ringed(run.fill.cells, run.fill.frontier[j])
        }),
{
    let run = spec_reveal(cfg, cells, origin);
    let e = spec_reveal_expanded(cfg, cells, origin);
    if !settled(cells, origin) && !spec_is_bomb(cfg, origin) {
        let grown = spec_expand(cfg, spec_seed(cfg, cells, origin));
        lemma_expansion_reaches(cfg, cells, origin);
        lemma_drain_grows(cfg, grown.fill, grown.fill.frontier, 0);
        assert forall|i: int, k: int| 0 <= i < e.len() && 0 <= k < 8 implies reached(
            cfg,
            cells,
            run,
            e,
            #[trigger] spec_neighbor(e[i], k),
        ) by {
            let n = spec_neighbor(e[i], k);
            assert(reached(cfg, cells, grown, e, n));
            assert(grown.fill.cells.dom().contains(n));
        }
        assert forall|j: int| 0 <= j < run.fill.frontier.len() implies !propagates(
            cfg,
            #[trigger] run.fill.frontier[j],
        ) && ringed(run.fill.cells, run.fill.frontier[j]) by {
            assert(run.fill.frontier[j] == grown.fill.frontier[j]);
        }
    }
}

/// A board evolves into any board that it is a part of.
proof fn lemma_part_evolves(a: Map<Coordinate, Cell>, b: Map<Coordinate, Cell>)
    requires
        a.submap_of(b),
    ensures
        evolves(a, b),
{
    assert forall|p: Coordinate| #[trigger] a.contains_key(p) implies b.contains_key(p) && b[p]
        == a[p] by {
        assert(a.dom().contains(p));
    }
}

/// A reveal loses no cell, changes no mine and no count, and covers no cell
/// that was uncovered.
pub proof fn lemma_reveal_evolves(cfg: Config, cells: Map<Coordinate, Cell>, origin: Coordinate)
    ensures
        evolves(cells, spec_reveal(cfg, cells, origin).fill.cells),
{
    if !settled(cells, origin) {
        lemma_seed_holds(cfg, cells, origin);
        if !spec_is_bomb(cfg, origin) {
            let grown = spec_expand(cfg, spec_seed(cfg, cells, origin));
            lemma_expansion_reaches(cfg, cells, origin);
            lemma_drain_grows(cfg, grown.fill, grown.fill.frontier, 0);
            lemma_part_evolves(grown.fill.cells, spec_reveal(cfg, cells, origin).fill.cells);
            lemma_evolves_transitive(
                cells,
                grown.fill.cells,
                spec_reveal(cfg, cells, origin).fill.cells,
            );
        }
    }
}

/// A reveal takes no more cells from its queue than the step limit, and
/// ends with no more idle steps in a row than the idle limit.
pub proof fn lemma_reveal_within_budget(
    cfg: Config,
    cells: Map<Coordinate, Cell>,
    origin: Coordinate,
)
    ensures
        spec_reveal(cfg, cells, origin).steps <= cfg.step_limit,
        spec_reveal(cfg, cells, origin).idle <= cfg.idle_limit,
{
    if !settled(cells, origin) && !spec_is_bomb(cfg, origin) {
        lemma_expansion_reaches(cfg, cells, origin);
    }
}

/// A reveal at a mine uncovers the mine and does nothing else.
pub proof fn lemma_reveal_at_a_mine(cfg: Config, cells: Map<Coordinate, Cell>, origin: Coordinate)
    requires
        spec_is_bomb(cfg, origin),
        !cells.contains_key(origin),
    ensures
        spec_reveal(cfg, cells, origin).fill.cells == cells.insert(
            origin,
            spec_fresh_cell(cfg, origin, true),
        ),
        spec_reveal(cfg, cells, origin).fill.touched == seq![spec_fresh_cell(cfg, origin, true)],
        spec_reveal(cfg, cells, origin).fill.expand.len() == 0,
        spec_reveal(cfg, cells, origin).steps == 0,
        spec_reveal(cfg, cells, origin).idle == 0,
{
}

/// A second reveal at the same cell, straight after the first, does
/// nothing: it touches no cell, takes no step and leaves the board as it is.
pub proof fn lemma_second_reveal_is_idle(
    cfg: Config,
    cells: Map<Coordinate, Cell>,
    origin: Coordinate,
)
    ensures
        ({
            let first = spec_reveal(cfg, cells, origin);
            let second = spec_reveal(cfg, first.fill.cells, origin);
            &&& second.fill.cells == first.fill.cells
            &&& second.fill.touched.len() == 0
            &&& second.steps == 0
            &&& second.idle == 0
        }),
{
    let first = spec_reveal(cfg, cells, origin);
    let after = first.fill.cells;
    if !settled(cells, origin) {
        lemma_seed_holds(cfg, cells, origin);
        if !spec_is_bomb(cfg, origin) {
            let grown = spec_expand(cfg, spec_seed(cfg, cells, origin));
            let e = spec_expanded(cfg, spec_seed(cfg, cells, origin), Seq::empty());
            lemma_expansion_reaches(cfg, cells, origin);
            lemma_drain_grows(cfg, grown.fill, grown.fill.frontier, 0);
            assert(grown.fill.cells.dom().contains(origin));
            assert(after.contains_key(origin) && after[origin].revealed);
            if cfg.step_limit > 0 && cfg.idle_limit > 0 {
                assert forall|k: int| 0 <= k < 8 implies grown.fill.cells.contains_key(
                    #[trigger] spec_neighbor(origin, k),
                ) by {
                    assert(reached(cfg, cells, grown, e, spec_neighbor(e[0], k)));
                }
                lemma_ringed_grows(grown.fill.cells, after, origin);
                assert(settled(after, origin));
            } else {
                if !settled(after, origin) {
                    let again = spec_seed(cfg, after, origin);
                    assert(!can_step(cfg, again));
                    assert(spec_expand(cfg, again) == again);
                    assert(spec_drain(cfg, again.fill, again.fill.frontier, 0) == again.fill);
                }
            }
        }
    }
}

/// Generating one cell, and listing it if it is new, keeps the list true.
proof fn lemma_note_tells(
    cfg: Config,
    before: Map<Coordinate, Cell>,
    s: Fill,
    n: Coordinate,
    reveal: bool,
)
    requires
        tells_changes(before, s.cells, s.touched),
    ensures
        tells_changes(
            before,
            spec_materialize(cfg, s.cells, n, reveal),
            spec_note(cfg, s, n, reveal),
        ),
{
    let cells = spec_materialize(cfg, s.cells, n, reveal);
    let touched = spec_note(cfg, s, n, reveal);
    if !s.cells.contains_key(n) {
        let last = s.touched.len() as int;
        assert(touched[last].pos == n);
        assert forall|p: Coordinate| #[trigger] cells.contains_key(p) implies (before.contains_key(
            p,
        ) && cells[p] == before[p]) || (exists|i: int|
            0 <= i < touched.len() && (#[trigger] touched[i]).pos == p) by {
            if p != n {
                assert(s.cells.contains_key(p));
                if !(before.contains_key(p) && s.cells[p] == before[p]) {
                    let i = choose|i: int| 0 <= i < s.touched.len() && (#[trigger] s.touched[i]).pos == p;
                    assert(touched[i].pos == p);
                }
            }
        }
        assert forall|i: int| 0 <= i < touched.len() implies cells.contains_key(
            (#[trigger] touched[i]).pos,
        ) && cells[touched[i].pos] == touched[i] by {
            if i < last {
                assert(touched[i] == s.touched[i]);
            }
        }
        assert forall|i: int, j: int| 0 <= i < j < touched.len() implies (#[trigger] touched[i]).pos
            != (#[trigger] touched[j]).pos by {
            assert(touched[i] == s.touched[i]);
            if j < last {
                assert(touched[j] == s.touched[j]);
            }
        }
        assert forall|i: int| 0 <= i < touched.len() implies !before.contains_key(
            (#[trigger] touched[i]).pos,
        ) || (!before[touched[i].pos].revealed && touched[i].revealed) by {
            if i < last {
                assert(touched[i] == s.touched[i]);
            }
        }
    }
}

/// Visiting the cells around `c` keeps the list true.
proof fn lemma_visit_from_tells(
    cfg: Config,
    before: Map<Coordinate, Cell>,
    s: Fill,
    c: Coordinate,
    k: nat,
)
    requires
        tells_changes(before, s.cells, s.touched),
    ensures
        tells_changes(
            before,
            spec_visit_from(cfg, s, c, k).cells,
            spec_visit_from(cfg, s, c, k).touched,
        ),
        agrees_with_oracle(cfg, s.cells) ==> agrees_with_oracle(
            cfg,
            spec_visit_from(cfg, s, c, k).cells,
        ),
    decreases 8 - k,
{
    if k < 8 {
        lemma_note_tells(cfg, before, s, spec_neighbor(c, k as int), true);
        lemma_materialize_evolves(cfg, s.cells, spec_neighbor(c, k as int), true);
        lemma_visit_from_tells(
            cfg,
            before,
            spec_visit(cfg, s, spec_neighbor(c, k as int)),
            c,
            k + 1,
        );
    }
}

/// The expansion keeps the list true.
proof fn lemma_expand_tells(cfg: Config, before: Map<Coordinate, Cell>, r: Run)
    requires
        tells_changes(before, r.fill.cells, r.fill.touched),
    ensures
        tells_changes(before, spec_expand(cfg, r).fill.cells, spec_expand(cfg, r).fill.touched),
        agrees_with_oracle(cfg, r.fill.cells) ==> agrees_with_oracle(
            cfg,
            spec_expand(cfg, r).fill.cells,
        ),
    decreases cfg.step_limit - r.steps,
{
    if can_step(cfg, r) {
        let taken = Fill {
            expand: r.fill.expand.subrange(1, r.fill.expand.len() as int),
            ..r.fill
        };
        lemma_visit_from_tells(cfg, before, taken, r.fill.expand[0], 0);
        lemma_expand_tells(cfg, before, spec_expand_step(cfg, r));
    }
}

/// Generating the cells around a frontier cell keeps the list true.
proof fn lemma_border_from_tells(
    cfg: Config,
    before: Map<Coordinate, Cell>,
    s: Fill,
    c: Coordinate,
    k: nat,
)
    requires
        tells_changes(before, s.cells, s.touched),
    ensures
        tells_changes(
            before,
            spec_border_from(cfg, s, c, k).cells,
            spec_border_from(cfg, s, c, k).touched,
        ),
        agrees_with_oracle(cfg, s.cells) ==> agrees_with_oracle(
            cfg,
            spec_border_from(cfg, s, c, k).cells,
        ),
    decreases 8 - k,
{
    if k < 8 {
        lemma_note_tells(cfg, before, s, spec_neighbor(c, k as int), false);
        lemma_materialize_evolves(cfg, s.cells, spec_neighbor(c, k as int), false);
        lemma_border_from_tells(
            cfg,
            before,
            spec_border(cfg, s, spec_neighbor(c, k as int)),
            c,
            k + 1,
        );
    }
}

/// Draining the frontier keeps the list true.
proof fn lemma_drain_tells(
    cfg: Config,
    before: Map<Coordinate, Cell>,
    s: Fill,
    frontier: Seq<Coordinate>,
    i: nat,
)
    requires
        tells_changes(before, s.cells, s.touched),
    ensures
        tells_changes(
            before,
            spec_drain(cfg, s, frontier, i).cells,
            spec_drain(cfg, s, frontier, i).touched,
        ),
        agrees_with_oracle(cfg, s.cells) ==> agrees_with_oracle(
            cfg,
            spec_drain(cfg, s, frontier, i).cells,
        ),
    decreases frontier.len() - i,
{
    if i < frontier.len() {
        lemma_border_from_tells(cfg, before, s, frontier[i as int], 0);
        lemma_drain_tells(
            cfg,
            before,
            spec_border_from(cfg, s, frontier[i as int], 0),
            frontier,
            i + 1,
        );
    }
}

/// Uncovering the origin lists it exactly when that changed the board.
proof fn lemma_uncover_tells(cfg: Config, cells: Map<Coordinate, Cell>, origin: Coordinate)
    requires
        agrees_with_oracle(cfg, cells),
    ensures
        tells_changes(
            cells,
            spec_uncover(cfg, cells, origin).cells,
            spec_uncover(cfg, cells, origin).touched,
        ),
        agrees_with_oracle(cfg, spec_uncover(cfg, cells, origin).cells),
{
    let first = spec_uncover(cfg, cells, origin);
    lemma_mines_among_bounded(cfg, origin, 8);
    if !cells.contains_key(origin) || !cells[origin].revealed {
        assert(first.touched[0].pos == origin);
        assert forall|p: Coordinate| #[trigger] first.cells.contains_key(p) implies (
        cells.contains_key(p) && first.cells[p] == cells[p]) || (exists|i: int|
            0 <= i < first.touched.len() && (#[trigger] first.touched[i]).pos == p) by {
            if p == origin {
                assert(first.touched[0].pos == p);
            }
        }
    }
}

/// The list that a reveal returns tells what the reveal changed: each
/// listed cell is stored as listed, none is listed twice, each was generated
/// or uncovered by the reveal, and no other cell is new or changed. The
/// cells still agree with the oracle.
pub proof fn lemma_touched_tells_changes(
    cfg: Config,
    cells: Map<Coordinate, Cell>,
    origin: Coordinate,
)
    requires
        agrees_with_oracle(cfg, cells),
    ensures
        tells_changes(
            cells,
            spec_reveal(cfg, cells, origin).fill.cells,
            spec_reveal(cfg, cells, origin).fill.touched,
        ),
        agrees_with_oracle(cfg, spec_reveal(cfg, cells, origin).fill.cells),
{
    if !settled(cells, origin) {
        lemma_uncover_tells(cfg, cells, origin);
        if !spec_is_bomb(cfg, origin) {
            let seed = spec_seed(cfg, cells, origin);
            let grown = spec_expand(cfg, seed);
            lemma_expand_tells(cfg, cells, seed);
            lemma_drain_tells(cfg, cells, grown.fill, grown.fill.frontier, 0);
        }
    }
}

/// A path from `origin` on which each cell lies beside the one before it
/// and, the origin apart, has no mine on it or around it.
pub open spec fn is_clear_path(cfg: Config, origin: Coordinate, path: Seq<Coordinate>) -> bool {
    &&& path.len() > 0
    &&& path[0] == origin
    &&& forall|i: int|
        0 <= i < path.len() - 1 ==> adjacent(path[i], #[trigger] path[i + 1]) && propagates(
            cfg,
            path[i + 1],
        )
}

/// A fill follows every clear path as far as its budgets let it: where a
/// reveal took at least one step and expanded all cells of a clear path before
/// the `m`-th, the `m`-th cell is generated, is uncovered unless it existed
/// before the reveal, and was expanded too or waited in the queue when the
/// fill ended.
pub proof fn lemma_fill_follows_clear_paths(
    cfg: Config,
    cells: Map<Coordinate, Cell>,
    origin: Coordinate,
    path: Seq<Coordinate>,
    m: int,
)
    requires
        is_clear_path(cfg, origin, path),
        0 <= m < path.len(),
        spec_reveal(cfg, cells, origin).steps > 0,
        forall|j: int|
            0 <= j < m ==> spec_reveal_expanded(cfg, cells, origin).contains(#[trigger] path[j]),
    ensures
        reached(
            cfg,
            cells,
            spec_reveal(cfg, cells, origin),
            spec_reveal_expanded(cfg, cells, origin),
            path[m],
        ),
{
    let run = spec_reveal(cfg, cells, origin);
    let e = spec_reveal_expanded(cfg, cells, origin);
    lemma_flood_containment(cfg, cells, origin);
    if m == 0 {
        let grown = spec_expand(cfg, spec_seed(cfg, cells, origin));
        lemma_expansion_reaches(cfg, cells, origin);
        lemma_drain_grows(cfg, grown.fill, grown.fill.frontier, 0);
        assert(grown.fill.cells.dom().contains(origin));
        assert(e[0] == origin);
        assert(e.contains(origin));
    } else {
        let prev = path[m - 1];
        assert(e.contains(prev));
        let i = choose|i: int| 0 <= i < e.len() && e[i] == prev;
        assert(adjacent(prev, path[m - 1 + 1]));
        let k = choose|k: int| 0 <= k < 8 && path[m] == #[trigger] spec_neighbor(prev, k);
        assert(reached(cfg, cells, run, e, spec_neighbor(e[i], k)));
    }
}

/// Some clear path leads from `origin` to `p`.
pub open spec fn reachable(cfg: Config, origin: Coordinate, p: Coordinate) -> bool {
    exists|path: Seq<Coordinate>| #[trigger] is_clear_path(cfg, origin, path) && path.last() == p
}

/// `p` is the origin or lies beside one of the cells `e`.
pub open spec fn beside(e: Seq<Coordinate>, origin: Coordinate, p: Coordinate) -> bool {
    p == origin || exists|j: int| 0 <= j < e.len() && adjacent(#[trigger] e[j], p)
}

/// Every uncovered cell of `touched` is the origin or lies beside one of
/// the cells `e`.
pub open spec fn uncovered_beside(
    e: Seq<Coordinate>,
    origin: Coordinate,
    touched: Seq<Cell>,
) -> bool {
    forall|i: int|
        0 <= i < touched.len() && (#[trigger] touched[i]).revealed ==> beside(
            e,
            origin,
            touched[i].pos,
        )
}

/// A clear path leads to every cell of `line`.
pub open spec fn all_reachable(cfg: Config, origin: Coordinate, line: Seq<Coordinate>) -> bool {
    forall|i: int| 0 <= i < line.len() ==> reachable(cfg, origin, #[trigger] line[i])
}

/// How many cells of `touched` are uncovered.
pub open spec fn count_uncovered(touched: Seq<Cell>) -> nat
    decreases touched.len(),
{
    if touched.len() == 0 {
        0
    } else {
        count_uncovered(touched.drop_last()) + if touched.last().revealed {
            1nat
        } else {
            0nat
        }
    }
}

/// What holds of the cells that an expansion has taken from its queue
/// (`seen`), of those it has queued and of those it has uncovered.
#[verifier::opaque]
spec fn trail_inv(cfg: Config, origin: Coordinate, seen: Seq<Coordinate>, s: Fill) -> bool {
    &&& uncovered_beside(seen, origin, s.touched)
    &&& all_reachable(cfg, origin, seen)
    &&& all_reachable(cfg, origin, s.expand)
}

/// A clear path can be carried on to a cell beside its end that has no mine
/// on it or around it.
proof fn lemma_path_goes_on(cfg: Config, origin: Coordinate, c: Coordinate, n: Coordinate)
    requires
        reachable(cfg, origin, c),
        adjacent(c, n),
        propagates(cfg, n),
    ensures
        reachable(cfg, origin, n),
{
    let path = choose|path: Seq<Coordinate>| #[trigger]
        is_clear_path(cfg, origin, path) && path.last() == c;
    let longer = path.push(n);
    assert forall|i: int| 0 <= i < longer.len() - 1 implies adjacent(
        longer[i],
        #[trigger] longer[i + 1],
    ) && propagates(cfg, longer[i + 1]) by {
        if i < path.len() - 1 {
            assert(longer[i] == path[i]);
            assert(longer[i + 1] == path[i + 1]);
        } else {
            assert(longer[i] == c);
        }
    }
    assert(is_clear_path(cfg, origin, longer) && longer.last() == n);
}

/// One more listed cell counts for one if it is uncovered.
proof fn lemma_count_push(touched: Seq<Cell>, c: Cell)
    ensures
        count_uncovered(touched.push(c)) == count_uncovered(touched) + if c.revealed {
            1nat
        } else {
            0nat
        },
{
    assert(touched.push(c).drop_last() =~= touched);
}

/// A visit from the cell taken last keeps the trail, and uncovers at most
/// one cell.
proof fn lemma_visit_trail(
    cfg: Config,
    origin: Coordinate,
    seen: Seq<Coordinate>,
    s: Fill,
    k: int,
)
    requires
        0 <= k < 8,
        seen.len() > 0,
        trail_inv(cfg, origin, seen, s),
    ensures
        trail_inv(cfg, origin, seen, spec_visit(cfg, s, spec_neighbor(seen.last(), k))),
        count_uncovered(spec_visit(cfg, s, spec_neighbor(seen.last(), k)).touched)
            <= count_uncovered(s.touched) + 1,
{
    reveal(trail_inv);
    let cur = seen.last();
    let n = spec_neighbor(cur, k);
    let t = spec_visit(cfg, s, n);
    assert(adjacent(cur, n));
    assert(seen[seen.len() - 1] == cur);
    assert(reachable(cfg, origin, cur));
    if propagates(cfg, n) {
        lemma_path_goes_on(cfg, origin, cur, n);
    }
    assert(all_reachable(cfg, origin, t.expand));
    lemma_count_push(s.touched, spec_fresh_cell(cfg, n, true));
    assert forall|i: int| 0 <= i < t.touched.len() && (#[trigger] t.touched[i]).revealed implies beside(
        seen,
        origin,
        t.touched[i].pos,
    ) by {
        if i < s.touched.len() {
            assert(t.touched[i] == s.touched[i]);
        } else {
            assert(adjacent(seen[seen.len() - 1], n));
        }
    }
}

/// Visiting the cells around the cell taken last, from the `k`-th on, keeps
/// the trail and uncovers at most one cell each.
proof fn lemma_visit_from_trail(
    cfg: Config,
    origin: Coordinate,
    seen: Seq<Coordinate>,
    s: Fill,
    k: nat,
)
    requires
        k <= 8,
        seen.len() > 0,
        trail_inv(cfg, origin, seen, s),
    ensures
        trail_inv(cfg, origin, seen, spec_visit_from(cfg, s, seen.last(), k)),
        count_uncovered(spec_visit_from(cfg, s, seen.last(), k).touched) <= count_uncovered(
            s.touched,
        ) + 8 - k,
    decreases 8 - k,
{
    if k < 8 {
        lemma_visit_trail(cfg, origin, seen, s, k as int);
        lemma_visit_from_trail(
            cfg,
            origin,
            seen,
            spec_visit(cfg, s, spec_neighbor(seen.last(), k as int)),
            k + 1,
        );
    }
}

/// One step of the expansion keeps the trail and uncovers at most eight
/// cells.
proof fn lemma_step_trail(cfg: Config, origin: Coordinate, done: Seq<Coordinate>, r: Run)
    requires
        trail_inv(cfg, origin, done, r.fill),
        r.fill.expand.len() > 0,
    ensures
        trail_inv(cfg, origin, done.push(r.fill.expand[0]), spec_expand_step(cfg, r).fill),
        count_uncovered(spec_expand_step(cfg, r).fill.touched) <= count_uncovered(r.fill.touched)
            + 8,
{
    let s = r.fill;
    let cur = s.expand[0];
    let seen = done.push(cur);
    let taken = Fill { expand: s.expand.subrange(1, s.expand.len() as int), ..s };
    assert(trail_inv(cfg, origin, seen, taken)) by {
        reveal(trail_inv);
        assert forall|i: int| 0 <= i < taken.expand.len() implies reachable(
            cfg,
            origin,
            #[trigger] taken.expand[i],
        ) by {
            assert(taken.expand[i] == s.expand[i + 1]);
        }
        assert forall|i: int| 0 <= i < seen.len() implies reachable(
            cfg,
            origin,
            #[trigger] seen[i],
        ) by {
            if i < done.len() {
                assert(seen[i] == done[i]);
            } else {
                assert(seen[i] == s.expand[0]);
            }
        }
        assert forall|i: int| 0 <= i < s.touched.len() && (#[trigger] s.touched[i]).revealed implies beside(
            seen,
            origin,
            s.touched[i].pos,
        ) by {
            let p = s.touched[i].pos;
            assert(beside(done, origin, p));
            if p != origin {
                let j = choose|j: int| 0 <= j < done.len() && adjacent(#[trigger] done[j], p);
                assert(seen[j] == done[j]);
            }
        }
    }
    assert(seen.last() == cur);
    lemma_visit_from_trail(cfg, origin, seen, taken, 0);
}

/// The whole expansion keeps the trail and uncovers at most eight cells a
/// step.
proof fn lemma_expand_trail(cfg: Config, origin: Coordinate, done: Seq<Coordinate>, r: Run)
    requires
        trail_inv(cfg, origin, done, r.fill),
    ensures
        trail_inv(cfg, origin, spec_expanded(cfg, r, done), spec_expand(cfg, r).fill),
        count_uncovered(spec_expand(cfg, r).fill.touched) + 8 * r.steps <= count_uncovered(
            r.fill.touched,
        ) + 8 * spec_expand(cfg, r).steps,
    decreases cfg.step_limit - r.steps,
{
    if can_step(cfg, r) {
        lemma_step_trail(cfg, origin, done, r);
        lemma_expand_trail(cfg, origin, done.push(r.fill.expand[0]), spec_expand_step(cfg, r));
    }
}

/// Generating the cells around a frontier cell uncovers nothing.
proof fn lemma_border_from_trail(
    cfg: Config,
    origin: Coordinate,
    e: Seq<Coordinate>,
    s: Fill,
    c: Coordinate,
    k: nat,
)
    requires
        uncovered_beside(e, origin, s.touched),
    ensures
        uncovered_beside(e, origin, spec_border_from(cfg, s, c, k).touched),
        count_uncovered(spec_border_from(cfg, s, c, k).touched) == count_uncovered(s.touched),
    decreases 8 - k,
{
    if k < 8 {
        let n = spec_neighbor(c, k as int);
        let t = spec_border(cfg, s, n);
        lemma_count_push(s.touched, spec_fresh_cell(cfg, n, false));
        assert forall|i: int| 0 <= i < t.touched.len() && (#[trigger] t.touched[i]).revealed implies beside(
            e,
            origin,
            t.touched[i].pos,
        ) by {
            if i < s.touched.len() {
                assert(t.touched[i] == s.touched[i]);
            }
        }
        lemma_border_from_trail(cfg, origin, e, t, c, k + 1);
    }
}

/// Draining the frontier uncovers nothing.
proof fn lemma_drain_trail(
    cfg: Config,
    origin: Coordinate,
    e: Seq<Coordinate>,
    s: Fill,
    frontier: Seq<Coordinate>,
    i: nat,
)
    requires
        uncovered_beside(e, origin, s.touched),
    ensures
        uncovered_beside(e, origin, spec_drain(cfg, s, frontier, i).touched),
        count_uncovered(spec_drain(cfg, s, frontier, i).touched) == count_uncovered(s.touched),
    decreases frontier.len() - i,
{
    if i < frontier.len() {
        lemma_border_from_trail(cfg, origin, e, s, frontier[i as int], 0);
        lemma_drain_trail(
            cfg,
            origin,
            e,
            spec_border_from(cfg, s, frontier[i as int], 0),
            frontier,
            i + 1,
        );
    }
}

/// Where a reveal uncovers cells, and how many. Of every reveal on a board
/// that agrees with the oracle:
///
/// - each cell that it expanded is reached from the origin by a clear path;
/// - each cell that it lists as uncovered is the origin or lies beside a
///   cell that it expanded, so the cells generated around the frontier are
///   all covered;
/// - it uncovers at most one cell and eight more for each step, so at most
///   one and eight times the step limit.
pub proof fn lemma_uncovered_cells_lie_by_the_region(
    cfg: Config,
    cells: Map<Coordinate, Cell>,
    origin: Coordinate,
)
    requires
        agrees_with_oracle(cfg, cells),
    ensures
        all_reachable(cfg, origin, spec_reveal_expanded(cfg, cells, origin)),
        uncovered_beside(
            spec_reveal_expanded(cfg, cells, origin),
            origin,
            spec_reveal(cfg, cells, origin).fill.touched,
        ),
        count_uncovered(spec_reveal(cfg, cells, origin).fill.touched) <= 1 + 8 * spec_reveal(
            cfg,
            cells,
            origin,
        ).steps,
        count_uncovered(spec_reveal(cfg, cells, origin).fill.touched) <= 1 + 8 * cfg.step_limit,
{
    let run = spec_reveal(cfg, cells, origin);
    lemma_reveal_within_budget(cfg, cells, origin);
    if !settled(cells, origin) {
        let first = spec_uncover(cfg, cells, origin);
        assert(count_uncovered(first.touched) <= 1) by {
            if first.touched.len() > 0 {
                let c = first.touched[0];
                assert(first.touched =~= Seq::<Cell>::empty().push(c));
                lemma_count_push(Seq::<Cell>::empty(), c);
                assert(count_uncovered(Seq::<Cell>::empty()) == 0);
            }
        }
        assert(uncovered_beside(Seq::<Coordinate>::empty(), origin, first.touched));
        if !spec_is_bomb(cfg, origin) {
            let seed = spec_seed(cfg, cells, origin);
            let grown = spec_expand(cfg, seed);
            let e = spec_expanded(cfg, seed, Seq::empty());
            assert(trail_inv(cfg, origin, Seq::empty(), seed.fill)) by {
                reveal(trail_inv);
                let path = seq![origin];
                assert(is_clear_path(cfg, origin, path) && path.last() == origin);
                assert(seed.fill.expand[0] == origin);
            }
            lemma_expand_trail(cfg, origin, Seq::empty(), seed);
            assert(uncovered_beside(e, origin, grown.fill.touched) && all_reachable(
                cfg,
                origin,
                e,
            )) by {
                reveal(trail_inv);
            }
            lemma_drain_trail(cfg, origin, e, grown.fill, grown.fill.frontier, 0);
        }
    }
}

/// `a` is `b` on an axis that wraps at the limits of `i64`.
pub open spec fn same_on_axis(a: i64, b: int) -> bool {
    (a - b) % 0x1_0000_0000_0000_0000 == 0
}

/// `p` lies within `d` king moves of `origin`: it is `origin` moved by at
/// most `d` along each axis.
pub open spec fn near(origin: Coordinate, p: Coordinate, d: int) -> bool {
    exists|dx: int, dy: int|
        -d <= dx <= d && -d <= dy <= d && #[trigger] same_on_axis(p.x, origin.x + dx)
            && #[trigger] same_on_axis(p.y, origin.y + dy)
}

/// Every listed cell lies within `d` king moves of `origin`.
pub open spec fn cells_near(origin: Coordinate, touched: Seq<Cell>, d: int) -> bool {
    forall|i: int| 0 <= i < touched.len() ==> near(origin, (#[trigger] touched[i]).pos, d)
}

/// Every cell of `line` lies within `d` king moves of `origin`.
pub open spec fn line_near(origin: Coordinate, line: Seq<Coordinate>, d: int) -> bool {
    forall|i: int| 0 <= i < line.len() ==> near(origin, #[trigger] line[i], d)
}

/// All that a fill has listed or queued lies within `d` king moves of `origin`.
#[verifier::opaque]
spec fn reach_inv(origin: Coordinate, s: Fill, d: int) -> bool {
    &&& cells_near(origin, s.touched, d)
    &&& line_near(origin, s.expand, d)
    &&& line_near(origin, s.frontier, d)
}

/// A cell beside one within `d` king moves lies within `d + 1`.
proof fn lemma_near_neighbor(origin: Coordinate, c: Coordinate, k: int, d: int)
    requires
        0 <= k < 8,
        0 <= d,
        near(origin, c, d),
    ensures
        near(origin, spec_neighbor(c, k), d + 1),
        near(origin, c, d + 1),
{
    let (dx, dy) = choose|dx: int, dy: int|
        -d <= dx <= d && -d <= dy <= d && #[trigger] same_on_axis(c.x, origin.x + dx)
            && #[trigger] same_on_axis(c.y, origin.y + dy);
    let n = spec_neighbor(c, k);
    let ox = crate::coord::offset_x(k) as int;
    let oy = crate::coord::offset_y(k) as int;
    assert(same_on_axis(n.x, origin.x + (dx + ox)));
    assert(same_on_axis(n.y, origin.y + (dy + oy)));
    assert(same_on_axis(c.x, origin.x + dx) && same_on_axis(c.y, origin.y + dy));
}

/// What was within `d` king moves is within `d + 1`.
proof fn lemma_reach_widens(origin: Coordinate, s: Fill, d: int)
    requires
        0 <= d,
        reach_inv(origin, s, d),
    ensures
        reach_inv(origin, s, d + 1),
{
    reveal(reach_inv);
    assert forall|i: int| 0 <= i < s.touched.len() implies near(
        origin,
        (#[trigger] s.touched[i]).pos,
        d + 1,
    ) by {
        lemma_near_neighbor(origin, s.touched[i].pos, 0, d);
    }
    assert forall|i: int| 0 <= i < s.expand.len() implies near(
        origin,
        #[trigger] s.expand[i],
        d + 1,
    ) by {
        lemma_near_neighbor(origin, s.expand[i], 0, d);
    }
    assert forall|i: int| 0 <= i < s.frontier.len() implies near(
        origin,
        #[trigger] s.frontier[i],
        d + 1,
    ) by {
        lemma_near_neighbor(origin, s.frontier[i], 0, d);
    }
}

/// Visiting the cells around `cur`, from the `k`-th on, lists and queues
/// only cells within one more king move than `cur`.
proof fn lemma_visit_from_near(
    cfg: Config,
    origin: Coordinate,
    s: Fill,
    cur: Coordinate,
    k: nat,
    d: int,
)
    requires
        k <= 8,
        0 <= d,
        near(origin, cur, d),
        reach_inv(origin, s, d + 1),
    ensures
        reach_inv(origin, spec_visit_from(cfg, s, cur, k), d + 1),
    decreases 8 - k,
{
    if k < 8 {
        let n = spec_neighbor(cur, k as int);
        let t = spec_visit(cfg, s, n);
        lemma_near_neighbor(origin, cur, k as int, d);
        assert(reach_inv(origin, t, d + 1)) by {
            reveal(reach_inv);
            assert forall|i: int| 0 <= i < t.touched.len() implies near(
                origin,
                (#[trigger] t.touched[i]).pos,
                d + 1,
            ) by {
                if i < s.touched.len() {
                    assert(t.touched[i] == s.touched[i]);
                }
            }
            assert forall|i: int| 0 <= i < t.expand.len() implies near(
                origin,
                #[trigger] t.expand[i],
                d + 1,
            ) by {
                if i < s.expand.len() {
                    assert(t.expand[i] == s.expand[i]);
                }
            }
            assert forall|i: int| 0 <= i < t.frontier.len() implies near(
                origin,
                #[trigger] t.frontier[i],
                d + 1,
            ) by {
                if i < s.frontier.len() {
                    assert(t.frontier[i] == s.frontier[i]);
                }
            }
        }
        lemma_visit_from_near(cfg, origin, t, cur, k + 1, d);
    }
}

/// The expansion lists and queues only cells within as many king moves of
/// the origin as it has taken steps.
proof fn lemma_expand_near(cfg: Config, origin: Coordinate, r: Run)
    requires
        reach_inv(origin, r.fill, r.steps as int),
    ensures
        reach_inv(origin, spec_expand(cfg, r).fill, spec_expand(cfg, r).steps as int),
    decreases cfg.step_limit - r.steps,
{
    if can_step(cfg, r) {
        let s = r.fill;
        let d = r.steps as int;
        let taken = Fill { expand: s.expand.subrange(1, s.expand.len() as int), ..s };
        lemma_reach_widens(origin, s, d);
        assert(near(origin, s.expand[0], d) && reach_inv(origin, taken, d + 1)) by {
            reveal(reach_inv);
            assert forall|i: int| 0 <= i < taken.expand.len() implies near(
                origin,
                #[trigger] taken.expand[i],
                d + 1,
            ) by {
                assert(taken.expand[i] == s.expand[i + 1]);
            }
        }
        lemma_visit_from_near(cfg, origin, taken, s.expand[0], 0, d);
        lemma_expand_near(cfg, origin, spec_expand_step(cfg, r));
    }
}

/// Generating the cells around a frontier cell lists only cells within one
/// more king move than that cell.
proof fn lemma_border_from_near(
    cfg: Config,
    origin: Coordinate,
    s: Fill,
    c: Coordinate,
    k: nat,
    d: int,
)
    requires
        k <= 8,
        0 <= d,
        near(origin, c, d),
        cells_near(origin, s.touched, d + 1),
    ensures
        cells_near(origin, spec_border_from(cfg, s, c, k).touched, d + 1),
    decreases 8 - k,
{
    if k < 8 {
        let n = spec_neighbor(c, k as int);
        let t = spec_border(cfg, s, n);
        lemma_near_neighbor(origin, c, k as int, d);
        assert forall|i: int| 0 <= i < t.touched.len() implies near(
            origin,
            (#[trigger] t.touched[i]).pos,
            d + 1,
        ) by {
            if i < s.touched.len() {
                assert(t.touched[i] == s.touched[i]);
            }
        }
        lemma_border_from_near(cfg, origin, t, c, k + 1, d);
    }
}

/// Draining a frontier within `d` king moves lists only cells within `d + 1`.
proof fn lemma_drain_near(
    cfg: Config,
    origin: Coordinate,
    s: Fill,
    frontier: Seq<Coordinate>,
    i: nat,
    d: int,
)
    requires
        0 <= d,
        line_near(origin, frontier, d),
        cells_near(origin, s.touched, d + 1),
    ensures
        cells_near(origin, spec_drain(cfg, s, frontier, i).touched, d + 1),
    decreases frontier.len() - i,
{
    if i < frontier.len() {
        lemma_border_from_near(cfg, origin, s, frontier[i as int], 0, d);
        lemma_drain_near(
            cfg,
            origin,
            spec_border_from(cfg, s, frontier[i as int], 0),
            frontier,
            i + 1,
            d,
        );
    }
}

/// A reveal stays near its origin: on a board that agrees with the oracle,
/// every cell that it lists lies within one king move more than it took
/// steps, so within the step limit and one.
pub proof fn lemma_reveal_stays_near(cfg: Config, cells: Map<Coordinate, Cell>, origin: Coordinate)
    requires
        agrees_with_oracle(cfg, cells),
    ensures
        cells_near(
            origin,
            spec_reveal(cfg, cells, origin).fill.touched,
            spec_reveal(cfg, cells, origin).steps as int + 1,
        ),
        spec_reveal(cfg, cells, origin).steps + 1 <= cfg.step_limit + 1,
{
    lemma_reveal_within_budget(cfg, cells, origin);
    assert(same_on_axis(origin.x, origin.x + 0) && same_on_axis(origin.y, origin.y + 0));
    assert(near(origin, origin, 0));
    lemma_near_neighbor(origin, origin, 0, 0);
    if !settled(cells, origin) {
        let first = spec_uncover(cfg, cells, origin);
        assert(cells_near(origin, first.touched, 0));
        assert(cells_near(origin, first.touched, 1));
        if !spec_is_bomb(cfg, origin) {
            let seed = spec_seed(cfg, cells, origin);
            let grown = spec_expand(cfg, seed);
            assert(reach_inv(origin, seed.fill, 0)) by {
                reveal(reach_inv);
            }
            lemma_expand_near(cfg, origin, seed);
            lemma_reach_widens(origin, grown.fill, grown.steps as int);
            assert(line_near(origin, grown.fill.frontier, grown.steps as int) && cells_near(
                origin,
                grown.fill.touched,
                grown.steps as int + 1,
            )) by {
                reveal(reach_inv);
            }
            lemma_drain_near(
                cfg,
                origin,
                grown.fill,
                grown.fill.frontier,
                0,
                grown.steps as int,
            );
        }
    }
}

} // verus!
