//! The flood-fill revealer: uncovering a cell and the mine-free region
//! around it, within a budget of steps.

use std::collections::VecDeque;
use vstd::prelude::*;
use crate::board::{Board, Cell, evolves, spec_fresh_cell, spec_mark_revealed, spec_materialize};
use crate::coord::{Coordinate, spec_neighbor};
use crate::oracle::{Config, spec_is_bomb, spec_neighbor_count};
use crate::theorems::lemma_touched_tells_changes;

verus! {

/// The state of a fill in progress.
pub struct Fill {
    /// The generated cells.
    pub cells: Map<Coordinate, Cell>,
    /// Cells whose neighbours are still to be uncovered, oldest first.
    pub expand: Seq<Coordinate>,
    /// Cells at which the fill stopped, in the order they were met.
    pub frontier: Seq<Coordinate>,
    /// Every cell generated or uncovered so far, in that order.
    pub touched: Seq<Cell>,
}

/// A fill together with its two counters.
pub struct Run {
    pub fill: Fill,
    /// Cells taken from `expand` so far.
    pub steps: nat,
    /// How many of the latest of them in a row generated nothing.
    pub idle: nat,
}

/// A fill carries on through `p`: no mine lies at `p` or around it.
pub open spec fn propagates(cfg: Config, p: Coordinate) -> bool {
    spec_neighbor_count(cfg, p) == 0 && !spec_is_bomb(cfg, p)
}

/// All eight cells around `p` have been generated.
pub open spec fn ringed(cells: Map<Coordinate, Cell>, p: Coordinate) -> bool {
    forall|k: int| 0 <= k < 8 ==> cells.contains_key(#[trigger] spec_neighbor(p, k))
}

/// `p` needs no reveal: it is uncovered and all eight cells around it have
/// been generated.
pub open spec fn settled(cells: Map<Coordinate, Cell>, p: Coordinate) -> bool {
    &&& cells.contains_key(p)
    &&& cells[p].revealed
    &&& ringed(cells, p)
}

/// The list of touched cells after `p` was generated with `reveal`: longer
/// by the new cell where `p` had not been generated.
pub open spec fn spec_note(
    cfg: Config,
    s: Fill,
    p: Coordinate,
    reveal: bool,
) -> Seq<Cell> {
    if s.cells.contains_key(p) {
        s.touched
    } else {
        s.touched.push(spec_fresh_cell(cfg, p, reveal))
    }
}

/// The fill reaches the cell `n` beside a cell that it expands: `n` is
/// generated uncovered unless it exists, and queued for expansion if the fill
/// carries on through it and it is not queued already, else put on the
/// frontier.
pub open spec fn spec_visit(cfg: Config, s: Fill, n: Coordinate) -> Fill {
    let cells = spec_materialize(cfg, s.cells, n, true);
    let touched = spec_note(cfg, s, n, true);
    if propagates(cfg, n) {
        Fill {
            cells,
            touched,
            expand: if s.expand.contains(n) {
                s.expand
            } else {
                s.expand.push(n)
            },
            frontier: s.frontier,
        }
    } else {
        Fill { cells, touched, expand: s.expand, frontier: s.frontier.push(n) }
    }
}

/// The fill visits the neighbours of `cur` from the `k`-th on.
pub open spec fn spec_visit_from(cfg: Config, s: Fill, cur: Coordinate, k: nat) -> Fill
    decreases 8 - k,
{
    if k >= 8 {
        s
    } else {
        spec_visit_from(cfg, spec_visit(cfg, s, spec_neighbor(cur, k as int)), cur, k + 1)
    }
}

/// Whether the expansion goes on: both budgets hold and a cell is queued.
pub open spec fn can_step(cfg: Config, r: Run) -> bool {
    r.steps < cfg.step_limit && r.idle < cfg.idle_limit && r.fill.expand.len() > 0
}

/// One step of the expansion: the oldest queued cell is taken and its eight
/// neighbours are visited. The step is idle when it generated no cell.
pub open spec fn spec_expand_step(cfg: Config, r: Run) -> Run {
    let cur = r.fill.expand[0];
    let taken = Fill { expand: r.fill.expand.subrange(1, r.fill.expand.len() as int), ..r.fill };
    let after = spec_visit_from(cfg, taken, cur, 0);
    Run {
        fill: after,
        steps: r.steps + 1,
        idle: if after.touched.len() > r.fill.touched.len() {
            0
        } else {
            r.idle + 1
        },
    }
}

/// The expansion, run until a budget is spent or nothing is queued.
pub open spec fn spec_expand(cfg: Config, r: Run) -> Run
    decreases cfg.step_limit - r.steps,
{
    if can_step(cfg, r) {
        spec_expand(cfg, spec_expand_step(cfg, r))
    } else {
        r
    }
}

/// A cell beside the frontier is generated covered unless it exists.
pub open spec fn spec_border(cfg: Config, s: Fill, n: Coordinate) -> Fill {
    Fill {
        cells: spec_materialize(cfg, s.cells, n, false),
        touched: spec_note(cfg, s, n, false),
        ..s
    }
}

/// The neighbours of the frontier cell `cur`, from the `k`-th on, are
/// generated covered.
pub open spec fn spec_border_from(cfg: Config, s: Fill, cur: Coordinate, k: nat) -> Fill
    decreases 8 - k,
{
    if k >= 8 {
        s
    } else {
        spec_border_from(cfg, spec_border(cfg, s, spec_neighbor(cur, k as int)), cur, k + 1)
    }
}

/// The frontier cells from the `i`-th on get their borders.
pub open spec fn spec_drain(cfg: Config, s: Fill, frontier: Seq<Coordinate>, i: nat) -> Fill
    decreases frontier.len() - i,
{
    if i >= frontier.len() {
        s
    } else {
        spec_drain(cfg, spec_border_from(cfg, s, frontier[i as int], 0), frontier, i + 1)
    }
}

/// The clicked cell itself is uncovered: generated if need be, and listed
/// as touched unless it was uncovered before.
pub open spec fn spec_uncover(cfg: Config, cells: Map<Coordinate, Cell>, p: Coordinate) -> Fill {
    if !cells.contains_key(p) {
        Fill {
            cells: cells.insert(p, spec_fresh_cell(cfg, p, true)),
            expand: Seq::empty(),
            frontier: Seq::empty(),
            touched: seq![spec_fresh_cell(cfg, p, true)],
        }
    } else if !cells[p].revealed {
        Fill {
            cells: spec_mark_revealed(cells, p),
            expand: Seq::empty(),
            frontier: Seq::empty(),
            touched: seq![Cell { revealed: true, ..cells[p] }],
        }
    } else {
        Fill { cells, expand: Seq::empty(), frontier: Seq::empty(), touched: Seq::empty() }
    }
}

/// The expansion as it starts: the origin uncovered, and queued alone.
pub open spec fn spec_seed(cfg: Config, cells: Map<Coordinate, Cell>, origin: Coordinate) -> Run {
    Run {
        fill: Fill { expand: seq![origin], ..spec_uncover(cfg, cells, origin) },
        steps: 0,
        idle: 0,
    }
}

/// A whole reveal at `origin`.
///
/// A settled origin is left alone. Otherwise the origin is uncovered, and
/// unless it is a mine the expansion starts from it; when the expansion has
/// ended, the cells around the frontier are generated covered.
pub open spec fn spec_reveal(cfg: Config, cells: Map<Coordinate, Cell>, origin: Coordinate) -> Run {
    if settled(cells, origin) {
        Run {
            fill: Fill {
                cells,
                expand: Seq::empty(),
                frontier: Seq::empty(),
                touched: Seq::empty(),
            },
            steps: 0,
            idle: 0,
        }
    } else {
        let first = spec_uncover(cfg, cells, origin);
        if spec_is_bomb(cfg, origin) {
            Run { fill: first, steps: 0, idle: 0 }
        } else {
            let r = spec_expand(cfg, spec_seed(cfg, cells, origin));
            Run { fill: spec_drain(cfg, r.fill, r.fill.frontier, 0), steps: r.steps, idle: r.idle }
        }
    }
}

/// The list `touched` tells what changed since the board was `before`:
/// each listed cell is stored as listed, no cell is listed twice, a listed
/// cell is new or newly uncovered, and every cell that is new or differs from
/// what it was is listed.
pub open spec fn tells_changes(
    before: Map<Coordinate, Cell>,
    cells: Map<Coordinate, Cell>,
    touched: Seq<Cell>,
) -> bool {
    &&& forall|i: int|
        0 <= i < touched.len() ==> cells.contains_key((#[trigger] touched[i]).pos)
            && cells[touched[i].pos] == touched[i]
    &&& forall|i: int, j: int|
        0 <= i < j < touched.len() ==> (#[trigger] touched[i]).pos != (#[trigger] touched[j]).pos
    &&& forall|i: int|
        0 <= i < touched.len() ==> !before.contains_key((#[trigger] touched[i]).pos) || (
        !before[touched[i].pos].revealed && touched[i].revealed)
    &&& forall|p: Coordinate| #[trigger]
        cells.contains_key(p) ==> (before.contains_key(p) && cells[p] == before[p]) || (exists|
            i: int,
        |
            0 <= i < touched.len() && (#[trigger] touched[i]).pos == p)
    &&& forall|p: Coordinate| before.contains_key(p) ==> #[trigger] cells.contains_key(p)
}

/// What a reveal hands back.
#[derive(Debug)]
pub struct Revealed {
    /// Every cell that was generated or uncovered, in that order.
    pub cells: Vec<Cell>,
    /// How many cells the fill expanded.
    pub steps: usize,
    /// How many of the latest of them in a row generated nothing.
    pub idle_steps: usize,
}

/// Whether `p` is queued.
fn queued(expand: &VecDeque<Coordinate>, p: Coordinate) -> (b: bool)
    ensures
        b == expand@.contains(p),
{
    let mut i: usize = 0;
    while i < expand.len()
        invariant
            i <= expand@.len(),
            forall|j: int| 0 <= j < i ==> expand@[j] != p,
        decreases expand@.len() - i,
    {
        if expand[i] == p {
            return true;
        }
        i = i + 1;
    }
    false
}

impl Board {
    /// Whether `p` is uncovered with all eight cells around it generated.
    pub fn is_settled(&self, p: Coordinate) -> (b: bool)
        ensures
            b == settled(self@, p),
    {
        match self.query(p) {
            None => false,
            Some(c) => {
                if !c.revealed {
                    return false;
                }
                let mut k: usize = 0;
                while k < 8
                    invariant
                        k <= 8,
                        forall|j: int| 0 <= j < k ==> self@.contains_key(#[trigger] spec_neighbor(p, j)),
                    decreases 8 - k,
                {
                    if !self.contains(p.neighbor(k)) {
                        return false;
                    }
                    k = k + 1;
                }
                true
            },
        }
    }

    /// Visits the eight cells around `cur`, which the fill expands.
    fn visit_around(
        &mut self,
        cur: Coordinate,
        expand: &mut VecDeque<Coordinate>,
        frontier: &mut Vec<Coordinate>,
        touched: &mut Vec<Cell>,
    )
        requires
            old(self).wf(),
        ensures
            final(self).wf(),
            final(self).spec_config() == old(self).spec_config(),
            evolves(old(self)@, final(self)@),
            (Fill {
                cells: final(self)@,
                expand: final(expand)@,
                frontier: final(frontier)@,
                touched: final(touched)@,
            }) == spec_visit_from(
                old(self).spec_config(),
                Fill {
                    cells: old(self)@,
                    expand: old(expand)@,
                    frontier: old(frontier)@,
                    touched: old(touched)@,
                },
                cur,
                0,
            ),
    {
        let ghost cfg = self.spec_config();
        let ghost start = Fill {
            cells: self@,
            expand: expand@,
            frontier: frontier@,
            touched: touched@,
        };
        let mut k: usize = 0;
        while k < 8
            invariant
                k <= 8,
                self.wf(),
                self.spec_config() == cfg,
                evolves(start.cells, self@),
                spec_visit_from(
                    cfg,
                    Fill { cells: self@, expand: expand@, frontier: frontier@, touched: touched@ },
                    cur,
                    k as nat,
                ) == spec_visit_from(cfg, start, cur, 0),
            decreases 8 - k,
        {
            let n = cur.neighbor(k);
            let (existed, cell) = self.place(n, true);
            if !existed {
                touched.push(cell);
            }
            if cell.neighbor_count == 0 && !cell.is_bomb {
                if !queued(expand, n) {
                    expand.push_back(n);
                }
            } else {
                frontier.push(n);
            }
            k = k + 1;
        }
    }

    /// Generates, covered, the eight cells around the frontier cell `cur`.
    fn border_around(&mut self, cur: Coordinate, touched: &mut Vec<Cell>, Ghost(s): Ghost<Fill>)
        requires
            old(self).wf(),
            s.cells == old(self)@,
            s.touched == old(touched)@,
        ensures
            final(self).wf(),
            final(self).spec_config() == old(self).spec_config(),
            evolves(old(self)@, final(self)@),
            (Fill { cells: final(self)@, touched: final(touched)@, ..s }) == spec_border_from(
                old(self).spec_config(),
                s,
                cur,
                0,
            ),
    {
        let ghost cfg = self.spec_config();
        let mut k: usize = 0;
        while k < 8
            invariant
                k <= 8,
                self.wf(),
                self.spec_config() == cfg,
                evolves(s.cells, self@),
                spec_border_from(
                    cfg,
                    Fill { cells: self@, touched: touched@, ..s },
                    cur,
                    k as nat,
                ) == spec_border_from(cfg, s, cur, 0),
            decreases 8 - k,
        {
            let n = cur.neighbor(k);
            let (existed, cell) = self.place(n, false);
            if !existed {
                touched.push(cell);
            }
            k = k + 1;
        }
    }

    /// Uncovers `origin` and, unless it is a mine, the mine-free region
    /// around it as far as the budgets allow; then generates, covered, the
    /// cells around the frontier of that region. Returns the cells that were
    /// generated or uncovered, and how much of the budgets was spent.
    ///
    /// A settled origin is left alone, so a second reveal straight after the
    /// first does nothing. A cell that existed covered before the reveal stays
    /// covered unless it is the origin.
    pub fn reveal_at(&mut self, origin: Coordinate) -> (out: Revealed)
        requires
            old(self).wf(),
        ensures
            final(self).wf(),
            final(self).spec_config() == old(self).spec_config(),
            final(self)@ == spec_reveal(old(self).spec_config(), old(self)@, origin).fill.cells,
            out.cells@ == spec_reveal(old(self).spec_config(), old(self)@, origin).fill.touched,
            out.steps == spec_reveal(old(self).spec_config(), old(self)@, origin).steps,
            out.idle_steps == spec_reveal(old(self).spec_config(), old(self)@, origin).idle,
            out.steps <= old(self).spec_config().step_limit,
            out.idle_steps <= old(self).spec_config().idle_limit,
            evolves(old(self)@, final(self)@),
            tells_changes(old(self)@, final(self)@, out.cells@),
    {
        let cfg = self.config();
        let ghost before = self@;
        proof {
            lemma_touched_tells_changes(cfg, before, origin);
        }
        let mut touched: Vec<Cell> = Vec::new();
        if self.is_settled(origin) {
            return Revealed { cells: touched, steps: 0, idle_steps: 0 };
        }
        let (existed, cell) = self.place(origin, true);
        if !existed {
            touched.push(cell);
        } else if !cell.revealed {
            self.mark_revealed(origin);
            touched.push(Cell { revealed: true, ..cell });
        }
        assert(self@ == spec_uncover(cfg, before, origin).cells);
        assert(touched@ =~= spec_uncover(cfg, before, origin).touched);
        if cell.is_bomb {
            return Revealed { cells: touched, steps: 0, idle_steps: 0 };
        }
        let mut expand: VecDeque<Coordinate> = VecDeque::new();
        expand.push_back(origin);
        let mut frontier: Vec<Coordinate> = Vec::new();
        let mut steps: usize = 0;
        let mut idle: usize = 0;
        let ghost seed = Run {
            fill: Fill { cells: self@, expand: expand@, frontier: frontier@, touched: touched@ },
            steps: 0,
            idle: 0,
        };
        assert(seed == spec_seed(cfg, before, origin));
        while steps < cfg.step_limit && idle < cfg.idle_limit && expand.len() > 0
            invariant
                self.wf(),
                self.spec_config() == cfg,
                evolves(before, self@),
                steps <= cfg.step_limit,
                idle <= cfg.idle_limit,
                spec_expand(
                    cfg,
                    Run {
                        fill: Fill {
                            cells: self@,
                            expand: expand@,
                            frontier: frontier@,
                            touched: touched@,
                        },
                        steps: steps as nat,
                        idle: idle as nat,
                    },
                ) == spec_expand(cfg, seed),
            decreases cfg.step_limit - steps,
        {
            let had = touched.len();
            let cur = expand.pop_front().unwrap();
            self.visit_around(cur, &mut expand, &mut frontier, &mut touched);
            steps = steps + 1;
            if touched.len() > had {
                idle = 0;
            } else {
                idle = idle + 1;
            }
        }
        let ghost grown = Fill {
            cells: self@,
            expand: expand@,
            frontier: frontier@,
            touched: touched@,
        };
        assert(spec_expand(cfg, seed).fill == grown);
        let mut i: usize = 0;
        while i < frontier.len()
            invariant
                self.wf(),
                self.spec_config() == cfg,
                evolves(before, self@),
                i <= frontier@.len(),
                frontier@ == grown.frontier,
                spec_drain(
                    cfg,
                    Fill { cells: self@, touched: touched@, ..grown },
                    frontier@,
                    i as nat,
                ) == spec_drain(cfg, grown, frontier@, 0),
            decreases frontier@.len() - i,
        {
            let at = frontier[i];
            let ghost now = Fill { cells: self@, touched: touched@, ..grown };
            self.border_around(at, &mut touched, Ghost(now));
            i = i + 1;
        }
        Revealed { cells: touched, steps, idle_steps: idle }
    }
}

} // verus!
