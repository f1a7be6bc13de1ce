//! The board store: the cells that have been generated so far.

use std::collections::HashMap;
use vstd::prelude::*;
use vstd::std_specs::hash::*;
use crate::coord::Coordinate;
use crate::oracle::{Config, is_bomb, neighbor_count, spec_is_bomb, spec_neighbor_count,
    lemma_mines_among_bounded};

verus! {

broadcast use vstd::std_specs::hash::group_hash_axioms;

/// A generated cell. Where no cell is stored, nothing has been generated yet.
#[derive(Clone, Copy, Debug, PartialEq, Eq, Structural)]
pub struct Cell {
    /// Where the cell lies.
    pub pos: Coordinate,
    /// Whether it holds a mine.
    pub is_bomb: bool,
    /// How many of the eight cells around it hold a mine.
    pub neighbor_count: u8,
    /// Whether the player has uncovered it.
    pub revealed: bool,
}

/// The cell that the oracle generates at `p`.
pub open spec fn spec_fresh_cell(cfg: Config, p: Coordinate, reveal: bool) -> Cell {
    Cell {
        pos: p,
        is_bomb: spec_is_bomb(cfg, p),
        neighbor_count: spec_neighbor_count(cfg, p) as u8,
        revealed: reveal,
    }
}

/// Every stored cell lies where it is filed and agrees with the oracle.
pub open spec fn agrees_with_oracle(cfg: Config, cells: Map<Coordinate, Cell>) -> bool {
    forall|p: Coordinate| #[trigger]
        cells.contains_key(p) ==> {
            &&& cells[p].pos == p
            &&& cells[p].is_bomb == spec_is_bomb(cfg, p)
            &&& cells[p].neighbor_count == spec_neighbor_count(cfg, p)
        }
}

/// `after` can follow `before` in the life of a board: no cell is lost, no
/// cell changes its mine or its count, and no uncovered cell is covered again.
pub open spec fn evolves(before: Map<Coordinate, Cell>, after: Map<Coordinate, Cell>) -> bool {
    forall|p: Coordinate| #[trigger]
        before.contains_key(p) ==> {
            &&& after.contains_key(p)
            &&& after[p].pos == before[p].pos
            &&& after[p].is_bomb == before[p].is_bomb
            &&& after[p].neighbor_count == before[p].neighbor_count
            &&& before[p].revealed ==> after[p].revealed
        }
}

/// What generating `p` does to the stored cells: nothing where `p` is
/// stored already, else the oracle's cell is added.
pub open spec fn spec_materialize(
    cfg: Config,
    cells: Map<Coordinate, Cell>,
    p: Coordinate,
    reveal: bool,
) -> Map<Coordinate, Cell> {
    if cells.contains_key(p) {
        cells
    } else {
        cells.insert(p, spec_fresh_cell(cfg, p, reveal))
    }
}

/// What uncovering `p` does to the stored cells.
pub open spec fn spec_mark_revealed(cells: Map<Coordinate, Cell>, p: Coordinate) -> Map<
    Coordinate,
    Cell,
> {
    if cells.contains_key(p) {
        cells.insert(p, Cell { revealed: true, ..cells[p] })
    } else {
        cells
    }
}

/// The number under which a coordinate is filed.
pub closed spec fn key_of(p: Coordinate) -> u128 {
    ((p.x - i64::MIN) * 0x1_0000_0000_0000_0000 + (p.y - i64::MIN)) as u128
}

proof fn lemma_key_of_injective(p: Coordinate, q: Coordinate)
    ensures
        key_of(p) == key_of(q) <==> p == q,
{
}

fn key(p: Coordinate) -> (k: u128)
    ensures
        k == key_of(p),
{
    let hi: u128 = (p.x as i128 - i64::MIN as i128) as u128;
    let lo: u128 = (p.y as i128 - i64::MIN as i128) as u128;
    hi * 0x1_0000_0000_0000_0000 + lo
}

/// The generated cells of one game, with the configuration that made them.
pub struct Board {
    config: Config,
    cells: HashMap<u128, Cell>,
}

impl View for Board {
    type V = Map<Coordinate, Cell>;

    /// The generated cells, by coordinate.
    closed spec fn view(&self) -> Map<Coordinate, Cell> {
        Map::new(
            |p: Coordinate| self.cells@.contains_key(key_of(p)),
            |p: Coordinate| self.cells@[key_of(p)],
        )
    }
}

impl Board {
    /// The configuration the board was made with.
    pub closed spec fn spec_config(&self) -> Config {
        self.config
    }

    /// The configuration is usable, finitely many cells are stored, and
    /// every cell agrees with the oracle.
    pub open spec fn wf(&self) -> bool {
        &&& self.spec_config().wf()
        &&& self@.dom().finite()
        &&& agrees_with_oracle(self.spec_config(), self@)
    }

    /// An empty board.
    pub fn new(config: Config) -> (b: Board)
        requires
            config.wf(),
        ensures
            b.wf(),
            b.spec_config() == config,
            b@ == Map::<Coordinate, Cell>::empty(),
    {
        let b = Board { config, cells: HashMap::new() };
        assert(b@ =~= Map::<Coordinate, Cell>::empty());
        b
    }

    /// The configuration the board was made with.
    pub fn config(&self) -> (c: Config)
        ensures
            c == self.spec_config(),
    {
        self.config
    }

    /// Whether `p` has been generated.
    pub fn contains(&self, p: Coordinate) -> (b: bool)
        ensures
            b == self@.contains_key(p),
    {
        let k = key(p);
        self.cells.contains_key(&k)
    }

    /// The cell at `p`, if it has been generated.
    pub fn query(&self, p: Coordinate) -> (c: Option<Cell>)
        ensures
            c == (if self@.contains_key(p) {
                Some(self@[p])
            } else {
                None
            }),
    {
        let k = key(p);
        match self.cells.get(&k) {
            Some(c) => Some(*c),
            None => None,
        }
    }

    /// Files `cell` under `p`, replacing what was there.
    fn store(&mut self, p: Coordinate, cell: Cell)
        ensures
            final(self)@ == old(self)@.insert(p, cell),
            final(self).spec_config() == old(self).spec_config(),
    {
        let k = key(p);
        self.cells.insert(k, cell);
        proof {
            assert forall|q: Coordinate| key_of(q) == key_of(p) implies q == p by {
                lemma_key_of_injective(q, p);
            }
            assert(self@ =~= old(self)@.insert(p, cell));
        }
    }

    /// Generates the cell at `p` unless it exists, and hands it back with
    /// whether it existed.
    pub fn place(&mut self, p: Coordinate, reveal: bool) -> (r: (bool, Cell))
        requires
            old(self).wf(),
        ensures
            final(self).wf(),
            final(self).spec_config() == old(self).spec_config(),
            final(self)@ == spec_materialize(old(self).spec_config(), old(self)@, p, reveal),
            evolves(old(self)@, final(self)@),
            r.0 == old(self)@.contains_key(p),
            final(self)@.contains_key(p),
            r.1 == final(self)@[p],
    {
        match self.query(p) {
            Some(c) => (true, c),
            None => {
                proof {
                    lemma_mines_among_bounded(self.config, p, 8);
                }
                let cell = Cell {
                    pos: p,
                    is_bomb: is_bomb(&self.config, p),
                    neighbor_count: neighbor_count(&self.config, p),
                    revealed: reveal,
                };
                self.store(p, cell);
                (false, cell)
            },
        }
    }

    /// Generates the cell at `p` unless it exists. Returns whether it
    /// existed, and whether no mine lies around it. An existing cell is left
    /// as it is, covered or not.
    pub fn materialize(&mut self, p: Coordinate, reveal: bool) -> (r: (bool, bool))
        requires
            old(self).wf(),
        ensures
            final(self).wf(),
            final(self).spec_config() == old(self).spec_config(),
            final(self)@ == spec_materialize(old(self).spec_config(), old(self)@, p, reveal),
            evolves(old(self)@, final(self)@),
            r.0 == old(self)@.contains_key(p),
            r.1 == (spec_neighbor_count(old(self).spec_config(), p) == 0),
    {
        let (existed, cell) = self.place(p, reveal);
        (existed, cell.neighbor_count == 0)
    }

    /// Uncovers the cell at `p`. Nothing changes where `p` is uncovered
    /// already or has not been generated.
    pub fn mark_revealed(&mut self, p: Coordinate)
        requires
            old(self).wf(),
        ensures
            final(self).wf(),
            final(self).spec_config() == old(self).spec_config(),
            final(self)@ == spec_mark_revealed(old(self)@, p),
            evolves(old(self)@, final(self)@),
    {
        match self.query(p) {
            Some(c) => {
                if !c.revealed {
                    self.store(p, Cell { revealed: true, ..c });
                } else {
                    assert(self@ =~= spec_mark_revealed(self@, p));
                }
            },
            None => {},
        }
    }
}

impl Default for Board {
    /// An empty board with the default configuration.
    fn default() -> (b: Board)
        ensures
            b.wf(),
            b.spec_config() == (Config { divisor: 10, step_limit: 100, idle_limit: 1000 }),
            b@ == Map::<Coordinate, Cell>::empty(),
    {
        Board::new(Config::default())
    }
}

} // verus!
