//! The mine oracle: a pure function from coordinates to mines.
//!
//! Nothing here reads or writes stored state, so the answers for a coordinate
//! are the same however often, and in whatever order, they are asked for.

use std::collections::hash_map::DefaultHasher;
use std::hash::{Hash, Hasher};
use vstd::prelude::*;
use vstd::std_specs::hash::*;
use crate::coord::{Coordinate, spec_neighbor};

verus! {

/// Tunable parameters of a game.
#[derive(Clone, Copy, Debug, PartialEq, Eq, Structural)]
pub struct Config {
    /// A cell other than the origin holds a mine when its hash leaves the
    /// remainder 1 on division by `divisor`: about one cell in `divisor`
    /// where `divisor` is at least 2, and none where it is 1.
    pub divisor: u64,
    /// Most cells a single reveal may expand.
    pub step_limit: usize,
    /// Most consecutive expansions that find nothing new.
    pub idle_limit: usize,
}

impl Config {
    /// A configuration is usable when its divisor is not zero.
    pub open spec fn wf(&self) -> bool {
        self.divisor > 0
    }

    /// `None` exactly when `divisor` is zero.
    pub fn new(divisor: u64, step_limit: usize, idle_limit: usize) -> (c: Option<Config>)
        ensures
            c == (if divisor == 0 {
                None
            } else {
                Some(Config { divisor, step_limit, idle_limit })
            }),
    {
        if divisor == 0 {
            None
        } else {
            Some(Config { divisor, step_limit, idle_limit })
        }
    }
}

impl Default for Config {
    /// One mine in ten cells, a hundred expansions, a thousand idle ones.
    fn default() -> (c: Config)
        ensures
            c == (Config { divisor: 10, step_limit: 100, idle_limit: 1000 }),
    {
        Config { divisor: 10, step_limit: 100, idle_limit: 1000 }
    }
}

/// What hashing the pair of coordinates `(x, y)` writes into a hasher: the
/// writes that std makes for an array of the two, first `x`, then `y`.
pub uninterp spec fn pair_writes(x: i64, y: i64) -> Seq<Seq<u8>>;

/// The hash of a coordinate: what std's default hasher, newly made, gives
/// after the pair was hashed into it.
pub open spec fn spec_cell_hash(p: Coordinate) -> u64 {
    DefaultHasher::spec_finish(pair_writes(p.x, p.y))
}

/// Whether a mine lies at `p`. The origin never holds one; elsewhere the
/// hash of the coordinate decides.
pub open spec fn spec_is_bomb(cfg: Config, p: Coordinate) -> bool {
    !(p.x == 0 && p.y == 0) && spec_cell_hash(p) % cfg.divisor == 1
}

/// How many of the first `k` neighbours of `p` hold a mine.
pub open spec fn mines_among(cfg: Config, p: Coordinate, k: nat) -> nat
    decreases k,
{
    if k == 0 {
        0
    } else {
        let rest = mines_among(cfg, p, (k - 1) as nat);
        if spec_is_bomb(cfg, spec_neighbor(p, k - 1)) {
            rest + 1
        } else {
            rest
        }
    }
}

/// How many of the eight cells around `p` hold a mine.
pub open spec fn spec_neighbor_count(cfg: Config, p: Coordinate) -> nat {
    mines_among(cfg, p, 8)
}

/// No more mines than neighbours looked at.
pub proof fn lemma_mines_among_bounded(cfg: Config, p: Coordinate, k: nat)
    ensures
        mines_among(cfg, p, k) <= k,
    decreases k,
{
    if k > 0 {
        lemma_mines_among_bounded(cfg, p, (k - 1) as nat);
    }
}

/// Hashes the pair `[x, y]`, each number taken as an `isize`, into `state`
/// with std's `Hash::hash` for arrays. Not proved: that the hasher is left as
/// if the writes named `pair_writes(x, y)`, which depend on nothing but the
/// two numbers, had been added to those made before.
#[verifier::external_body]
fn feed_pair(state: &mut DefaultHasher, x: i64, y: i64)
    ensures
        final(state)@ == old(state)@ + pair_writes(x, y),
{
    [x as isize, y as isize].hash(state);
}

/// The hash that decides where the mines lie.
pub fn cell_hash(p: Coordinate) -> (h: u64)
    ensures
        h == spec_cell_hash(p),
{
    let mut state = DefaultHasher::new();
    feed_pair(&mut state, p.x, p.y);
    assert(state@ =~= pair_writes(p.x, p.y));
    state.finish()
}

/// Whether a mine lies at `p`.
pub fn is_bomb(cfg: &Config, p: Coordinate) -> (b: bool)
    requires
        cfg.wf(),
    ensures
        b == spec_is_bomb(*cfg, p),
{
    !(p.x == 0 && p.y == 0) && cell_hash(p) % cfg.divisor == 1
}

/// The number of mines in the eight cells around `p`.
pub fn neighbor_count(cfg: &Config, p: Coordinate) -> (n: u8)
    requires
        cfg.wf(),
    ensures
        n == spec_neighbor_count(*cfg, p),
        n <= 8,
{
    let mut n: u8 = 0;
    let mut k: usize = 0;
    while k < 8
        invariant
            cfg.wf(),
            k <= 8,
            n <= k,
            n == mines_among(*cfg, p, k as nat),
        decreases 8 - k,
    {
        if is_bomb(cfg, p.neighbor(k)) {
            n = n + 1;
        }
        k = k + 1;
    }
    n
}

/// The origin is never mined, whatever the density.
pub proof fn lemma_origin_is_clear(cfg: Config)
    ensures
        !spec_is_bomb(cfg, Coordinate { x: 0, y: 0 }),
{
}

/// With a divisor of one the whole plane is free of mines.
pub proof fn lemma_divisor_one_has_no_mines(cfg: Config, p: Coordinate)
    requires
        cfg.divisor == 1,
    ensures
        !spec_is_bomb(cfg, p),
        spec_neighbor_count(cfg, p) == 0,
{
    assert forall|q: Coordinate| !spec_is_bomb(cfg, q) by {}
    reveal_with_fuel(mines_among, 9);
}

} // verus!
