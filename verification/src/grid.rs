//! The lattice: flat cell storage, coordinate/index mapping, toroidal wrap,
//! seeding, and the per-tick update that keeps every live-neighbour counter
//! equal to the true count.

use crate::cell::{Cell, CellState};
use crate::color::ColorMethod;
use crate::indexes::Indexes;
use crate::pos::Pos3;
use crate::rule::{
    lemma_offsets_small,
    spec_birth, spec_dying, spec_max_neighbours, spec_offsets, spec_survival, NeighbourMethod,
    Rule,
};
use vstd::arithmetic::div_mod::{
    lemma_fundamental_div_mod, lemma_fundamental_div_mod_converse, lemma_mod_bound,
    lemma_mod_add_multiples_vanish, lemma_multiply_divide_lt, lemma_div_pos_is_pos,
    lemma_small_mod,
};
use vstd::prelude::*;

verus! {

/// The largest supported side length: `1290^3` still fits in 32 bits, so
/// index arithmetic cannot overflow on any platform.
pub const MAX_SIZE: usize = 1290;

/// The smallest side length the noise seeding supports: with the seeding
/// radius of 6, every drawn position stays within one wraparound of the
/// lattice ([-size, 2*size) on each axis).
pub const MIN_SIZE: usize = 4;

/// Half the extent of the random cluster that seeding spawns.
pub const NOISE_RADIUS: i32 = 6;

/// How many random positions one seeding pass draws:
/// `(2 * NOISE_RADIUS)^3`.
pub const NOISE_AMOUNT: usize = 1728;

/// Toroidal reduction of one coordinate: `(c + size) mod size`. For any
/// `c >= -size` this is the representative of `c` in `[0, size)`.
pub open spec fn spec_wrap1(size: int, c: int) -> int {
    (c + size) % size
}

/// Lattice coordinates to flat index: `x + y*size + z*size^2`.
pub open spec fn spec_pos_to_idx(size: int, x: int, y: int, z: int) -> int {
    x + y * size + z * size * size
}

pub open spec fn spec_idx_x(size: int, idx: int) -> int {
    idx % size
}

pub open spec fn spec_idx_y(size: int, idx: int) -> int {
    (idx / size) % size
}

pub open spec fn spec_idx_z(size: int, idx: int) -> int {
    idx / size / size
}

/// The flat index of the `k`-th topology neighbour of the cell at flat
/// index `j`, under wraparound.
pub open spec fn spec_neighbour(size: int, m: NeighbourMethod, j: int, k: int) -> int {
    let o = spec_offsets(m)[k];
    spec_pos_to_idx(
        size,
        spec_wrap1(size, spec_idx_x(size, j) + o.0),
        spec_wrap1(size, spec_idx_y(size, j) + o.1),
        spec_wrap1(size, spec_idx_z(size, j) + o.2),
    )
}

/// How many of the first `k` topology neighbours of cell `j` are flagged
/// (per offset: a cell reachable through two offsets counts twice, which
/// can only happen on lattices of side below 3).
pub open spec fn spec_count_upto(
    flags: Seq<bool>,
    size: int,
    m: NeighbourMethod,
    j: int,
    k: int,
) -> int
    decreases k,
{
    if k <= 0 {
        0
    } else {
        spec_count_upto(flags, size, m, j, k - 1) + if flags[spec_neighbour(size, m, j, k - 1)] {
            1int
        } else {
            0int
        }
    }
}

/// The number of flagged cells among all topology neighbours of cell `j`.
pub open spec fn spec_neighbour_count(
    flags: Seq<bool>,
    size: int,
    m: NeighbourMethod,
    j: int,
) -> int {
    spec_count_upto(flags, size, m, j, spec_max_neighbours(m))
}

/// Among the first `k` offsets, how many map cell `a` onto cell `b`.
pub open spec fn spec_mult_upto(size: int, m: NeighbourMethod, a: int, b: int, k: int) -> int
    decreases k,
{
    if k <= 0 {
        0
    } else {
        spec_mult_upto(size, m, a, b, k - 1) + if spec_neighbour(size, m, a, k - 1) == b {
            1int
        } else {
            0int
        }
    }
}

/// Over all offsets, how many map cell `a` onto cell `b`.
pub open spec fn spec_mult(size: int, m: NeighbourMethod, a: int, b: int) -> int {
    spec_mult_upto(size, m, a, b, spec_max_neighbours(m))
}

/// The aliveness flags of a cell sequence.
pub open spec fn spec_alive(cells: Seq<Cell>) -> Seq<bool> {
    Seq::new(cells.len(), |i: int| cells[i].state == CellState::Alive)
}

/// Whether `j` is a flat index the noise seeding can reach: the wrapped
/// position of the lattice center moved by at most `NOISE_RADIUS` on each
/// axis.
pub open spec fn spec_noise_target(size: int, j: int) -> bool {
    exists|dx: int, dy: int, dz: int|
        #![trigger spec_wrap1(size, size / 2 + dx), spec_wrap1(size, size / 2 + dy),
            spec_wrap1(size, size / 2 + dz)]
        {
            &&& -NOISE_RADIUS <= dx <= NOISE_RADIUS
            &&& -NOISE_RADIUS <= dy <= NOISE_RADIUS
            &&& -NOISE_RADIUS <= dz <= NOISE_RADIUS
            &&& j == spec_pos_to_idx(
                size,
                spec_wrap1(size, size / 2 + dx),
                spec_wrap1(size, size / 2 + dy),
                spec_wrap1(size, size / 2 + dz),
            )
        }
}

/// `drawn` is a full record of one seeding pass from `orig` to `cur`: one
/// in-range flat index per draw, each inside the noise footprint, and a
/// cell is `Alive` in `cur` exactly when it was drawn while `Empty` in
/// `orig`, keeping its old tag otherwise (repeats and occupied hits change
/// nothing).
pub open spec fn spec_seeding_of(
    orig: Seq<Cell>,
    cur: Seq<Cell>,
    size: int,
    drawn: Seq<int>,
) -> bool {
    &&& cur.len() == orig.len()
    &&& drawn.len() == NOISE_AMOUNT
    &&& (forall|k: int|
        0 <= k < drawn.len() ==> 0 <= #[trigger] drawn[k] < cur.len() && spec_noise_target(
            size,
            drawn[k],
        ))
    &&& (forall|j: int|
        0 <= j < cur.len() ==> (#[trigger] cur[j].state) == (if orig[j].state
            == CellState::Empty && drawn.contains(j) {
            CellState::Alive
        } else {
            orig[j].state
        }))
}

/// A freshly seeded lattice: `Alive` exactly on the positions one seeding
/// pass drew over an all-`Empty` lattice, `Empty` everywhere else.
pub open spec fn spec_noise_cluster(cur: Seq<Cell>, size: int, drawn: Seq<int>) -> bool {
    &&& drawn.len() == NOISE_AMOUNT
    &&& (forall|k: int|
        0 <= k < drawn.len() ==> 0 <= #[trigger] drawn[k] < cur.len() && spec_noise_target(
            size,
            drawn[k],
        ))
    &&& (forall|j: int|
        0 <= j < cur.len() ==> (#[trigger] cur[j].state) == (if drawn.contains(j) {
            CellState::Alive
        } else {
            CellState::Empty
        }))
}

/// The state a cell moves to this tick, as a function of its own pre-tick
/// tag and counter alone.
pub open spec fn spec_next_state(r: Rule, c: Cell) -> CellState {
    match c.state {
        CellState::Empty => spec_birth(r, c.neighbours),
        CellState::Alive => spec_survival(r, c.neighbours),
        CellState::Dying(level) => spec_dying(level),
    }
}

/// The cubic lattice together with its rule and the renderer's colour
/// policy choice.
#[derive(Debug)]
pub struct AutomatonGrid {
    pub size: usize,
    pub cells: Vec<Cell>,
    pub rule: Rule,
    pub color_method: ColorMethod,
}

impl AutomatonGrid {
    pub open spec fn side(self) -> int {
        self.size as int
    }

    pub open spec fn volume(self) -> int {
        self.side() * self.side() * self.side()
    }

    pub open spec fn size_ok(self) -> bool {
        MIN_SIZE <= self.size <= MAX_SIZE
    }

    /// Every stored decay level is at least 1; `Dying(0)` never appears.
    pub open spec fn states_ok(self) -> bool {
        forall|j: int|
            0 <= j < self.cells@.len() ==> (#[trigger] self.cells@[j].state matches
                CellState::Dying(level) ==> level >= 1)
    }

    /// The central invariant: every cell's counter equals the true number
    /// of `Alive` cells among its topology neighbours under wraparound.
    pub open spec fn counts_ok(self) -> bool {
        forall|j: int|
            0 <= j < self.cells@.len() ==> (#[trigger] self.cells@[j].neighbours) as int
                == spec_neighbour_count(
                spec_alive(self.cells@),
                self.side(),
                self.rule.neighbour_method,
                j,
            )
    }

    /// Grid well-formedness, established by the constructors and preserved
    /// by every tick.
    pub open spec fn wf(self) -> bool {
        &&& self.size_ok()
        &&& self.cells@.len() == self.volume()
        &&& self.rule.wf()
        &&& self.states_ok()
        &&& self.counts_ok()
    }

    /// The lattice center, `floor(size / 2)` on each axis.
    pub fn center(&self) -> (c: Pos3)
        requires
            self.size_ok(),
        ensures
            c.x as int == self.side() / 2,
            c.y as int == self.side() / 2,
            c.z as int == self.side() / 2,
            0 <= (c.x as int) < self.side(),
    {
        let h = (self.size / 2) as i32;
        Pos3::new(h, h, h)
    }

    pub fn idx_to_pos(&self, idx: usize) -> (p: Pos3)
        requires
            self.size_ok(),
            idx < self.volume(),
        ensures
            p.x as int == spec_idx_x(self.side(), idx as int),
            p.y as int == spec_idx_y(self.side(), idx as int),
            p.z as int == spec_idx_z(self.side(), idx as int),
            0 <= (p.x as int) < self.side(),
            0 <= (p.y as int) < self.side(),
            0 <= (p.z as int) < self.side(),
    {
        proof {
            lemma_idx_to_pos_to_idx(self.side(), idx as int);
        }
        let s = self.size;
        Pos3::new((idx % s) as i32, (idx / s % s) as i32, (idx / s / s) as i32)
    }

    pub fn pos_to_idx(&self, pos: Pos3) -> (idx: usize)
        requires
            self.size_ok(),
            0 <= (pos.x as int) < self.side(),
            0 <= (pos.y as int) < self.side(),
            0 <= (pos.z as int) < self.side(),
        ensures
            idx as int == spec_pos_to_idx(self.side(), pos.x as int, pos.y as int, pos.z as int),
            idx < self.volume(),
    {
        let s = self.size;
        proof {
            assert(pos.y * s <= s * s && pos.z * s <= s * s && pos.z * s * s <= s * s * s
                && pos.x + pos.y * s + pos.z
                * s * s < s * s * s && s * s <= 1290 * 1290 && s * s * s <= 1290 * 1290 * 1290)
                by (nonlinear_arith)
                requires
                    0 <= pos.x < s,
                    0 <= pos.y < s,
                    0 <= pos.z < s,
                    s <= 1290,
            ;
        }
        (pos.x as usize) + (pos.y as usize) * s + (pos.z as usize) * s * s
    }

    /// Component-wise toroidal wrap: positions that would leave the lattice
    /// re-enter at the other end. One addition of `size` suffices because
    /// callers only move at most one wraparound out of range.
    pub fn wrap(&self, pos: Pos3) -> (r: Pos3)
        requires
            self.size_ok(),
            -self.side() <= pos.x as int,
            -self.side() <= pos.y as int,
            -self.side() <= pos.z as int,
            pos.x as int + self.side() <= i32::MAX,
            pos.y as int + self.side() <= i32::MAX,
            pos.z as int + self.side() <= i32::MAX,
        ensures
            r.x as int == spec_wrap1(self.side(), pos.x as int),
            r.y as int == spec_wrap1(self.side(), pos.y as int),
            r.z as int == spec_wrap1(self.side(), pos.z as int),
            0 <= (r.x as int) < self.side(),
            0 <= (r.y as int) < self.side(),
            0 <= (r.z as int) < self.side(),
    {
        let bounds = self.size as i32;
        proof {
            lemma_mod_bound(pos.x + self.side(), self.side());
            lemma_mod_bound(pos.y + self.side(), self.side());
            lemma_mod_bound(pos.z + self.side(), self.side());
        }
        Pos3::new((pos.x + bounds) % bounds, (pos.y + bounds) % bounds, (pos.z + bounds) % bounds)
    }
}

impl AutomatonGrid {
    /// Add (or remove) one unit to the counter of every topology neighbour
    /// of `idx`. The ghost `flags` are the aliveness the counters currently
    /// reflect; afterwards they reflect `flags` with `idx` flipped.
    fn update_neighbours(&mut self, idx: usize, increase: bool, Ghost(flags): Ghost<Seq<bool>>)
        requires
            old(self).size_ok(),
            old(self).cells@.len() == old(self).volume(),
            idx < old(self).cells@.len(),
            flags.len() == old(self).cells@.len(),
            forall|j: int|
                0 <= j < old(self).cells@.len() ==> (#[trigger] old(
                    self,
                ).cells@[j].neighbours) as int == spec_neighbour_count(
                    flags,
                    old(self).side(),
                    old(self).rule.neighbour_method,
                    j,
                ),
            flags[idx as int] == !increase,
        ensures
            final(self).size == old(self).size,
            final(self).rule == old(self).rule,
            final(self).color_method == old(self).color_method,
            final(self).cells@.len() == old(self).cells@.len(),
            forall|j: int|
                0 <= j < final(self).cells@.len() ==> final(self).cells@[j].state
                    == old(self).cells@[j].state,
            forall|j: int|
                0 <= j < final(self).cells@.len()
                    ==> (#[trigger] final(self).cells@[j].neighbours) as int
                    == spec_neighbour_count(
                    flags.update(idx as int, increase),
                    old(self).side(),
                    old(self).rule.neighbour_method,
                    j,
                ),
    {
        let ghost side = old(self).side();
        let ghost mth = old(self).rule.neighbour_method;
        let ghost sign: int = if increase {
            1int
        } else {
            -1int
        };
        let pos = self.idx_to_pos(idx);
        let max = self.rule.get_max_neighbours();
        let mut k: u8 = 0;
        proof {
            lemma_offsets_small(mth);
        }
        while k < max
            invariant
                self.size == old(self).size,
                self.rule == old(self).rule,
                self.color_method == old(self).color_method,
                self.cells@.len() == old(self).cells@.len(),
                old(self).size_ok(),
                old(self).cells@.len() == old(self).volume(),
                idx < old(self).cells@.len(),
                flags.len() == old(self).cells@.len(),
                flags[idx as int] == !increase,
                side == old(self).side(),
                mth == old(self).rule.neighbour_method,
                sign == if increase {
                    1int
                } else {
                    -1int
                },
                max as int == spec_max_neighbours(mth),
                k <= max,
                pos.x as int == spec_idx_x(side, idx as int),
                pos.y as int == spec_idx_y(side, idx as int),
                pos.z as int == spec_idx_z(side, idx as int),
                0 <= (pos.x as int) < side,
                0 <= (pos.y as int) < side,
                0 <= (pos.z as int) < side,
                forall|j: int|
                    0 <= j < self.cells@.len() ==> self.cells@[j].state == old(
                        self,
                    ).cells@[j].state,
                forall|j: int|
                    0 <= j < self.cells@.len() ==> (#[trigger] self.cells@[j].neighbours) as int
                        == spec_neighbour_count(flags, side, mth, j) + sign * spec_mult_upto(
                        side,
                        mth,
                        idx as int,
                        j,
                        k as int,
                    ),
            decreases max - k,
        {
            let off = self.rule.neighbour_method.get_offset(k);
            proof {
                lemma_offsets_small(mth);
            }
            let npos = self.wrap(Pos3::new(pos.x + off.x, pos.y + off.y, pos.z + off.z));
            let nidx = self.pos_to_idx(npos);
            proof {
                assert(nidx as int == spec_neighbour(side, mth, idx as int, k as int));
                lemma_count_upto_bounds(flags, side, mth, nidx as int, spec_max_neighbours(mth));
                lemma_mult_upto_bounds(side, mth, idx as int, nidx as int, k as int);
                lemma_mult_upto_monotone(
                    side,
                    mth,
                    idx as int,
                    nidx as int,
                    k as int + 1,
                    spec_max_neighbours(mth),
                );
                if !increase {
                    lemma_mult_le_count(flags, side, mth, nidx as int, idx as int,
                        spec_max_neighbours(mth));
                    lemma_mult_sym(side, mth, idx as int, nidx as int);
                }
            }
            let mut c = self.cells[nidx];
            if increase {
                c.increase_neighbours();
            } else {
                c.decrease_neighbours();
            }
            self.cells[nidx] = c;
            proof {
                assert forall|j: int|
                    0 <= j < self.cells@.len() implies (#[trigger] self.cells@[j].neighbours) as int
                    == spec_neighbour_count(flags, side, mth, j) + sign * spec_mult_upto(
                    side,
                    mth,
                    idx as int,
                    j,
                    k as int + 1,
                ) by {
                    assert(spec_mult_upto(side, mth, idx as int, j, k as int + 1)
                        == spec_mult_upto(side, mth, idx as int, j, k as int) + (if spec_neighbour(
                        side,
                        mth,
                        idx as int,
                        k as int,
                    ) == j {
                        1int
                    } else {
                        0int
                    }));
                }
            }
            k = k + 1;
        }
        proof {
            assert forall|j: int|
                0 <= j < self.cells@.len() implies (#[trigger] self.cells@[j].neighbours) as int
                == spec_neighbour_count(
                flags.update(idx as int, increase),
                side,
                mth,
                j,
            ) by {
                lemma_count_update(flags, side, mth, j, idx as int, increase,
                    spec_max_neighbours(mth));
                if 0 <= j < old(self).volume() {
                    lemma_mult_sym(side, mth, idx as int, j);
                }
            }
        }
    }
}

impl AutomatonGrid {
    /// An unseeded grid: `size^3` cells, all `Empty` with zero counters.
    pub fn new_empty(size: usize, rule: Rule, color_method: ColorMethod) -> (g: AutomatonGrid)
        requires
            MIN_SIZE <= size <= MAX_SIZE,
            rule.wf(),
        ensures
            g.wf(),
            g.size == size,
            g.rule == rule,
            g.color_method == color_method,
            forall|j: int|
                0 <= j < g.cells@.len() ==> (#[trigger] g.cells@[j]) == (Cell {
                    state: CellState::Empty,
                    neighbours: 0u8,
                }),
    {
        proof {
            assert(size * size <= 1290 * 1290 && size * size * size <= 1290 * 1290 * 1290)
                by (nonlinear_arith)
                requires
                    size <= 1290,
            ;
        }
        let n = size * size * size;
        let cells = vec![Cell { state: CellState::Empty, neighbours: 0u8 }; n];
        let g = AutomatonGrid { size, cells, rule, color_method };
        proof {
            assert forall|j: int|
                0 <= j < g.cells@.len() implies (#[trigger] g.cells@[j].neighbours) as int
                == spec_neighbour_count(
                spec_alive(g.cells@),
                g.side(),
                g.rule.neighbour_method,
                j,
            ) by {
                lemma_count_none(
                    spec_alive(g.cells@),
                    g.side(),
                    g.rule.neighbour_method,
                    j,
                    spec_max_neighbours(g.rule.neighbour_method),
                );
            }
        }
        g
    }

    /// Force the cell at a wrapped, in-range position to `Alive` if it is
    /// currently `Empty` (otherwise nothing changes), keeping every
    /// neighbour counter consistent.
    pub fn spawn_cell(&mut self, pos: Pos3)
        requires
            old(self).wf(),
            0 <= (pos.x as int) < old(self).side(),
            0 <= (pos.y as int) < old(self).side(),
            0 <= (pos.z as int) < old(self).side(),
        ensures
            final(self).wf(),
            final(self).size == old(self).size,
            final(self).rule == old(self).rule,
            final(self).color_method == old(self).color_method,
            final(self).cells@.len() == old(self).cells@.len(),
            forall|j: int|
                0 <= j < final(self).cells@.len() ==> final(self).cells@[j].state == (if j
                    == spec_pos_to_idx(
                    old(self).side(),
                    pos.x as int,
                    pos.y as int,
                    pos.z as int,
                ) && old(self).cells@[j].state == CellState::Empty {
                    CellState::Alive
                } else {
                    old(self).cells@[j].state
                }),
    {
        let idx = self.pos_to_idx(pos);
        let c = self.cells[idx];
        if let CellState::Empty = c.state {
            let ghost flags = spec_alive(old(self).cells@);
            self.cells[idx] = Cell { state: CellState::Alive, neighbours: c.neighbours };
            proof {
                assert forall|j: int|
                    0 <= j < self.cells@.len() implies (#[trigger] self.cells@[j].neighbours) as int
                    == spec_neighbour_count(flags, self.side(), self.rule.neighbour_method, j) by {
                    lemma_count_congruent(
                        spec_alive(old(self).cells@),
                        flags,
                        self.side(),
                        self.rule.neighbour_method,
                        j,
                        spec_max_neighbours(self.rule.neighbour_method),
                    );
                }
            }
            self.update_neighbours(idx, true, Ghost(flags));
            proof {
                let newflags = flags.update(idx as int, true);
                assert forall|j: int|
                    0 <= j < self.cells@.len() implies (#[trigger] self.cells@[j].neighbours) as int
                    == spec_neighbour_count(
                    spec_alive(self.cells@),
                    self.side(),
                    self.rule.neighbour_method,
                    j,
                ) by {
                    assert(forall|i: int|
                        0 <= i < old(self).volume() ==> newflags[i] == spec_alive(
                            self.cells@,
                        )[i]);
                    lemma_count_congruent(
                        newflags,
                        spec_alive(self.cells@),
                        self.side(),
                        self.rule.neighbour_method,
                        j,
                        spec_max_neighbours(self.rule.neighbour_method),
                    );
                }
            }
        }
    }
}

/// A named preset bundling a full rule with a colour policy.
#[derive(Debug, Clone)]
pub struct Example {
    pub name: String,
    pub rule: Rule,
    pub color_method: ColorMethod,
}

/// The preset library handed to the configuration surface.
#[derive(Debug, Default)]
pub struct Examples(pub Vec<Example>);

impl Examples {
    pub fn add(&mut self, example: Example)
        ensures
            final(self).0@ == old(self).0@.push(example),
    {
        self.0.push(example);
    }
}

/// `flags` with the first `i` of the listed indices set to `b`.
pub open spec fn spec_set_all(flags: Seq<bool>, idxs: Seq<usize>, i: int, b: bool) -> Seq<bool>
    decreases i,
{
    if i <= 0 {
        flags
    } else {
        spec_set_all(flags, idxs, i - 1, b).update(idxs[i - 1] as int, b)
    }
}

pub proof fn lemma_set_all_len(flags: Seq<bool>, idxs: Seq<usize>, i: int, b: bool)
    requires
        forall|i2: int| 0 <= i2 < i ==> (#[trigger] idxs[i2] as int) < flags.len(),
    ensures
        spec_set_all(flags, idxs, i, b).len() == flags.len(),
    decreases i,
{
    if i > 0 {
        lemma_set_all_len(flags, idxs, i - 1, b);
    }
}

/// Where `spec_set_all` leaves each slot: `b` on the listed indices, the
/// original flag elsewhere.
pub proof fn lemma_set_all_at(flags: Seq<bool>, idxs: Seq<usize>, i: int, b: bool, t: int)
    requires
        0 <= t < flags.len(),
        forall|i2: int| 0 <= i2 < i ==> (#[trigger] idxs[i2] as int) < flags.len(),
    ensures
        spec_set_all(flags, idxs, i, b)[t] == if exists|i2: int|
            0 <= i2 < i && #[trigger] (idxs[i2] as int) == t {
            b
        } else {
            flags[t]
        },
    decreases i,
{
    if i > 0 {
        lemma_set_all_at(flags, idxs, i - 1, b, t);
        lemma_set_all_len(flags, idxs, i - 1, b);
        if idxs[i - 1] as int == t {
            assert(exists|i2: int| 0 <= i2 < i && #[trigger] (idxs[i2] as int) == t);
        } else {
            if exists|i2: int| 0 <= i2 < i && #[trigger] (idxs[i2] as int) == t {
                let w = choose|i2: int| 0 <= i2 < i && #[trigger] (idxs[i2] as int) == t;
                assert(0 <= w < i - 1 && idxs[w] as int == t);
            }
        }
    }
}

/// Relies on `rand::Rng::gen_range` on the generator from
/// `rand::thread_rng()`: the sample lies in the given (non-empty) inclusive
/// range. Nothing else is assumed of the value.
#[verifier::external_body]
fn random_offset(radius: i32) -> (r: i32)
    requires
        radius >= 0,
    ensures
        -radius <= r <= radius,
{
    rand::Rng::gen_range(&mut rand::thread_rng(), -radius..=radius)
}

impl AutomatonGrid {
    /// Scatter a random cluster of live cells around the lattice center:
    /// `(2 * NOISE_RADIUS)^3` positions drawn uniformly within
    /// `NOISE_RADIUS` of the center on each axis, duplicates and occupied
    /// cells silently skipped.
    fn spawn_noise(&mut self)
        requires
            old(self).wf(),
        ensures
            final(self).wf(),
            final(self).size == old(self).size,
            final(self).rule == old(self).rule,
            final(self).color_method == old(self).color_method,
            final(self).cells@.len() == old(self).cells@.len(),
            forall|j: int|
                0 <= j < final(self).cells@.len() ==> (#[trigger] final(self).cells@[j].state
                    == old(self).cells@[j].state || final(self).cells@[j].state
                    == CellState::Alive),
            forall|j: int|
                0 <= j < final(self).cells@.len() && final(self).cells@[j].state != old(
                    self,
                ).cells@[j].state ==> spec_noise_target(old(self).side(), j),
            exists|drawn: Seq<int>|
                spec_seeding_of(old(self).cells@, final(self).cells@, old(self).side(), drawn),
            (forall|j: int|
                0 <= j < old(self).cells@.len() ==> (#[trigger] old(self).cells@[j].state)
                    == CellState::Empty) ==> exists|j: int|
                0 <= j < final(self).cells@.len() && (#[trigger] final(self).cells@[j].state)
                    == CellState::Alive,
    {
        let center = self.center();
        let d: usize = (NOISE_RADIUS as usize) * 2;
        proof {
            assert(d == 12);
        }
        let amount = d * d * d;
        let mut i: usize = 0;
        let ghost mut drawn: Seq<int> = Seq::empty();
        while i < amount
            invariant
                self.wf(),
                self.size == old(self).size,
                self.rule == old(self).rule,
                self.color_method == old(self).color_method,
                self.cells@.len() == old(self).cells@.len(),
                center.x as int == self.side() / 2,
                center.y as int == self.side() / 2,
                center.z as int == self.side() / 2,
                amount == NOISE_AMOUNT,
                i <= amount,
                drawn.len() == i as int,
                forall|k: int|
                    0 <= k < drawn.len() ==> 0 <= #[trigger] drawn[k] < self.cells@.len()
                        && spec_noise_target(old(self).side(), drawn[k]),
                forall|j: int|
                    0 <= j < self.cells@.len() ==> (#[trigger] self.cells@[j].state) == (if old(
                        self,
                    ).cells@[j].state == CellState::Empty && drawn.contains(j) {
                        CellState::Alive
                    } else {
                        old(self).cells@[j].state
                    }),
            decreases amount - i,
        {
            let dx = random_offset(NOISE_RADIUS);
            let dy = random_offset(NOISE_RADIUS);
            let dz = random_offset(NOISE_RADIUS);
            let pos = self.wrap(Pos3::new(center.x + dx, center.y + dy, center.z + dz));
            let ghost t = spec_pos_to_idx(
                self.side(),
                pos.x as int,
                pos.y as int,
                pos.z as int,
            );
            let ghost prev = drawn;
            self.spawn_cell(pos);
            proof {
                assert(spec_noise_target(old(self).side(), t));
                lemma_pos_to_idx_to_pos(
                    old(self).side(),
                    pos.x as int,
                    pos.y as int,
                    pos.z as int,
                );
                assert(0 <= t < self.cells@.len());
                drawn = prev.push(t);
                assert forall|j: int|
                    0 <= j < self.cells@.len() implies (#[trigger] self.cells@[j].state) == (
                if old(self).cells@[j].state == CellState::Empty && drawn.contains(j) {
                    CellState::Alive
                } else {
                    old(self).cells@[j].state
                }) by {
                    if j == t {
                        if old(self).cells@[j].state == CellState::Empty {
                            assert(drawn[prev.len() as int] == t);
                            assert(drawn.contains(j));
                        }
                    } else {
                        if prev.contains(j) {
                            let k = choose|k: int| 0 <= k < prev.len() && prev[k] == j;
                            assert(drawn[k] == j);
                        }
                        if drawn.contains(j) {
                            let k = choose|k: int| 0 <= k < drawn.len() && drawn[k] == j;
                            assert(0 <= k < prev.len() && prev[k] == j);
                        }
                    }
                }
            }
            i = i + 1;
        }
        proof {
            assert(spec_seeding_of(old(self).cells@, self.cells@, old(self).side(), drawn));
            assert forall|j: int|
                0 <= j < self.cells@.len() && self.cells@[j].state != old(
                self,
            ).cells@[j].state implies spec_noise_target(old(self).side(), j) by {
                assert(drawn.contains(j));
                let k = choose|k: int| 0 <= k < drawn.len() && drawn[k] == j;
                assert(spec_noise_target(old(self).side(), drawn[k]));
            }
            if forall|j: int|
                0 <= j < old(self).cells@.len() ==> (#[trigger] old(self).cells@[j].state)
                    == CellState::Empty {
                let t0 = drawn[0];
                assert(drawn.contains(t0));
                assert(old(self).cells@[t0].state == CellState::Empty);
                assert(self.cells@[t0].state == CellState::Alive);
            }
        }
    }

    /// A freshly allocated grid of `Empty` cells, seeded with noise near
    /// the center. Every cell is `Empty` or `Alive` afterwards, with
    /// consistent neighbour counters.
    pub fn new(size: usize, rule: Rule, color_method: ColorMethod) -> (g: AutomatonGrid)
        requires
            MIN_SIZE <= size <= MAX_SIZE,
            rule.wf(),
        ensures
            g.wf(),
            g.size == size,
            g.rule == rule,
            g.color_method == color_method,
            forall|j: int|
                0 <= j < g.cells@.len() ==> (#[trigger] g.cells@[j].state == CellState::Empty
                    || g.cells@[j].state == CellState::Alive),
            forall|j: int|
                0 <= j < g.cells@.len() && (#[trigger] g.cells@[j].state) == CellState::Alive
                    ==> spec_noise_target(g.side(), j),
            exists|drawn: Seq<int>| spec_noise_cluster(g.cells@, g.side(), drawn),
            exists|j: int|
                0 <= j < g.cells@.len() && (#[trigger] g.cells@[j].state) == CellState::Alive,
    {
        let mut g = Self::new_empty(size, rule, color_method);
        let ghost pre = g.cells@;
        g.spawn_noise();
        proof {
            let drawn = choose|d: Seq<int>| spec_seeding_of(pre, g.cells@, g.side(), d);
            assert forall|j: int|
                0 <= j < g.cells@.len() implies (#[trigger] g.cells@[j].state) == (
            if drawn.contains(j) {
                CellState::Alive
            } else {
                CellState::Empty
            }) by {
                assert(pre[j].state == CellState::Empty);
            }
            assert(spec_noise_cluster(g.cells@, g.side(), drawn));
            let t0 = drawn[0];
            assert(drawn.contains(t0));
            assert(g.cells@[t0].state == CellState::Alive);
        }
        g
    }

    /// Reallocate the lattice at the current size and reseed; all previous
    /// cell state is discarded.
    pub fn reset(&mut self)
        requires
            old(self).size_ok(),
            old(self).rule.wf(),
        ensures
            final(self).wf(),
            final(self).size == old(self).size,
            final(self).rule == old(self).rule,
            final(self).color_method == old(self).color_method,
            forall|j: int|
                0 <= j < final(self).cells@.len() ==> (#[trigger] final(self).cells@[j].state
                    == CellState::Empty || final(self).cells@[j].state == CellState::Alive),
            forall|j: int|
                0 <= j < final(self).cells@.len() && (#[trigger] final(self).cells@[j].state)
                    == CellState::Alive ==> spec_noise_target(final(self).side(), j),
            exists|drawn: Seq<int>|
                spec_noise_cluster(final(self).cells@, final(self).side(), drawn),
            exists|j: int|
                0 <= j < final(self).cells@.len() && (#[trigger] final(self).cells@[j].state)
                    == CellState::Alive,
    {
        let g = Self::new(self.size, self.rule, self.color_method);
        *self = g;
    }

    /// Change the side length; a changed size discards and reseeds the
    /// lattice, an unchanged one leaves the grid exactly as it is.
    pub fn set_size(&mut self, new_size: usize)
        requires
            old(self).wf(),
            MIN_SIZE <= new_size <= MAX_SIZE,
        ensures
            final(self).wf(),
            final(self).size == new_size,
            final(self).rule == old(self).rule,
            final(self).color_method == old(self).color_method,
            old(self).size == new_size ==> *final(self) == *old(self),
            old(self).size != new_size ==> forall|j: int|
                0 <= j < final(self).cells@.len() ==> (#[trigger] final(self).cells@[j].state
                    == CellState::Empty || final(self).cells@[j].state == CellState::Alive),
            old(self).size != new_size ==> forall|j: int|
                0 <= j < final(self).cells@.len() && (#[trigger] final(self).cells@[j].state)
                    == CellState::Alive ==> spec_noise_target(final(self).side(), j),
            old(self).size != new_size ==> exists|drawn: Seq<int>|
                spec_noise_cluster(final(self).cells@, final(self).side(), drawn),
            old(self).size != new_size ==> exists|j: int|
                0 <= j < final(self).cells@.len() && (#[trigger] final(self).cells@[j].state)
                    == CellState::Alive,
    {
        if self.size != new_size {
            self.size = new_size;
            self.reset();
        }
    }

    /// Install a preset: the rule and colour policy fully replace the
    /// current ones and the lattice is reseeded, never keeping old cells.
    pub fn set_example(&mut self, example: Example)
        requires
            old(self).size_ok(),
            example.rule.wf(),
        ensures
            final(self).wf(),
            final(self).size == old(self).size,
            final(self).rule == example.rule,
            final(self).color_method == example.color_method,
            forall|j: int|
                0 <= j < final(self).cells@.len() ==> (#[trigger] final(self).cells@[j].state
                    == CellState::Empty || final(self).cells@[j].state == CellState::Alive),
            forall|j: int|
                0 <= j < final(self).cells@.len() && (#[trigger] final(self).cells@[j].state)
                    == CellState::Alive ==> spec_noise_target(final(self).side(), j),
            exists|drawn: Seq<int>|
                spec_noise_cluster(final(self).cells@, final(self).side(), drawn),
            exists|j: int|
                0 <= j < final(self).cells@.len() && (#[trigger] final(self).cells@[j].state)
                    == CellState::Alive,
    {
        self.rule = example.rule;
        self.color_method = example.color_method;
        self.reset();
    }

    /// Advance every cell one generation. Each cell's new tag is a function
    /// of its own pre-tick tag and counter alone (the transition pass works
    /// from a consistent snapshot), and the counters are reconciled
    /// afterwards so that the central invariant holds again.
    pub fn update(&mut self)
        requires
            old(self).wf(),
        ensures
            final(self).wf(),
            final(self).size == old(self).size,
            final(self).rule == old(self).rule,
            final(self).color_method == old(self).color_method,
            final(self).cells@.len() == old(self).cells@.len(),
            forall|j: int|
                0 <= j < final(self).cells@.len() ==> final(self).cells@[j].state
                    == spec_next_state(old(self).rule, old(self).cells@[j]),
    {
        let ghost g0 = old(self).cells@;
        let ghost side = old(self).side();
        let ghost mth = old(self).rule.neighbour_method;
        let ghost rule0 = old(self).rule;
        let n = self.cells.len();
        let mut spawns: Vec<usize> = Vec::new();
        let mut deaths: Vec<usize> = Vec::new();
        let mut idx: usize = 0;
        while idx < n
            invariant
                self.size == old(self).size,
                self.rule == old(self).rule,
                self.color_method == old(self).color_method,
                self.cells@.len() == n,
                n == g0.len(),
                g0 == old(self).cells@,
                old(self).wf(),
                side == old(self).side(),
                mth == old(self).rule.neighbour_method,
                rule0 == old(self).rule,
                idx <= n,
                forall|j: int|
                    0 <= j < idx ==> #[trigger] self.cells@[j].state == spec_next_state(
                        rule0,
                        g0[j],
                    ),
                forall|j: int| idx <= j < n ==> #[trigger] self.cells@[j] == g0[j],
                forall|j: int|
                    0 <= j < n ==> #[trigger] self.cells@[j].neighbours == g0[j].neighbours,
                forall|i: int|
                    0 <= i < spawns@.len() ==> (#[trigger] spawns@[i] as int) < idx,
                forall|i1: int, i2: int|
                    0 <= i1 < i2 < spawns@.len() ==> #[trigger] spawns@[i1]
                        < #[trigger] spawns@[i2],
                forall|j: int|
                    #![trigger g0[j]]
                    0 <= j < idx ==> ((g0[j].state == CellState::Empty && spec_next_state(
                        rule0,
                        g0[j],
                    ) == CellState::Alive) <==> exists|i2: int|
                        0 <= i2 < spawns@.len() && #[trigger] (spawns@[i2] as int) == j),
                forall|i: int|
                    0 <= i < deaths@.len() ==> (#[trigger] deaths@[i] as int) < idx,
                forall|i1: int, i2: int|
                    0 <= i1 < i2 < deaths@.len() ==> #[trigger] deaths@[i1]
                        < #[trigger] deaths@[i2],
                forall|j: int|
                    #![trigger g0[j]]
                    0 <= j < idx ==> ((g0[j].state == CellState::Alive && spec_next_state(
                        rule0,
                        g0[j],
                    ) != CellState::Alive) <==> exists|i2: int|
                        0 <= i2 < deaths@.len() && #[trigger] (deaths@[i2] as int) == j),
            decreases n - idx,
        {
            let c = self.cells[idx];
            let ghost prev_spawns = spawns@;
            let ghost prev_deaths = deaths@;
            proof {
                lemma_count_upto_bounds(
                    spec_alive(g0),
                    side,
                    mth,
                    idx as int,
                    spec_max_neighbours(mth),
                );
            }
            match c.state {
                CellState::Empty => {
                    let ns = self.rule.apply_birth_rule(c.neighbours);
                    if ns == CellState::Alive {
                        spawns.push(idx);
                    }
                    self.cells[idx] = Cell { state: ns, neighbours: c.neighbours };
                },
                CellState::Alive => {
                    let ns = self.rule.apply_survival_rule(c.neighbours);
                    if ns != CellState::Alive {
                        deaths.push(idx);
                    }
                    self.cells[idx] = Cell { state: ns, neighbours: c.neighbours };
                },
                CellState::Dying(level) => {
                    proof {
                        assert(g0[idx as int].state matches CellState::Dying(l) ==> l >= 1);
                    }
                    let ns = self.rule.apply_dying_rule(level);
                    self.cells[idx] = Cell { state: ns, neighbours: c.neighbours };
                },
            }
            proof {
                let li = idx as int;
                let spawned = g0[li].state == CellState::Empty && spec_next_state(rule0, g0[li])
                    == CellState::Alive;
                let died = g0[li].state == CellState::Alive && spec_next_state(rule0, g0[li])
                    != CellState::Alive;
                assert(spawns@ == if spawned {
                    prev_spawns.push(idx)
                } else {
                    prev_spawns
                });
                assert(deaths@ == if died {
                    prev_deaths.push(idx)
                } else {
                    prev_deaths
                });
                assert forall|j: int|
                    #![trigger g0[j]]
                    0 <= j < li + 1 implies ((g0[j].state == CellState::Empty && spec_next_state(
                    rule0,
                    g0[j],
                ) == CellState::Alive) <==> exists|i2: int|
                    0 <= i2 < spawns@.len() && #[trigger] (spawns@[i2] as int) == j) by {
                    if g0[j].state == CellState::Empty && spec_next_state(rule0, g0[j])
                        == CellState::Alive {
                        if j < li {
                            let w = choose|i2: int|
                                0 <= i2 < prev_spawns.len() && #[trigger] (prev_spawns[i2]
                                    as int) == j;
                            assert(spawns@[w] as int == j);
                        } else {
                            assert(spawns@[spawns@.len() - 1] as int == j);
                        }
                    }
                    if exists|i2: int|
                        0 <= i2 < spawns@.len() && #[trigger] (spawns@[i2] as int) == j {
                        let w = choose|i2: int|
                            0 <= i2 < spawns@.len() && #[trigger] (spawns@[i2] as int) == j;
                        if w < prev_spawns.len() {
                            assert(prev_spawns[w] as int == j);
                            assert(j < li);
                        } else {
                            assert(spawned && j == li);
                        }
                    }
                }
                assert forall|j: int|
                    #![trigger g0[j]]
                    0 <= j < li + 1 implies ((g0[j].state == CellState::Alive && spec_next_state(
                    rule0,
                    g0[j],
                ) != CellState::Alive) <==> exists|i2: int|
                    0 <= i2 < deaths@.len() && #[trigger] (deaths@[i2] as int) == j) by {
                    if g0[j].state == CellState::Alive && spec_next_state(rule0, g0[j])
                        != CellState::Alive {
                        if j < li {
                            let w = choose|i2: int|
                                0 <= i2 < prev_deaths.len() && #[trigger] (prev_deaths[i2]
                                    as int) == j;
                            assert(deaths@[w] as int == j);
                        } else {
                            assert(deaths@[deaths@.len() - 1] as int == j);
                        }
                    }
                    if exists|i2: int|
                        0 <= i2 < deaths@.len() && #[trigger] (deaths@[i2] as int) == j {
                        let w = choose|i2: int|
                            0 <= i2 < deaths@.len() && #[trigger] (deaths@[i2] as int) == j;
                        if w < prev_deaths.len() {
                            assert(prev_deaths[w] as int == j);
                            assert(j < li);
                        } else {
                            assert(died && j == li);
                        }
                    }
                }
            }
            idx = idx + 1;
        }
        // Reconciliation: play the recorded spawns and deaths into the
        // counters, tracking in `gflags` which aliveness the counters
        // reflect at each point.
        let ghost mut gflags = spec_alive(g0);
        proof {
            assert forall|j: int|
                0 <= j < n implies (#[trigger] self.cells@[j].neighbours) as int
                == spec_neighbour_count(gflags, side, mth, j) by {
                assert(g0[j].neighbours as int == spec_neighbour_count(
                    spec_alive(g0),
                    side,
                    mth,
                    j,
                ));
            }
        }
        let mut i: usize = 0;
        while i < spawns.len()
            invariant
                self.size == old(self).size,
                self.rule == old(self).rule,
                self.color_method == old(self).color_method,
                self.cells@.len() == n,
                n == g0.len(),
                g0 == old(self).cells@,
                old(self).wf(),
                side == old(self).side(),
                mth == old(self).rule.neighbour_method,
                rule0 == old(self).rule,
                i <= spawns@.len(),
                forall|j: int|
                    0 <= j < n ==> #[trigger] self.cells@[j].state == spec_next_state(
                        rule0,
                        g0[j],
                    ),
                forall|i2: int|
                    0 <= i2 < spawns@.len() ==> (#[trigger] spawns@[i2] as int) < n,
                forall|i1: int, i2: int|
                    0 <= i1 < i2 < spawns@.len() ==> #[trigger] spawns@[i1]
                        < #[trigger] spawns@[i2],
                forall|j: int|
                    #![trigger g0[j]]
                    0 <= j < n ==> ((g0[j].state == CellState::Empty && spec_next_state(
                        rule0,
                        g0[j],
                    ) == CellState::Alive) <==> exists|i2: int|
                        0 <= i2 < spawns@.len() && #[trigger] (spawns@[i2] as int) == j),
                gflags == spec_set_all(spec_alive(g0), spawns@, i as int, true),
                gflags.len() == n,
                forall|j: int|
                    0 <= j < n ==> (#[trigger] self.cells@[j].neighbours) as int
                        == spec_neighbour_count(gflags, side, mth, j),
            decreases spawns@.len() - i,
        {
            let s = spawns[i];
            proof {
                lemma_set_all_at(spec_alive(g0), spawns@, i as int, true, s as int);
                if exists|i2: int| 0 <= i2 < i && #[trigger] (spawns@[i2] as int) == s as int {
                    let w = choose|i2: int|
                        0 <= i2 < i && #[trigger] (spawns@[i2] as int) == s as int;
                    assert(spawns@[w] < spawns@[i as int]);
                    assert(false);
                }
                assert(g0[s as int].state == CellState::Empty);
                assert(gflags[s as int] == false);
            }
            self.update_neighbours(s, true, Ghost(gflags));
            proof {
                gflags = gflags.update(s as int, true);
                assert(gflags == spec_set_all(spec_alive(g0), spawns@, i as int + 1, true));
            }
            i = i + 1;
        }
        let ghost gflags1 = gflags;
        let mut i: usize = 0;
        while i < deaths.len()
            invariant
                self.size == old(self).size,
                self.rule == old(self).rule,
                self.color_method == old(self).color_method,
                self.cells@.len() == n,
                n == g0.len(),
                g0 == old(self).cells@,
                old(self).wf(),
                side == old(self).side(),
                mth == old(self).rule.neighbour_method,
                rule0 == old(self).rule,
                i <= deaths@.len(),
                forall|j: int|
                    0 <= j < n ==> #[trigger] self.cells@[j].state == spec_next_state(
                        rule0,
                        g0[j],
                    ),
                forall|i2: int|
                    0 <= i2 < spawns@.len() ==> (#[trigger] spawns@[i2] as int) < n,
                forall|j: int|
                    #![trigger g0[j]]
                    0 <= j < n ==> ((g0[j].state == CellState::Empty && spec_next_state(
                        rule0,
                        g0[j],
                    ) == CellState::Alive) <==> exists|i2: int|
                        0 <= i2 < spawns@.len() && #[trigger] (spawns@[i2] as int) == j),
                forall|i2: int|
                    0 <= i2 < deaths@.len() ==> (#[trigger] deaths@[i2] as int) < n,
                forall|i1: int, i2: int|
                    0 <= i1 < i2 < deaths@.len() ==> #[trigger] deaths@[i1]
                        < #[trigger] deaths@[i2],
                forall|j: int|
                    #![trigger g0[j]]
                    0 <= j < n ==> ((g0[j].state == CellState::Alive && spec_next_state(
                        rule0,
                        g0[j],
                    ) != CellState::Alive) <==> exists|i2: int|
                        0 <= i2 < deaths@.len() && #[trigger] (deaths@[i2] as int) == j),
                gflags1 == spec_set_all(spec_alive(g0), spawns@, spawns@.len() as int, true),
                gflags1.len() == n,
                gflags == spec_set_all(gflags1, deaths@, i as int, false),
                gflags.len() == n,
                forall|j: int|
                    0 <= j < n ==> (#[trigger] self.cells@[j].neighbours) as int
                        == spec_neighbour_count(gflags, side, mth, j),
            decreases deaths@.len() - i,
        {
            let s = deaths[i];
            proof {
                lemma_set_all_at(gflags1, deaths@, i as int, false, s as int);
                if exists|i2: int| 0 <= i2 < i && #[trigger] (deaths@[i2] as int) == s as int {
                    let w = choose|i2: int|
                        0 <= i2 < i && #[trigger] (deaths@[i2] as int) == s as int;
                    assert(deaths@[w] < deaths@[i as int]);
                    assert(false);
                }
                assert(g0[s as int].state == CellState::Alive);
                lemma_set_all_at(spec_alive(g0), spawns@, spawns@.len() as int, true, s as int);
                if exists|i2: int| 0 <= i2 < spawns@.len() && #[trigger] (spawns@[i2] as int)
                    == s as int {
                    let w = choose|i2: int|
                        0 <= i2 < spawns@.len() && #[trigger] (spawns@[i2] as int) == s as int;
                    assert(g0[s as int].state == CellState::Empty);
                    assert(false);
                }
                assert(gflags[s as int] == true);
            }
            self.update_neighbours(s, false, Ghost(gflags));
            proof {
                gflags = gflags.update(s as int, false);
                assert(gflags == spec_set_all(gflags1, deaths@, i as int + 1, false));
            }
            i = i + 1;
        }
        proof {
            assert forall|t: int| 0 <= t < n implies gflags[t] == spec_alive(self.cells@)[t] by {
                lemma_set_all_at(gflags1, deaths@, deaths@.len() as int, false, t);
                lemma_set_all_at(spec_alive(g0), spawns@, spawns@.len() as int, true, t);
                assert(g0[t] == old(self).cells@[t]);
                match g0[t].state {
                    CellState::Empty => {
                        if exists|i2: int| 0 <= i2 < deaths@.len() && #[trigger] (deaths@[i2]
                            as int) == t {
                            let w = choose|i2: int|
                                0 <= i2 < deaths@.len() && #[trigger] (deaths@[i2] as int) == t;
                            assert(false);
                        }
                    },
                    CellState::Alive => {
                        if exists|i2: int| 0 <= i2 < spawns@.len() && #[trigger] (spawns@[i2]
                            as int) == t {
                            let w = choose|i2: int|
                                0 <= i2 < spawns@.len() && #[trigger] (spawns@[i2] as int) == t;
                            assert(false);
                        }
                    },
                    CellState::Dying(level) => {
                        if exists|i2: int| 0 <= i2 < deaths@.len() && #[trigger] (deaths@[i2]
                            as int) == t {
                            let w = choose|i2: int|
                                0 <= i2 < deaths@.len() && #[trigger] (deaths@[i2] as int) == t;
                            assert(false);
                        }
                        if exists|i2: int| 0 <= i2 < spawns@.len() && #[trigger] (spawns@[i2]
                            as int) == t {
                            let w = choose|i2: int|
                                0 <= i2 < spawns@.len() && #[trigger] (spawns@[i2] as int) == t;
                            assert(false);
                        }
                        assert(spec_next_state(rule0, g0[t]) != CellState::Alive);
                    },
                }
            }
            assert forall|j: int|
                0 <= j < n implies (#[trigger] self.cells@[j].neighbours) as int
                == spec_neighbour_count(spec_alive(self.cells@), side, mth, j) by {
                lemma_count_congruent(
                    gflags,
                    spec_alive(self.cells@),
                    side,
                    mth,
                    j,
                    spec_max_neighbours(mth),
                );
            }
            assert forall|j: int|
                0 <= j < n implies (#[trigger] self.cells@[j].state matches CellState::Dying(
                level,
            ) ==> level >= 1) by {
                assert(g0[j].state matches CellState::Dying(l) ==> l >= 1);
            }
        }
    }
}

impl Default for AutomatonGrid {
    /// A seeded 64-cell-wide grid: survival on {2, 6, 9}, birth on
    /// {4, 6, 8, 9, 10}, ten states, Moore topology, distance colouring.
    fn default() -> (g: AutomatonGrid)
        ensures
            g.wf(),
            g.size == 64usize,
            g.rule.states == 10u8,
            g.rule.neighbour_method == NeighbourMethod::Moore,
            g.color_method == ColorMethod::DistToCenter,
            g.rule.survival_rule@.len() == 27,
            g.rule.birth_rule@.len() == 27,
            forall|i: int|
                0 <= i < 27 ==> (#[trigger] g.rule.survival_rule@[i] <==> (i == 2 || i == 6
                    || i == 9)),
            forall|i: int|
                0 <= i < 27 ==> (#[trigger] g.rule.birth_rule@[i] <==> (i == 4 || i == 6 || i
                    == 8 || i == 9 || i == 10)),
            forall|j: int|
                0 <= j < g.cells@.len() ==> (#[trigger] g.cells@[j].state == CellState::Empty
                    || g.cells@[j].state == CellState::Alive),
    {
        let mut survival: Vec<u8> = Vec::new();
        survival.push(2);
        survival.push(6);
        survival.push(9);
        let mut birth: Vec<u8> = Vec::new();
        birth.push(4);
        birth.push(6);
        birth.push(8);
        birth.push(9);
        birth.push(10);
        let rule = Rule {
            survival_rule: Indexes::new(survival.as_slice()),
            birth_rule: Indexes::new(birth.as_slice()),
            states: 10,
            neighbour_method: NeighbourMethod::Moore,
        };
        proof {
            assert(survival@.len() == 3 && survival@[0] == 2u8 && survival@[1] == 6u8
                && survival@[2] == 9u8);
            assert(birth@.len() == 5 && birth@[0] == 4u8 && birth@[1] == 6u8 && birth@[2] == 8u8
                && birth@[3] == 9u8 && birth@[4] == 10u8);
        }
        assert forall|i: int| 0 <= i < 27 implies (#[trigger] rule.survival_rule@[i] <==> (i == 2
            || i == 6 || i == 9)) by {
            if i == 2 || i == 6 || i == 9 {
                assert(survival@[if i == 2 { 0int } else if i == 6 { 1int } else { 2int }]
                    == i as u8);
            }
            if survival@.contains(i as u8) {
                let j = choose|j: int| 0 <= j < survival@.len() && survival@[j] == i as u8;
            }
        }
        assert forall|i: int| 0 <= i < 27 implies (#[trigger] rule.birth_rule@[i] <==> (i == 4
            || i == 6 || i == 8 || i == 9 || i == 10)) by {
            if i == 4 || i == 6 || i == 8 || i == 9 || i == 10 {
                assert(birth@[if i == 4 { 0int } else if i == 6 { 1int } else if i == 8 { 2int }
                    else if i == 9 { 3int } else { 4int }] == i as u8);
            }
            if birth@.contains(i as u8) {
                let j = choose|j: int| 0 <= j < birth@.len() && birth@[j] == i as u8;
            }
        }
        Self::new(64, rule, ColorMethod::DistToCenter)
    }
}

/// Mapping a position to its index and back returns the position: the flat
/// layout loses nothing.
pub proof fn lemma_pos_to_idx_to_pos(size: int, x: int, y: int, z: int)
    requires
        1 <= size,
        0 <= x < size,
        0 <= y < size,
        0 <= z < size,
    ensures
        spec_idx_x(size, spec_pos_to_idx(size, x, y, z)) == x,
        spec_idx_y(size, spec_pos_to_idx(size, x, y, z)) == y,
        spec_idx_z(size, spec_pos_to_idx(size, x, y, z)) == z,
        0 <= spec_pos_to_idx(size, x, y, z) < size * size * size,
{
    let idx = spec_pos_to_idx(size, x, y, z);
    assert(idx == (y + z * size) * size + x) by (nonlinear_arith)
        requires
            idx == x + y * size + z * size * size,
    ;
    lemma_fundamental_div_mod_converse(idx, size, y + z * size, x);
    lemma_fundamental_div_mod_converse(y + z * size, size, z, y);
    assert(idx < size * size * size) by (nonlinear_arith)
        requires
            0 <= x < size,
            0 <= y < size,
            0 <= z < size,
            1 <= size,
            idx == x + y * size + z * size * size,
    ;
}

/// Splitting an index into coordinates and recombining them returns the
/// index, with every coordinate in range.
pub proof fn lemma_idx_to_pos_to_idx(size: int, idx: int)
    requires
        1 <= size,
        0 <= idx < size * size * size,
    ensures
        spec_pos_to_idx(
            size,
            spec_idx_x(size, idx),
            spec_idx_y(size, idx),
            spec_idx_z(size, idx),
        ) == idx,
        0 <= spec_idx_x(size, idx) < size,
        0 <= spec_idx_y(size, idx) < size,
        0 <= spec_idx_z(size, idx) < size,
{
    let x = idx % size;
    let q = idx / size;
    let y = q % size;
    let z = q / size;
    lemma_fundamental_div_mod(idx, size);
    lemma_mod_bound(idx, size);
    lemma_fundamental_div_mod(q, size);
    lemma_mod_bound(q, size);
    lemma_div_pos_is_pos(idx, size);
    lemma_div_pos_is_pos(q, size);
    assert(idx < size * (size * size)) by (nonlinear_arith)
        requires
            idx < size * size * size,
    ;
    lemma_multiply_divide_lt(idx, size, size * size);
    lemma_multiply_divide_lt(q, size, size);
    assert(idx == x + y * size + z * size * size) by (nonlinear_arith)
        requires
            idx == size * q + x,
            q == size * z + y,
    ;
}

/// The single-addition wrap written out: within one wraparound on either
/// side, `spec_wrap1` shifts by a multiple of `size` into `[0, size)`.
pub proof fn lemma_wrap1_near(size: int, c: int)
    requires
        1 <= size,
        -size <= c < 3 * size,
    ensures
        spec_wrap1(size, c) == if c < 0 {
            c + size
        } else if c < size {
            c
        } else if c < 2 * size {
            c - size
        } else {
            c - 2 * size
        },
{
    let r = c + size;
    if r < size {
        lemma_small_mod(r as nat, size as nat);
    } else if r < 2 * size {
        lemma_mod_add_multiples_vanish(r - size, size);
        lemma_small_mod((r - size) as nat, size as nat);
    } else if r < 3 * size {
        lemma_mod_add_multiples_vanish(r - size, size);
        lemma_mod_add_multiples_vanish(r - 2 * size, size);
        lemma_small_mod((r - 2 * size) as nat, size as nat);
    } else {
        lemma_mod_add_multiples_vanish(r - size, size);
        lemma_mod_add_multiples_vanish(r - 2 * size, size);
        lemma_mod_add_multiples_vanish(r - 3 * size, size);
        lemma_small_mod((r - 3 * size) as nat, size as nat);
    }
}

/// In-range coordinates are fixed points of the toroidal wrap.
pub proof fn lemma_wrap_fixed_point(size: int, c: int)
    requires
        1 <= size,
        0 <= c < size,
    ensures
        spec_wrap1(size, c) == c,
{
    lemma_wrap1_near(size, c);
}

/// Every neighbour index is a valid flat index, whatever the source cell.
pub proof fn lemma_neighbour_in_range(size: int, m: NeighbourMethod, j: int, k: int)
    requires
        1 <= size,
    ensures
        0 <= spec_neighbour(size, m, j, k) < size * size * size,
{
    let o = spec_offsets(m)[k];
    lemma_mod_bound(spec_idx_x(size, j) + o.0 + size, size);
    lemma_mod_bound(spec_idx_y(size, j) + o.1 + size, size);
    lemma_mod_bound(spec_idx_z(size, j) + o.2 + size, size);
    lemma_pos_to_idx_to_pos(
        size,
        spec_wrap1(size, spec_idx_x(size, j) + o.0),
        spec_wrap1(size, spec_idx_y(size, j) + o.1),
        spec_wrap1(size, spec_idx_z(size, j) + o.2),
    );
}

/// Partial neighbour counts lie between 0 and the number of offsets seen.
pub proof fn lemma_count_upto_bounds(
    flags: Seq<bool>,
    size: int,
    m: NeighbourMethod,
    j: int,
    k: int,
)
    requires
        k >= 0,
    ensures
        0 <= spec_count_upto(flags, size, m, j, k) <= k,
    decreases k,
{
    if k > 0 {
        lemma_count_upto_bounds(flags, size, m, j, k - 1);
    }
}

/// Partial multiplicities lie between 0 and the number of offsets seen,
/// and grow monotonically with the prefix.
pub proof fn lemma_mult_upto_bounds(size: int, m: NeighbourMethod, a: int, b: int, k: int)
    requires
        k >= 0,
    ensures
        0 <= spec_mult_upto(size, m, a, b, k) <= k,
    decreases k,
{
    if k > 0 {
        lemma_mult_upto_bounds(size, m, a, b, k - 1);
    }
}

pub proof fn lemma_mult_upto_monotone(size: int, m: NeighbourMethod, a: int, b: int, k1: int, k2: int)
    requires
        0 <= k1 <= k2,
    ensures
        spec_mult_upto(size, m, a, b, k1) <= spec_mult_upto(size, m, a, b, k2),
    decreases k2,
{
    if k1 < k2 {
        lemma_mult_upto_monotone(size, m, a, b, k1, k2 - 1);
    }
}

/// Counting only reads flags at valid indices: two flag sequences that
/// agree there give the same count.
pub proof fn lemma_count_congruent(
    f1: Seq<bool>,
    f2: Seq<bool>,
    size: int,
    m: NeighbourMethod,
    j: int,
    k: int,
)
    requires
        1 <= size,
        forall|i: int| 0 <= i < size * size * size ==> f1[i] == f2[i],
        k >= 0,
    ensures
        spec_count_upto(f1, size, m, j, k) == spec_count_upto(f2, size, m, j, k),
    decreases k,
{
    if k > 0 {
        lemma_count_congruent(f1, f2, size, m, j, k - 1);
        lemma_neighbour_in_range(size, m, j, k - 1);
    }
}

/// A count over flags with no set bit is zero.
pub proof fn lemma_count_none(flags: Seq<bool>, size: int, m: NeighbourMethod, j: int, k: int)
    requires
        1 <= size,
        forall|i: int| 0 <= i < size * size * size ==> !flags[i],
        k >= 0,
    ensures
        spec_count_upto(flags, size, m, j, k) == 0,
    decreases k,
{
    if k > 0 {
        lemma_count_none(flags, size, m, j, k - 1);
        lemma_neighbour_in_range(size, m, j, k - 1);
    }
}

/// Flipping the flag of one cell `t` moves every count by the multiplicity
/// with which `t` occurs among the counted neighbours.
pub proof fn lemma_count_update(
    flags: Seq<bool>,
    size: int,
    m: NeighbourMethod,
    j: int,
    t: int,
    b: bool,
    k: int,
)
    requires
        1 <= size,
        flags.len() == size * size * size,
        0 <= t < flags.len(),
        k >= 0,
    ensures
        spec_count_upto(flags.update(t, b), size, m, j, k) == spec_count_upto(
            flags,
            size,
            m,
            j,
            k,
        ) + ((if b {
            1int
        } else {
            0int
        }) - (if flags[t] {
            1int
        } else {
            0int
        })) * spec_mult_upto(size, m, j, t, k),
    decreases k,
{
    if k > 0 {
        lemma_count_update(flags, size, m, j, t, b, k - 1);
        lemma_neighbour_in_range(size, m, j, k - 1);
        let diff = (if b {
            1int
        } else {
            0int
        }) - (if flags[t] {
            1int
        } else {
            0int
        });
        vstd::arithmetic::mul::lemma_mul_is_distributive_add(
            diff,
            spec_mult_upto(size, m, j, t, k - 1),
            if spec_neighbour(size, m, j, k - 1) == t {
                1int
            } else {
                0int
            },
        );
    }
}

/// If cell `t` is flagged, it cannot occur among the neighbours of `j`
/// more often than flagged cells do in total.
pub proof fn lemma_mult_le_count(
    flags: Seq<bool>,
    size: int,
    m: NeighbourMethod,
    j: int,
    t: int,
    k: int,
)
    requires
        1 <= size,
        flags.len() == size * size * size,
        0 <= t < flags.len(),
        flags[t],
        k >= 0,
    ensures
        spec_mult_upto(size, m, j, t, k) <= spec_count_upto(flags, size, m, j, k),
    decreases k,
{
    if k > 0 {
        lemma_mult_le_count(flags, size, m, j, t, k - 1);
        lemma_neighbour_in_range(size, m, j, k - 1);
    }
}

/// Offset `2p` maps `a` onto `b` exactly when its antipode `2p + 1` maps
/// `b` back onto `a`: the toroidal neighbour relation is symmetric pair by
/// pair.
proof fn lemma_neighbour_flip(size: int, m: NeighbourMethod, a: int, b: int, p: int)
    requires
        1 <= size,
        0 <= a < size * size * size,
        0 <= b < size * size * size,
        0 <= 2 * p + 1 < spec_max_neighbours(m),
    ensures
        (spec_neighbour(size, m, a, 2 * p) == b) <==> (spec_neighbour(size, m, b, 2 * p + 1)
            == a),
{
    lemma_fundamental_div_mod_converse(2 * p, 2, p, 0);
    lemma_fundamental_div_mod_converse(2 * p + 1, 2, p, 1);
    let o = spec_offsets(m)[2 * p];
    let q = spec_offsets(m)[2 * p + 1];
    assert(q.0 == -o.0 && q.1 == -o.1 && q.2 == -o.2);
    assert(-1 <= o.0 <= 1 && -1 <= o.1 <= 1 && -1 <= o.2 <= 1);
    lemma_idx_to_pos_to_idx(size, a);
    lemma_idx_to_pos_to_idx(size, b);
    let xa = spec_idx_x(size, a);
    let ya = spec_idx_y(size, a);
    let za = spec_idx_z(size, a);
    let xb = spec_idx_x(size, b);
    let yb = spec_idx_y(size, b);
    let zb = spec_idx_z(size, b);
    lemma_wrap1_near(size, xa + o.0);
    lemma_wrap1_near(size, ya + o.1);
    lemma_wrap1_near(size, za + o.2);
    lemma_wrap1_near(size, xb + q.0);
    lemma_wrap1_near(size, yb + q.1);
    lemma_wrap1_near(size, zb + q.2);
    lemma_pos_to_idx_to_pos(
        size,
        spec_wrap1(size, xa + o.0),
        spec_wrap1(size, ya + o.1),
        spec_wrap1(size, za + o.2),
    );
    lemma_pos_to_idx_to_pos(
        size,
        spec_wrap1(size, xb + q.0),
        spec_wrap1(size, yb + q.1),
        spec_wrap1(size, zb + q.2),
    );
}

/// Symmetry of the multiplicity over any even prefix of the offset table.
proof fn lemma_mult_sym_upto(size: int, m: NeighbourMethod, a: int, b: int, p: int)
    requires
        1 <= size,
        0 <= a < size * size * size,
        0 <= b < size * size * size,
        0 <= 2 * p <= spec_max_neighbours(m),
    ensures
        spec_mult_upto(size, m, a, b, 2 * p) == spec_mult_upto(size, m, b, a, 2 * p),
    decreases p,
{
    if p > 0 {
        lemma_mult_sym_upto(size, m, a, b, p - 1);
        lemma_neighbour_flip(size, m, a, b, p - 1);
        lemma_neighbour_flip(size, m, b, a, p - 1);
        assert(spec_mult_upto(size, m, a, b, 2 * p) == spec_mult_upto(size, m, a, b, 2 * p - 1)
            + (if spec_neighbour(size, m, a, 2 * p - 1) == b {
            1int
        } else {
            0int
        }));
        assert(spec_mult_upto(size, m, a, b, 2 * p - 1) == spec_mult_upto(
            size,
            m,
            a,
            b,
            2 * p - 2,
        ) + (if spec_neighbour(size, m, a, 2 * p - 2) == b {
            1int
        } else {
            0int
        }));
        assert(spec_mult_upto(size, m, b, a, 2 * p) == spec_mult_upto(size, m, b, a, 2 * p - 1)
            + (if spec_neighbour(size, m, b, 2 * p - 1) == a {
            1int
        } else {
            0int
        }));
        assert(spec_mult_upto(size, m, b, a, 2 * p - 1) == spec_mult_upto(
            size,
            m,
            b,
            a,
            2 * p - 2,
        ) + (if spec_neighbour(size, m, b, 2 * p - 2) == a {
            1int
        } else {
            0int
        }));
    }
}

/// How often `a` sees `b` as a neighbour equals how often `b` sees `a`.
pub proof fn lemma_mult_sym(size: int, m: NeighbourMethod, a: int, b: int)
    requires
        1 <= size,
        0 <= a < size * size * size,
        0 <= b < size * size * size,
    ensures
        spec_mult(size, m, a, b) == spec_mult(size, m, b, a),
{
    lemma_mult_sym_upto(size, m, a, b, spec_max_neighbours(m) / 2);
}

} // verus!
