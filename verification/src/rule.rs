//! The rule engine: neighbour topologies and the three per-cell transition
//! functions over a pair of membership sets.

use crate::cell::CellState;
use crate::indexes::Indexes;
use crate::pos::Pos3;
use vstd::prelude::*;

verus! {

/// Which relative offsets count as neighbours: Moore is full
/// 26-connectivity, Von Neumann the 6 axis neighbours.
#[derive(Debug, Clone, Copy, PartialEq, Eq, Structural)]
pub enum NeighbourMethod {
    Moore,
    VonNeumann,
}

/// How many offsets the topology has.
pub open spec fn spec_max_neighbours(m: NeighbourMethod) -> int {
    match m {
        NeighbourMethod::Moore => 26,
        NeighbourMethod::VonNeumann => 6,
    }
}

/// The offsets of a topology come in antipodal pairs; this is the first
/// element of pair `p`, and the second is its negation. Pairing the table
/// this way keeps the neighbour relation manifestly symmetric.
pub open spec fn spec_base_offset(m: NeighbourMethod, p: int) -> (int, int, int) {
    match m {
        NeighbourMethod::Moore => if p == 0 {
            (-1, -1, -1)
        } else if p == 1 {
            (0, -1, -1)
        } else if p == 2 {
            (1, -1, -1)
        } else if p == 3 {
            (-1, 0, -1)
        } else if p == 4 {
            (0, 0, -1)
        } else if p == 5 {
            (1, 0, -1)
        } else if p == 6 {
            (-1, 1, -1)
        } else if p == 7 {
            (0, 1, -1)
        } else if p == 8 {
            (1, 1, -1)
        } else if p == 9 {
            (-1, -1, 0)
        } else if p == 10 {
            (0, -1, 0)
        } else if p == 11 {
            (1, -1, 0)
        } else {
            (-1, 0, 0)
        },
        NeighbourMethod::VonNeumann => if p == 0 {
            (1, 0, 0)
        } else if p == 1 {
            (0, 1, 0)
        } else {
            (0, 0, -1)
        },
    }
}

/// The full offset table of a topology, as antipodal pairs: entry `2p` is
/// the base offset of pair `p` and entry `2p + 1` its negation.
pub open spec fn spec_offsets(m: NeighbourMethod) -> Seq<(int, int, int)> {
    Seq::new(
        spec_max_neighbours(m) as nat,
        |k: int|
            {
                let b = spec_base_offset(m, k / 2);
                if k % 2 == 0 {
                    b
                } else {
                    (-b.0, -b.1, -b.2)
                }
            },
    )
}

/// Every offset component is at most 1 in magnitude.
pub proof fn lemma_offsets_small(m: NeighbourMethod)
    ensures
        forall|k: int|
            0 <= k < spec_offsets(m).len() ==> {
                let o = #[trigger] spec_offsets(m)[k];
                -1 <= o.0 <= 1 && -1 <= o.1 <= 1 && -1 <= o.2 <= 1
            },
{
}

impl NeighbourMethod {
    /// The `k`-th entry of the topology's offset table.
    pub fn get_offset(&self, k: u8) -> (o: Pos3)
        requires
            k < spec_max_neighbours(*self),
        ensures
            o.x == spec_offsets(*self)[k as int].0,
            o.y == spec_offsets(*self)[k as int].1,
            o.z == spec_offsets(*self)[k as int].2,
    {
        let p = k / 2;
        let base = match self {
            NeighbourMethod::Moore => {
                if p == 0 {
                    Pos3::new(-1, -1, -1)
                } else if p == 1 {
                    Pos3::new(0, -1, -1)
                } else if p == 2 {
                    Pos3::new(1, -1, -1)
                } else if p == 3 {
                    Pos3::new(-1, 0, -1)
                } else if p == 4 {
                    Pos3::new(0, 0, -1)
                } else if p == 5 {
                    Pos3::new(1, 0, -1)
                } else if p == 6 {
                    Pos3::new(-1, 1, -1)
                } else if p == 7 {
                    Pos3::new(0, 1, -1)
                } else if p == 8 {
                    Pos3::new(1, 1, -1)
                } else if p == 9 {
                    Pos3::new(-1, -1, 0)
                } else if p == 10 {
                    Pos3::new(0, -1, 0)
                } else if p == 11 {
                    Pos3::new(1, -1, 0)
                } else {
                    Pos3::new(-1, 0, 0)
                }
            },
            NeighbourMethod::VonNeumann => {
                if p == 0 {
                    Pos3::new(1, 0, 0)
                } else if p == 1 {
                    Pos3::new(0, 1, 0)
                } else {
                    Pos3::new(0, 0, -1)
                }
            },
        };
        if k % 2 == 0 {
            base
        } else {
            Pos3::new(-base.x, -base.y, -base.z)
        }
    }
}

/// A full rule: which neighbour counts let a live cell survive, which let an
/// empty cell be born, how many states the decay passes through, and the
/// neighbour topology. `states` below 2 is an invalid configuration.
#[derive(Debug, Clone, Copy)]
pub struct Rule {
    pub survival_rule: Indexes,
    pub birth_rule: Indexes,
    pub states: u8,
    pub neighbour_method: NeighbourMethod,
}

/// What an `Empty` cell with `n` live neighbours becomes.
pub open spec fn spec_birth(r: Rule, n: u8) -> CellState {
    if r.birth_rule@[n as int] {
        CellState::Alive
    } else {
        CellState::Empty
    }
}

/// What an `Alive` cell with `n` live neighbours becomes. Leaving survival
/// enters `Dying(states - 2)`, except that with only two states the cell
/// skips the decay trail and is immediately `Empty` (a stored decay level
/// is always at least 1).
pub open spec fn spec_survival(r: Rule, n: u8) -> CellState {
    if r.survival_rule@[n as int] {
        CellState::Alive
    } else if r.states == 2 {
        CellState::Empty
    } else {
        CellState::Dying((r.states - 2) as u8)
    }
}

/// What a `Dying(level)` cell becomes: one step closer to `Empty`.
pub open spec fn spec_dying(level: u8) -> CellState {
    if level == 1 {
        CellState::Empty
    } else {
        CellState::Dying((level - 1) as u8)
    }
}

impl Rule {
    /// A usable rule: the decay arithmetic needs at least two states.
    pub open spec fn wf(self) -> bool {
        self.states >= 2
    }

    pub fn get_max_neighbours(&self) -> (n: u8)
        ensures
            n as int == spec_max_neighbours(self.neighbour_method),
    {
        match self.neighbour_method {
            NeighbourMethod::Moore => 26,
            NeighbourMethod::VonNeumann => 6,
        }
    }

    pub fn apply_birth_rule(&self, neighbors: u8) -> (s: CellState)
        requires
            neighbors <= 26,
        ensures
            s == spec_birth(*self, neighbors),
    {
        if self.birth_rule.has(neighbors) {
            CellState::Alive
        } else {
            CellState::Empty
        }
    }

    pub fn apply_survival_rule(&self, neighbors: u8) -> (s: CellState)
        requires
            neighbors <= 26,
            self.wf(),
        ensures
            s == spec_survival(*self, neighbors),
    {
        if self.survival_rule.has(neighbors) {
            CellState::Alive
        } else if self.states == 2 {
            CellState::Empty
        } else {
            CellState::Dying(self.states - 2)
        }
    }

    pub fn apply_dying_rule(&self, state: u8) -> (s: CellState)
        requires
            state >= 1,
        ensures
            s == spec_dying(state),
    {
        if state == 1 {
            CellState::Empty
        } else {
            CellState::Dying(state - 1)
        }
    }
}

impl Default for Rule {
    /// Survival on 2, 6 or 9 neighbours, birth on 4, 6, 8, 9 or 11, ten
    /// states, Moore topology.
    fn default() -> (r: Rule)
        ensures
            r.wf(),
            r.states == 10u8,
            r.neighbour_method == NeighbourMethod::Moore,
            r.survival_rule@.len() == 27,
            r.birth_rule@.len() == 27,
            forall|i: int|
                0 <= i < 27 ==> (#[trigger] r.survival_rule@[i] <==> (i == 2 || i == 6 || i
                    == 9)),
            forall|i: int|
                0 <= i < 27 ==> (#[trigger] r.birth_rule@[i] <==> (i == 4 || i == 6 || i == 8
                    || i == 9 || i == 11)),
    {
        let mut survival: Vec<u8> = Vec::new();
        survival.push(2);
        survival.push(6);
        survival.push(9);
        let mut birth: Vec<u8> = Vec::new();
        birth.push(4);
        birth.push(6);
        birth.push(8);
        birth.push(9);
        birth.push(11);
        let r = Rule {
            survival_rule: Indexes::new(survival.as_slice()),
            birth_rule: Indexes::new(birth.as_slice()),
            states: 10,
            neighbour_method: NeighbourMethod::Moore,
        };
        proof {
            assert(survival@.len() == 3 && survival@[0] == 2u8 && survival@[1] == 6u8
                && survival@[2] == 9u8);
            assert(birth@.len() == 5 && birth@[0] == 4u8 && birth@[1] == 6u8 && birth@[2] == 8u8
                && birth@[3] == 9u8 && birth@[4] == 11u8);
        }
        assert forall|i: int| 0 <= i < 27 implies (#[trigger] r.survival_rule@[i] <==> (i == 2
            || i == 6 || i == 9)) by {
            if i == 2 || i == 6 || i == 9 {
                assert(survival@[if i == 2 { 0int } else if i == 6 { 1int } else { 2int }]
                    == i as u8);
            }
            if survival@.contains(i as u8) {
                let j = choose|j: int| 0 <= j < survival@.len() && survival@[j] == i as u8;
            }
        }
        assert forall|i: int| 0 <= i < 27 implies (#[trigger] r.birth_rule@[i] <==> (i == 4 || i
            == 6 || i == 8 || i == 9 || i == 11)) by {
            if i == 4 || i == 6 || i == 8 || i == 9 || i == 11 {
                assert(birth@[if i == 4 { 0int } else if i == 6 { 1int } else if i == 8 { 2int }
                    else if i == 9 { 3int } else { 4int }] == i as u8);
            }
            if birth@.contains(i as u8) {
                let j = choose|j: int| 0 <= j < birth@.len() && birth@[j] == i as u8;
            }
        }
        r
    }
}

} // verus!
