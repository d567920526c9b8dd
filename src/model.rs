use vstd::prelude::*;

use crate::agent::{Agent, Species, State};
use crate::grid::{
    at_home, lemma_window_complete, lemma_window_shrinks, lemma_wrap_idempotent, other_than, scanned,
    wrap_index, Grid,
};
use crate::settings::SimError;

verus! {

/// The simulation state the library keeps: every agent ever created, with
/// stable indices, the bucket index of the living ones, and the tick
/// counter. A tick runs as `advance` (every living agent's move, computed
/// from the old state only), `reindex`, `predation_pass`, then `tick`.
pub struct Model<V> {
    agents: Vec<Agent<V>>,
    grid: Grid,
    current_index: usize,
    moved: bool,
    vision_ratio: usize,
}

impl<V> Model<V> {
    /// All agents, by index.
    pub closed spec fn agents_view(&self) -> Seq<Agent<V>> {
        self.agents@
    }

    /// The bucket index.
    pub closed spec fn grid_view(&self) -> Grid {
        self.grid
    }

    /// Index of the current tick.
    pub closed spec fn tick_index(&self) -> nat {
        self.current_index as nat
    }

    /// This tick's move has been recorded and the tick is not yet closed.
    pub closed spec fn has_moved(&self) -> bool {
        self.moved
    }

    /// `ceil(predator vision / prey vision)`, the reach of a predator's
    /// scan in cells.
    pub closed spec fn ratio(&self) -> nat {
        self.vision_ratio as nat
    }

    /// Agent `a` is alive.
    pub open spec fn living(&self, a: usize) -> bool {
        a < self.agents_view().len() && self.agents_view()[a as int].alive()
    }

    /// The grid is sound and holds exactly the living agents; every
    /// history is as long as the tick counter says.
    pub closed spec fn wf(&self) -> bool {
        &&& self.grid.wf()
        &&& 1 <= self.vision_ratio < usize::MAX - 1
        &&& self.agents@.len() <= usize::MAX
        &&& forall|a: int| 0 <= a < self.agents@.len() ==>
            (#[trigger] self.agents@[a]).history_ok(self.current_index as nat, self.moved)
        &&& forall|p: int, q: int, x: usize| self.grid.valid_cell(p, q) && #[trigger] self.grid.in_cell(p, q, x)
            ==> x < self.agents@.len()
        &&& forall|a: usize| a < self.agents@.len() ==> (self.agents@[a as int].alive() <==> #[trigger] self.grid.holds(a))
    }

    /// The window a predator in cell `(ci, cj)` scans: `ratio + 2` cells a
    /// side, starting `ratio` cells before it.
    pub closed spec fn predator_window(&self, ci: int, cj: int) -> Seq<usize> {
        self.grid.window_scan(ci, cj, self.vision_ratio as int, (self.vision_ratio + 2) as nat, (self.vision_ratio + 2) as nat)
    }

    /// The window a prey in cell `(ci, cj)` scans: the 3x3 block around it.
    pub closed spec fn prey_window(&self, ci: int, cj: int) -> Seq<usize> {
        self.grid.window_scan(ci, cj, 1, 3, 3)
    }

    /// An empty population on a grid of `num_cells` cells a side, where
    /// predators scan `vision_ratio` cells out. Both must be positive.
    pub fn new(num_cells: usize, vision_ratio: usize) -> (r: Result<Model<V>, SimError>)
        requires
            vision_ratio < usize::MAX - 1,
        ensures
            r is Err <==> num_cells == 0 || vision_ratio == 0,
            r is Err ==> r->Err_0 == SimError::InvalidConfiguration,
            r is Ok ==> {
                let m = r->Ok_0;
                &&& m.wf()
                &&& m.agents_view().len() == 0
                &&& m.tick_index() == 0
                &&& !m.has_moved()
                &&& m.ratio() == vision_ratio
                &&& m.grid_view().num_cells == num_cells
                &&& forall|p: int, q: int| m.grid_view().valid_cell(p, q) ==> #[trigger] m.grid_view().bucket(p, q)
                    == Seq::<usize>::empty()
            },
    {
        if vision_ratio == 0 {
            return Err(SimError::InvalidConfiguration);
        }
        let grid = match Grid::new(num_cells) {
            Ok(g) => g,
            Err(e) => {
                return Err(e);
            },
        };
        let m = Model { agents: Vec::new(), grid, current_index: 0, moved: false, vision_ratio };
        proof {
            assert forall|p: int, q: int, x: usize| m.grid.valid_cell(p, q) && #[trigger] m.grid.in_cell(p, q, x)
                implies x < m.agents@.len() by {
                assert(m.grid.bucket(p, q) == Seq::<usize>::empty());
            }
            assert forall|a: usize| a < m.agents@.len() implies (m.agents@[a as int].alive() <==> #[trigger] m.grid.holds(a)) by {
            }
        }
        Ok(m)
    }

    /// Adds a live agent, before the first tick, in the cell of floored
    /// coordinates `(fx, fy)`; returns its index.
    pub fn add_agent(&mut self, agent_type: Species, position: V, velocity: V, fx: i64, fy: i64) -> (r: usize)
        requires
            old(self).wf(),
            old(self).tick_index() == 0,
            !old(self).has_moved(),
            old(self).agents_view().len() < usize::MAX,
        ensures
            final(self).wf(),
            r == old(self).agents_view().len(),
            final(self).agents_view().len() == r + 1,
            forall|a: int| 0 <= a < r ==> #[trigger] final(self).agents_view()[a] == old(self).agents_view()[a],
            final(self).agents_view()[r as int].positions@ == seq![position],
            final(self).agents_view()[r as int].velocities@ == seq![velocity],
            final(self).agents_view()[r as int].agent_type == agent_type,
            final(self).agents_view()[r as int].dead == State::Alive,
            final(self).tick_index() == 0,
            !final(self).has_moved(),
            final(self).ratio() == old(self).ratio(),
            ({
                let i = wrap_index(fx as int, old(self).grid_view().num_cells as int);
                let j = wrap_index(fy as int, old(self).grid_view().num_cells as int);
                &&& final(self).grid_view().same_but(&old(self).grid_view(), i, j)
                &&& final(self).grid_view().bucket(i, j) == old(self).grid_view().bucket(i, j).push(r)
            }),
    {
        let r = self.agents.len();
        proof {
            if self.grid.holds(r) {
                let (p, q) = choose|p: int, q: int| self.grid.valid_cell(p, q) && #[trigger] self.grid.in_cell(p, q, r);
                assert(r < self.agents@.len());
            }
        }
        let ghost g0 = self.grid;
        self.grid.push_agent(fx, fy, r);
        self.agents.push(Agent::new(agent_type, position, velocity));
        proof {
            let i = wrap_index(fx as int, g0.num_cells as int);
            let j = wrap_index(fy as int, g0.num_cells as int);
            lemma_wrap_idempotent(fx as int, g0.num_cells as int);
            lemma_wrap_idempotent(fy as int, g0.num_cells as int);
            vstd::seq_lib::lemma_seq_contains_after_push(g0.bucket(i, j), r, r);
            assert(self.grid.in_cell(i, j, r));
            assert forall|p: int, q: int, x: usize| self.grid.valid_cell(p, q) && #[trigger] self.grid.in_cell(p, q, x)
                implies x < self.agents@.len() by {
                if !(p == i && q == j) {
                    assert(g0.in_cell(p, q, x));
                } else {
                    vstd::seq_lib::lemma_seq_contains_after_push(g0.bucket(i, j), r, x);
                    if x != r {
                        assert(g0.in_cell(p, q, x));
                    }
                }
            }
            assert forall|a: usize| a < self.agents@.len() implies (self.agents@[a as int].alive() <==> #[trigger] self.grid.holds(a)) by {
                if a < r {
                    if g0.holds(a) {
                        let (p, q) = choose|p: int, q: int| g0.valid_cell(p, q) && #[trigger] g0.in_cell(p, q, a);
                        if !(p == i && q == j) {
                            assert(self.grid.in_cell(p, q, a));
                        } else {
                            vstd::seq_lib::lemma_seq_contains_after_push(g0.bucket(i, j), r, a);
                            assert(self.grid.in_cell(p, q, a));
                        }
                    }
                    if self.grid.holds(a) {
                        let (p, q) = choose|p: int, q: int| self.grid.valid_cell(p, q) && #[trigger] self.grid.in_cell(p, q, a);
                        if !(p == i && q == j) {
                            assert(g0.in_cell(p, q, a));
                        } else {
                            vstd::seq_lib::lemma_seq_contains_after_push(g0.bucket(i, j), r, a);
                            assert(g0.in_cell(p, q, a));
                        }
                    }
                }
            }
            assert forall|a: int| 0 <= a < self.agents@.len() implies
                (#[trigger] self.agents@[a]).history_ok(self.current_index as nat, self.moved) by {
            }
        }
        r
    }
}


/// At scan position `k` of window `w`, a prey stands that `in_reach` marks
/// as within striking distance.
pub open spec fn strikes_at<V>(agents: Seq<Agent<V>>, w: Seq<usize>, in_reach: Seq<bool>, k: int) -> bool {
    &&& 0 <= k < w.len()
    &&& in_reach[k]
    &&& w[k] < agents.len()
    &&& agents[w[k] as int].agent_type == Species::Prey
}

impl<V> Model<V> {
    /// Records this tick's move: each living agent `a` gets position
    /// `next[a].0` and velocity `next[a].1` appended; entries for dead
    /// agents are dropped. The moves are all computed by the caller from
    /// the state before this call, so no agent sees another's new state.
    pub fn advance(&mut self, next: Vec<(V, V)>)
        requires
            old(self).wf(),
            !old(self).has_moved(),
            next@.len() == old(self).agents_view().len(),
        ensures
            final(self).wf(),
            final(self).has_moved(),
            final(self).tick_index() == old(self).tick_index(),
            final(self).ratio() == old(self).ratio(),
            final(self).grid_view() == old(self).grid_view(),
            final(self).agents_view().len() == old(self).agents_view().len(),
            forall|a: int| 0 <= a < next@.len() ==> {
                let (n, o) = (#[trigger] final(self).agents_view()[a], old(self).agents_view()[a]);
                &&& n.agent_type == o.agent_type
                &&& n.dead == o.dead
                &&& o.alive() ==> n.positions@ == o.positions@.push(next@[a].0)
                &&& o.alive() ==> n.velocities@ == o.velocities@.push(next@[a].1)
                &&& !o.alive() ==> n.positions@ == o.positions@ && n.velocities@ == o.velocities@
            },
    {
        let ghost s0 = *self;
        let ghost a0 = self.agents@;
        let ghost nx = next@;
        let mut next = next;
        let mut k = next.len();
        while k > 0
            invariant
                k <= nx.len(),
                nx.len() == a0.len(),
                s0.wf(),
                !s0.moved,
                a0 == s0.agents@,
                self.grid == s0.grid,
                self.current_index == s0.current_index,
                self.moved == s0.moved,
                self.vision_ratio == s0.vision_ratio,
                next@ == nx.subrange(0, k as int),
                self.agents@.len() == a0.len(),
                forall|a: int| 0 <= a < k ==> #[trigger] self.agents@[a] == a0[a],
                forall|a: int| k <= a < nx.len() ==> {
                    let (n, o) = (#[trigger] self.agents@[a], a0[a]);
                    &&& n.agent_type == o.agent_type
                    &&& n.dead == o.dead
                    &&& o.alive() ==> n.positions@ == o.positions@.push(nx[a].0)
                    &&& o.alive() ==> n.velocities@ == o.velocities@.push(nx[a].1)
                    &&& !o.alive() ==> n.positions@ == o.positions@ && n.velocities@ == o.velocities@
                },
            decreases k,
        {
            let entry = next.pop();
            k = k - 1;
            match entry {
                Some((p, v)) => {
                    proof {
                        assert(nx[k as int] == (p, v));
                    }
                    if self.agents[k].is_alive() {
                        self.agents[k].update(p, v);
                    }
                },
                None => {},
            }
            proof {
                assert(next@ =~= nx.subrange(0, k as int));
            }
        }
        self.moved = true;
        proof {
            assert forall|a: int| 0 <= a < self.agents@.len() implies
                (#[trigger] self.agents@[a]).history_ok(self.current_index as nat, self.moved) by {
                assert(a0[a].history_ok(s0.current_index as nat, false));
            }
            assert forall|a: usize| a < self.agents@.len() implies (self.agents@[a as int].alive() <==> #[trigger] self.grid.holds(a)) by {
                assert(a0[a as int].alive() <==> s0.grid.holds(a));
            }
        }
    }

    /// Rebuckets the living agents: `homes[a]` is the cell of agent `a`'s
    /// latest position. Afterwards each living agent is in exactly one
    /// bucket, its home, and no dead agent is in any; the buckets are
    /// ordered as `Grid::reindex` says.
    pub fn reindex(&mut self, homes: &Vec<(usize, usize)>)
        requires
            old(self).wf(),
            homes@.len() == old(self).agents_view().len(),
            old(self).grid_view().homes_valid(homes@),
        ensures
            final(self).wf(),
            final(self).agents_view() == old(self).agents_view(),
            final(self).tick_index() == old(self).tick_index(),
            final(self).has_moved() == old(self).has_moved(),
            final(self).ratio() == old(self).ratio(),
            final(self).grid_view().num_cells == old(self).grid_view().num_cells,
            forall|p: int, q: int, x: usize| final(self).grid_view().valid_cell(p, q) ==>
                (#[trigger] final(self).grid_view().in_cell(p, q, x) <==> old(self).living(x) && at_home(homes@, p, q, x)),
            final(self).grid_view().rebucketed(&old(self).grid_view(), homes@),
    {
        let ghost g0 = self.grid;
        self.grid.reindex(homes);
        proof {
            assert forall|p: int, q: int, x: usize| self.grid.valid_cell(p, q) implies
                (#[trigger] self.grid.in_cell(p, q, x) <==> self.living(x) && at_home(homes@, p, q, x)) by {
                if g0.holds(x) {
                    let (p0, q0) = choose|p0: int, q0: int| g0.valid_cell(p0, q0) && #[trigger] g0.in_cell(p0, q0, x);
                    assert(x < self.agents@.len());
                }
            }
            assert forall|a: usize| a < self.agents@.len() implies (self.agents@[a as int].alive() <==> #[trigger] self.grid.holds(a)) by {
                if self.agents@[a as int].alive() {
                    let (hi, hj) = homes@[a as int];
                    assert(g0.valid_cell(hi as int, hj as int));
                    assert(self.grid.in_cell(hi as int, hj as int, a));
                }
                if self.grid.holds(a) {
                    let (p0, q0) = choose|p0: int, q0: int| self.grid.valid_cell(p0, q0) && #[trigger] self.grid.in_cell(p0, q0, a);
                }
            }
            assert forall|p: int, q: int, x: usize| self.grid.valid_cell(p, q) && #[trigger] self.grid.in_cell(p, q, x)
                implies x < self.agents@.len() by {
            }
        }
    }

    /// Closes the tick once its move is recorded.
    pub fn tick(&mut self)
        requires
            old(self).wf(),
            old(self).has_moved(),
            old(self).tick_index() + 1 < usize::MAX,
        ensures
            final(self).wf(),
            !final(self).has_moved(),
            final(self).tick_index() == old(self).tick_index() + 1,
            final(self).agents_view() == old(self).agents_view(),
            final(self).grid_view() == old(self).grid_view(),
            final(self).ratio() == old(self).ratio(),
    {
        self.current_index = self.current_index + 1;
        self.moved = false;
        proof {
            assert forall|a: int| 0 <= a < self.agents@.len() implies
                (#[trigger] self.agents@[a]).history_ok(self.current_index as nat, self.moved) by {
            }
        }
    }
}


impl<V> Model<V> {
    /// Every agent a window scan finds is alive and in the grid.
    pub proof fn lemma_window_members_live(&self, ci: int, cj: int, offset: int, width: nat, x: usize)
        requires
            self.wf(),
            self.grid_view().window_scan(ci, cj, offset, width, width).contains(x),
        ensures
            self.living(x),
            self.grid_view().holds(x),
    {
        let g = self.grid;
        lemma_window_complete(&g, ci, cj, offset, width, x);
        let (di, dj) = choose|di: int, dj: int| 0 <= di < width && 0 <= dj < width && #[trigger] g.in_cell(
            wrap_index(ci + di - offset, g.num_cells as int),
            wrap_index(cj + dj - offset, g.num_cells as int),
            x,
        );
        lemma_wrap_idempotent(ci + di - offset, g.num_cells as int);
        lemma_wrap_idempotent(cj + dj - offset, g.num_cells as int);
        assert(g.valid_cell(
            wrap_index(ci + di - offset, g.num_cells as int),
            wrap_index(cj + dj - offset, g.num_cells as int),
        ));
        assert(x < self.agents@.len());
        assert(g.holds(x));
    }

    /// One predator's strike, for a predator in cell `(ci, cj)` after this
    /// tick's move: the first prey of its scan window that `in_reach`
    /// marks (entry `k` for the window's `k`-th agent) is caught. It is
    /// marked dead at the current tick and leaves its bucket. Returns the
    /// prey caught, if any; with none, nothing changes.
    pub fn strike(&mut self, ci: usize, cj: usize, in_reach: &Vec<bool>) -> (r: Option<usize>)
        requires
            old(self).wf(),
            old(self).has_moved(),
            old(self).grid_view().valid_cell(ci as int, cj as int),
            in_reach@.len() == old(self).predator_window(ci as int, cj as int).len(),
        ensures
            final(self).wf(),
            final(self).has_moved(),
            final(self).tick_index() == old(self).tick_index(),
            final(self).ratio() == old(self).ratio(),
            final(self).agents_view().len() == old(self).agents_view().len(),
            final(self).grid_view().num_cells == old(self).grid_view().num_cells,
            ({
                let w = old(self).predator_window(ci as int, cj as int);
                let ags = old(self).agents_view();
                &&& r is None <==> forall|k: int| !#[trigger] strikes_at(ags, w, in_reach@, k)
                &&& r is None ==> final(self).agents_view() == ags && final(self).grid_view() == old(self).grid_view()
                &&& r is Some ==> exists|k: int| #[trigger] strikes_at(ags, w, in_reach@, k) && w[k] == r->0
                    && forall|k2: int| 0 <= k2 < k ==> !#[trigger] strikes_at(ags, w, in_reach@, k2)
            }),
            r is Some ==> {
                let v = r->0;
                let (n, o) = (final(self).agents_view()[v as int], old(self).agents_view()[v as int]);
                &&& old(self).living(v)
                &&& n.dead == State::Dead(old(self).tick_index() as usize)
                &&& n.positions == o.positions
                &&& n.velocities == o.velocities
                &&& n.agent_type == o.agent_type
                &&& forall|a: int| 0 <= a < final(self).agents_view().len() && a != v ==> #[trigger] final(self).agents_view()[a]
                    == old(self).agents_view()[a]
                &&& forall|p: int, q: int| final(self).grid_view().valid_cell(p, q) ==> #[trigger] final(self).grid_view().bucket(p, q)
                    == old(self).grid_view().bucket(p, q).filter(other_than(v))
                &&& forall|p: int, q: int, x: usize| final(self).grid_view().valid_cell(p, q) ==>
                    (#[trigger] final(self).grid_view().in_cell(p, q, x) <==> old(self).grid_view().in_cell(p, q, x) && x != v)
            },
    {
        let ghost s0 = *self;
        let w = self.grid.neighbors_window(ci, cj, self.vision_ratio, self.vision_ratio + 2);
        let mut k: usize = 0;
        while k < w.len()
            invariant
                *self == s0,
                s0 == *old(self),
                s0.wf(),
                s0.moved,
                w@ == s0.predator_window(ci as int, cj as int),
                in_reach@.len() == w@.len(),
                k <= w@.len(),
                forall|k2: int| 0 <= k2 < k ==> !#[trigger] strikes_at(s0.agents@, w@, in_reach@, k2),
            decreases w@.len() - k,
        {
            let x = w[k];
            if in_reach[k] && x < self.agents.len() && self.agents[x].is_prey() {
                proof {
                    assert(w@.contains(x));
                    s0.lemma_window_members_live(ci as int, cj as int, s0.vision_ratio as int,
                        (s0.vision_ratio + 2) as nat, x);
                    assert(strikes_at(s0.agents@, w@, in_reach@, k as int));
                }
                let tick = self.current_index;
                self.agents[x].kill(tick);
                self.grid.remove_agent(x);
                proof {
                    assert forall|a: int| 0 <= a < self.agents@.len() implies
                        (#[trigger] self.agents@[a]).history_ok(self.current_index as nat, self.moved) by {
                        if a != x {
                            assert(self.agents@[a] == s0.agents@[a]);
                        }
                    }
                    assert forall|a: usize| a < self.agents@.len() implies
                        (self.agents@[a as int].alive() <==> #[trigger] self.grid.holds(a)) by {
                        if a != x {
                            assert(self.agents@[a as int] == s0.agents@[a as int]);
                            if s0.grid.holds(a) {
                                let (p0, q0) = choose|p0: int, q0: int| s0.grid.valid_cell(p0, q0) && #[trigger] s0.grid.in_cell(p0, q0, a);
                                assert(self.grid.in_cell(p0, q0, a));
                            }
                            if self.grid.holds(a) {
                                let (p0, q0) = choose|p0: int, q0: int| self.grid.valid_cell(p0, q0) && #[trigger] self.grid.in_cell(p0, q0, a);
                                assert(s0.grid.in_cell(p0, q0, a));
                            }
                        } else {
                            if self.grid.holds(a) {
                                let (p0, q0) = choose|p0: int, q0: int| self.grid.valid_cell(p0, q0) && #[trigger] self.grid.in_cell(p0, q0, a);
                            }
                        }
                    }
                    assert forall|p: int, q: int, y: usize| self.grid.valid_cell(p, q) && #[trigger] self.grid.in_cell(p, q, y)
                        implies y < self.agents@.len() by {
                        assert(s0.grid.in_cell(p, q, y));
                    }
                    assert(strikes_at(s0.agents@, w@, in_reach@, k as int) && w@[k as int] == x);
                }
                return Some(x);
            }
            k = k + 1;
        }
        proof {
            assert forall|k2: int| !#[trigger] strikes_at(s0.agents@, w@, in_reach@, k2) by {
                if 0 <= k2 < k {
                }
            }
        }
        None
    }
}


/// `pairs` lists `(a, b)`.
fn contains_pair(pairs: &Vec<(usize, usize)>, a: usize, b: usize) -> (r: bool)
    ensures
        r == pairs@.contains((a, b)),
{
    let mut k: usize = 0;
    while k < pairs.len()
        invariant
            k <= pairs@.len(),
            forall|t: int| 0 <= t < k ==> pairs@[t] != (a, b),
        decreases pairs@.len() - k,
    {
        let (x, y) = pairs[k];
        if x == a && y == b {
            proof {
                assert(pairs@[k as int] == (a, b));
            }
            return true;
        }
        k = k + 1;
    }
    false
}

impl<V> Model<V> {
    /// The agents of bucket `(i, j)`, in order.
    pub fn bucket(&self, i: usize, j: usize) -> (r: Vec<usize>)
        requires
            self.wf(),
            self.grid_view().valid_cell(i as int, j as int),
        ensures
            r@ == self.grid_view().bucket(i as int, j as int),
    {
        let b = &self.grid.cells[i][j].agent_indices;
        let mut out: Vec<usize> = Vec::new();
        let mut k: usize = 0;
        while k < b.len()
            invariant
                k <= b@.len(),
                out@ == b@.subrange(0, k as int),
            decreases b@.len() - k,
        {
            out.push(b[k]);
            proof {
                assert(b@.subrange(0, k + 1) =~= b@.subrange(0, k as int).push(b@[k as int]));
            }
            k = k + 1;
        }
        proof {
            assert(b@.subrange(0, b@.len() as int) =~= b@);
        }
        out
    }

    /// The predation pass after this tick's move and reindex. `close`
    /// lists the `(predator, prey)` pairs within striking distance. Cells
    /// are visited in row-major order and, in each, the predators in bucket
    /// order; each living predator strikes once (see `strike`), so it
    /// catches at most one prey, and a prey caught earlier in the pass is
    /// no longer in anyone's window. Returns the `(predator, prey)` catches
    /// in the order they happened, no two by the same predator. Afterwards
    /// every predator either made a catch or has no prey it is close to
    /// left in its window.
    pub fn predation_pass(&mut self, close: &Vec<(usize, usize)>) -> (kills: Vec<(usize, usize)>)
        requires
            old(self).wf(),
            old(self).has_moved(),
        ensures
            final(self).pass_from(old(self), close@, kills@),
            forall|p: usize, pc: int, qc: int| final(self).grid_view().valid_cell(pc, qc)
                && #[trigger] final(self).grid_view().in_cell(pc, qc, p)
                && final(self).agents_view()[p as int].agent_type == Species::Predator
                ==> caught_by(kills@, p) || final(self).spared(p, pc, qc, close@),
            forall|t1: int, t2: int| 0 <= t1 < t2 < kills@.len() ==> (#[trigger] kills@[t1]).0 != (#[trigger] kills@[t2]).0,
    {
        let ghost s0 = *self;
        let mut kills: Vec<(usize, usize)> = Vec::new();
        let n = self.grid.num_cells;
        proof {
            assert(self.pass_from(&s0, close@, kills@)) by {
                assert forall|a: usize| #[trigger] s0.living(a) && !self.living(a) implies
                    exists|t: int| 0 <= t < kills@.len() && (#[trigger] kills@[t]).1 == a by {
                }
            }
        }
        let mut ci: usize = 0;
        while ci < n
            invariant
                s0 == *old(self),
                s0.wf(),
                s0.moved,
                n == self.grid.num_cells,
                self.pass_from(&s0, close@, kills@),
                forall|p: usize, pc: int, qc: int| self.grid.valid_cell(pc, qc) && #[trigger] self.grid.in_cell(pc, qc, p)
                    && self.agents@[p as int].agent_type == Species::Predator && scanned(pc, qc, ci as int, 0)
                    ==> caught_by(kills@, p) || self.spared(p, pc, qc, close@),
                forall|p: usize, pc: int, qc: int| self.grid.valid_cell(pc, qc) && #[trigger] self.grid.in_cell(pc, qc, p)
                    && caught_by(kills@, p) ==> scanned(pc, qc, ci as int, 0),
                forall|t1: int, t2: int| 0 <= t1 < t2 < kills@.len() ==> (#[trigger] kills@[t1]).0 != (#[trigger] kills@[t2]).0,
            decreases n - ci,
        {
            let mut cj: usize = 0;
            while cj < n
                invariant
                    s0 == *old(self),
                    s0.wf(),
                    s0.moved,
                    ci < n,
                    n == self.grid.num_cells,
                    self.pass_from(&s0, close@, kills@),
                    forall|p: usize, pc: int, qc: int| self.grid.valid_cell(pc, qc) && #[trigger] self.grid.in_cell(pc, qc, p)
                        && self.agents@[p as int].agent_type == Species::Predator && scanned(pc, qc, ci as int, cj as int)
                        ==> caught_by(kills@, p) || self.spared(p, pc, qc, close@),
                    forall|p: usize, pc: int, qc: int| self.grid.valid_cell(pc, qc) && #[trigger] self.grid.in_cell(pc, qc, p)
                        && caught_by(kills@, p) ==> scanned(pc, qc, ci as int, cj as int),
                    forall|t1: int, t2: int| 0 <= t1 < t2 < kills@.len() ==> (#[trigger] kills@[t1]).0 != (#[trigger] kills@[t2]).0,
                decreases n - cj,
            {
                let ghost at_cell = *self;
                let members = self.bucket(ci, cj);
                let mut m: usize = 0;
                while m < members.len()
                    invariant
                        s0 == *old(self),
                        s0.wf(),
                        s0.moved,
                        ci < n,
                        cj < n,
                        n == self.grid.num_cells,
                        n == at_cell.grid.num_cells,
                        at_cell.grid.wf(),
                        m <= members@.len(),
                        members@ == at_cell.grid.bucket(ci as int, cj as int),
                        self.pass_from(&s0, close@, kills@),
                        forall|p: int, q: int, x: usize| self.grid.valid_cell(p, q) && #[trigger] self.grid.in_cell(p, q, x)
                            ==> at_cell.grid.in_cell(p, q, x),
                        forall|p: usize, pc: int, qc: int| self.grid.valid_cell(pc, qc) && #[trigger] self.grid.in_cell(pc, qc, p)
                            && self.agents@[p as int].agent_type == Species::Predator
                            && (scanned(pc, qc, ci as int, cj as int) || (pc == ci && qc == cj
                                && members@.subrange(0, m as int).contains(p)))
                            ==> caught_by(kills@, p) || self.spared(p, pc, qc, close@),
                        forall|p: usize, pc: int, qc: int| self.grid.valid_cell(pc, qc) && #[trigger] self.grid.in_cell(pc, qc, p)
                            && caught_by(kills@, p) ==> scanned(pc, qc, ci as int, cj as int) || (pc == ci && qc == cj
                                && members@.subrange(0, m as int).contains(p)),
                        forall|t1: int, t2: int| 0 <= t1 < t2 < kills@.len() ==> (#[trigger] kills@[t1]).0 != (#[trigger] kills@[t2]).0,
                    decreases members@.len() - m,
                {
                    let a = members[m];
                    let ghost before = *self;
                    let ghost kills_before = kills@;
                    if a < self.agents.len() && self.agents[a].is_alive() && !self.agents[a].is_prey() {
                        let w = self.grid.neighbors_window(ci, cj, self.vision_ratio, self.vision_ratio + 2);
                        let mut flags: Vec<bool> = Vec::new();
                        let mut k: usize = 0;
                        while k < w.len()
                            invariant
                                *self == before,
                                k <= w@.len(),
                                flags@.len() == k,
                                forall|t: int| 0 <= t < k ==> #[trigger] flags@[t] == close@.contains((a, w@[t])),
                            decreases w@.len() - k,
                        {
                            flags.push(contains_pair(close, a, w[k]));
                            k = k + 1;
                        }
                        assert(w@ == before.predator_window(ci as int, cj as int));
                        let hit = self.strike(ci, cj, &flags);
                        match hit {
                            Some(v) => {
                                kills.push((a, v));
                                proof {
                                    self.lemma_pass_catch(&before, &s0, close@, kills_before, ci as int, cj as int, a, v, w@, flags@);
                                    assert(at_cell.grid.in_cell(ci as int, cj as int, a)) by {
                                        assert(members@[m as int] == a);
                                    }
                                    assert(before.grid.holds(a));
                                    let (p0, q0) = choose|p0: int, q0: int| before.grid.valid_cell(p0, q0) && #[trigger] before.grid.in_cell(p0, q0, a);
                                    assert(at_cell.grid.in_cell(p0, q0, a));
                                    assert(before.grid.in_cell(ci as int, cj as int, a));
                                    assert(!members@.subrange(0, m as int).contains(a)) by {
                                        if members@.subrange(0, m as int).contains(a) {
                                            let t = choose|t: int| 0 <= t < m && members@.subrange(0, m as int)[t] == a;
                                            assert(members@[t] == members@[m as int]);
                                            assert(at_cell.grid.bucket(ci as int, cj as int).no_duplicates());
                                        }
                                    }
                                    assert(!caught_by(kills_before, a));
                                    assert forall|t1: int, t2: int| 0 <= t1 < t2 < kills@.len() implies
                                        (#[trigger] kills@[t1]).0 != (#[trigger] kills@[t2]).0 by {
                                        if t2 == kills_before.len() {
                                            assert(kills@[t1] == kills_before[t1]);
                                        } else {
                                            assert(kills@[t1] == kills_before[t1]);
                                            assert(kills@[t2] == kills_before[t2]);
                                        }
                                    }
                                }
                            },
                            None => {
                                proof {
                                    assert forall|v: usize| #[trigger] self.predator_window(ci as int, cj as int).contains(v)
                                        && close@.contains((a, v)) implies self.agents@[v as int].agent_type != Species::Prey by {
                                        let k0 = choose|k0: int| 0 <= k0 < w@.len() && w@[k0] == v;
                                        assert(!strikes_at(before.agents@, w@, flags@, k0));
                                        before.lemma_window_members_live(ci as int, cj as int, before.vision_ratio as int,
                                            (before.vision_ratio + 2) as nat, v);
                                    }
                                    assert(self.spared(a, ci as int, cj as int, close@));
                                }
                            },
                        }
                        proof {
                            if hit is Some {
                                assert(kills@[kills@.len() - 1].0 == a);
                            }
                            assert(caught_by(kills@, a) || self.spared(a, ci as int, cj as int, close@));
                        }
                    }
                    proof {
                        let g = *self;
                        assert(members@.subrange(0, m + 1) =~= members@.subrange(0, m as int).push(a));
                        assert forall|p: usize, pc: int, qc: int| g.grid.valid_cell(pc, qc) && #[trigger] g.grid.in_cell(pc, qc, p)
                            && g.agents@[p as int].agent_type == Species::Predator
                            && (scanned(pc, qc, ci as int, cj as int) || (pc == ci && qc == cj
                                && members@.subrange(0, m + 1).contains(p)))
                            implies caught_by(kills@, p) || g.spared(p, pc, qc, close@) by {
                            assert(before.grid.in_cell(pc, qc, p));
                            assert(p < before.agents@.len());
                            assert(before.agents@[p as int].agent_type == Species::Predator);
                            if p == a && pc == ci && qc == cj {
                                assert(before.grid.holds(p));
                                assert(before.living(p));
                            } else {
                                if pc == ci && qc == cj && !scanned(pc, qc, ci as int, cj as int) {
                                    vstd::seq_lib::lemma_seq_contains_after_push(members@.subrange(0, m as int), a, p);
                                }
                                before.lemma_done_kept(&g, close@, kills_before, kills@, p, pc, qc);
                            }
                        }
                        assert forall|p: usize, pc: int, qc: int| g.grid.valid_cell(pc, qc) && #[trigger] g.grid.in_cell(pc, qc, p)
                            && caught_by(kills@, p) implies scanned(pc, qc, ci as int, cj as int) || (pc == ci && qc == cj
                                && members@.subrange(0, m + 1).contains(p)) by {
                            assert(before.grid.in_cell(pc, qc, p));
                            if p == a {
                                assert(at_cell.grid.in_cell(ci as int, cj as int, a)) by {
                                    assert(members@[m as int] == a);
                                }
                                assert(at_cell.grid.in_cell(pc, qc, a));
                                assert(members@.subrange(0, m + 1)[m as int] == a);
                            } else {
                                if !caught_by(kills_before, p) {
                                    let t = choose|t: int| 0 <= t < kills@.len() && (#[trigger] kills@[t]).0 == p;
                                    if t < kills_before.len() {
                                        assert(kills_before[t] == kills@[t]);
                                    }
                                }
                                if pc == ci && qc == cj && !scanned(pc, qc, ci as int, cj as int) {
                                    vstd::seq_lib::lemma_seq_contains_after_push(members@.subrange(0, m as int), a, p);
                                }
                            }
                        }
                    }
                    m = m + 1;
                }
                proof {
                    let g = *self;
                    assert(members@.subrange(0, members@.len() as int) =~= members@);
                    assert forall|p: usize, pc: int, qc: int| g.grid.valid_cell(pc, qc) && #[trigger] g.grid.in_cell(pc, qc, p)
                        && caught_by(kills@, p) implies scanned(pc, qc, ci as int, cj + 1) by {
                    }
                    assert forall|p: usize, pc: int, qc: int| g.grid.valid_cell(pc, qc) && #[trigger] g.grid.in_cell(pc, qc, p)
                        && g.agents@[p as int].agent_type == Species::Predator && scanned(pc, qc, ci as int, cj + 1)
                        implies caught_by(kills@, p) || g.spared(p, pc, qc, close@) by {
                        if pc == ci && qc == cj {
                            assert(at_cell.grid.in_cell(pc, qc, p));
                            assert(members@.subrange(0, members@.len() as int).contains(p));
                        }
                    }
                }
                cj = cj + 1;
            }
            proof {
                let g = *self;
                assert forall|p: usize, pc: int, qc: int| g.grid.valid_cell(pc, qc) && #[trigger] g.grid.in_cell(pc, qc, p)
                    && g.agents@[p as int].agent_type == Species::Predator && scanned(pc, qc, ci + 1, 0)
                    implies caught_by(kills@, p) || g.spared(p, pc, qc, close@) by {
                    assert(scanned(pc, qc, ci as int, n as int));
                }
                assert forall|p: usize, pc: int, qc: int| g.grid.valid_cell(pc, qc) && #[trigger] g.grid.in_cell(pc, qc, p)
                    && caught_by(kills@, p) implies scanned(pc, qc, ci + 1, 0) by {
                    assert(scanned(pc, qc, ci as int, n as int));
                }
            }
            ci = ci + 1;
        }
        proof {
            let g = *self;
            assert forall|p: usize, pc: int, qc: int| g.grid.valid_cell(pc, qc) && #[trigger] g.grid.in_cell(pc, qc, p)
                && g.agents@[p as int].agent_type == Species::Predator
                implies caught_by(kills@, p) || g.spared(p, pc, qc, close@) by {
                assert(scanned(pc, qc, n as int, 0));
            }
        }
        kills
    }
}

/// Predator `p` has a catch among `kills`.
pub open spec fn caught_by(kills: Seq<(usize, usize)>, p: usize) -> bool {
    exists|t: int| 0 <= t < kills.len() && (#[trigger] kills[t]).0 == p
}

impl<V> Model<V> {
    /// No prey that predator `p` is close to is left in the window of cell
    /// `(ci, cj)`.
    pub open spec fn spared(&self, p: usize, ci: int, cj: int, close: Seq<(usize, usize)>) -> bool {
        forall|v: usize| #[trigger] self.predator_window(ci, cj).contains(v) && close.contains((p, v))
            ==> self.agents_view()[v as int].agent_type != Species::Prey
    }

    /// This state follows `s0` by predation alone, with catches `kills`:
    /// each catch pairs a living predator with a living prey it was close
    /// to, now dead at the current tick; no one else changed.
    pub closed spec fn pass_from(&self, s0: &Self, close: Seq<(usize, usize)>, kills: Seq<(usize, usize)>) -> bool {
        &&& self.wf()
        &&& self.moved
        &&& self.current_index == s0.current_index
        &&& self.vision_ratio == s0.vision_ratio
        &&& self.agents@.len() == s0.agents@.len()
        &&& self.grid.num_cells == s0.grid.num_cells
        &&& forall|p: int, q: int, x: usize| self.grid.valid_cell(p, q) && #[trigger] self.grid.in_cell(p, q, x)
            ==> s0.grid.in_cell(p, q, x)
        &&& forall|a: int| 0 <= a < s0.agents@.len() ==> {
            &&& (#[trigger] self.agents@[a]).agent_type == s0.agents@[a].agent_type
            &&& self.agents@[a].positions == s0.agents@[a].positions
            &&& self.agents@[a].velocities == s0.agents@[a].velocities
        }
        &&& forall|a: usize| #[trigger] self.living(a) ==> s0.living(a)
        &&& forall|a: int| 0 <= a < s0.agents@.len() && (!s0.living(a as usize) || self.living(a as usize))
            ==> #[trigger] self.agents@[a] == s0.agents@[a]
        &&& forall|a: int| 0 <= a < s0.agents@.len() && s0.agents@[a].alive() && !(#[trigger] self.agents@[a]).alive()
            ==> self.agents@[a].dead == State::Dead(s0.current_index)
        &&& forall|t: int| 0 <= t < kills.len() ==> {
            let (p, v) = #[trigger] kills[t];
            &&& close.contains((p, v))
            &&& s0.living(p)
            &&& self.living(p)
            &&& s0.agents@[p as int].agent_type == Species::Predator
            &&& s0.living(v)
            &&& s0.agents@[v as int].agent_type == Species::Prey
            &&& self.agents@[v as int].dead == State::Dead(s0.current_index)
        }
        &&& forall|a: usize| #[trigger] s0.living(a) && !self.living(a) ==>
            exists|t: int| 0 <= t < kills.len() && (#[trigger] kills[t]).1 == a
    }

    /// A strike that caught `v` for predator `a` extends the pass.
    proof fn lemma_pass_catch(
        &self,
        before: &Self,
        s0: &Self,
        close: Seq<(usize, usize)>,
        kills_before: Seq<(usize, usize)>,
        ci: int,
        cj: int,
        a: usize,
        v: usize,
        w: Seq<usize>,
        flags: Seq<bool>,
    )
        requires
            before.pass_from(s0, close, kills_before),
            w == before.predator_window(ci, cj),
            flags.len() == w.len(),
            forall|t: int| 0 <= t < w.len() ==> #[trigger] flags[t] == close.contains((a, w[t])),
            a < before.agents@.len(),
            before.agents@[a as int].alive(),
            before.agents@[a as int].agent_type == Species::Predator,
            self.wf(),
            self.moved,
            self.current_index == before.current_index,
            self.vision_ratio == before.vision_ratio,
            self.agents@.len() == before.agents@.len(),
            self.grid.num_cells == before.grid.num_cells,
            exists|k: int| #[trigger] strikes_at(before.agents@, w, flags, k) && w[k] == v,
            before.living(v),
            self.agents@[v as int].dead == State::Dead(before.current_index),
            self.agents@[v as int].agent_type == before.agents@[v as int].agent_type,
            self.agents@[v as int].positions == before.agents@[v as int].positions,
            self.agents@[v as int].velocities == before.agents@[v as int].velocities,
            forall|b: int| 0 <= b < self.agents@.len() && b != v ==> #[trigger] self.agents@[b] == before.agents@[b],
            forall|p: int, q: int, x: usize| self.grid.valid_cell(p, q) ==>
                (#[trigger] self.grid.in_cell(p, q, x) <==> before.grid.in_cell(p, q, x) && x != v),
        ensures
            self.pass_from(s0, close, kills_before.push((a, v))),
    {
        let kills = kills_before.push((a, v));
        assert forall|p: int, q: int, x: usize| self.grid.valid_cell(p, q) && #[trigger] self.grid.in_cell(p, q, x)
            implies s0.grid.in_cell(p, q, x) by {
            assert(before.grid.in_cell(p, q, x));
        }
        let k0 = choose|k: int| #[trigger] strikes_at(before.agents@, w, flags, k) && w[k] == v;
        assert(close.contains((a, v)));
        assert(before.agents@[a as int] == s0.agents@[a as int]);
        assert(before.agents@[v as int] == s0.agents@[v as int]);
        assert(a != v);
        assert forall|t: int| 0 <= t < kills.len() implies {
            let (p, x) = #[trigger] kills[t];
            &&& close.contains((p, x))
            &&& s0.living(p)
            &&& self.living(p)
            &&& s0.agents@[p as int].agent_type == Species::Predator
            &&& s0.living(x)
            &&& s0.agents@[x as int].agent_type == Species::Prey
            &&& self.agents@[x as int].dead == State::Dead(s0.current_index)
        } by {
            if t < kills_before.len() {
                assert(kills[t] == kills_before[t]);
                let (p, x) = kills_before[t];
                assert(before.living(p));
                assert(p != v);
                assert(x != v);
                assert(self.agents@[p as int] == before.agents@[p as int]);
                assert(self.agents@[x as int] == before.agents@[x as int]);
            }
        }
        assert forall|b: int| 0 <= b < s0.agents@.len() implies {
            &&& (#[trigger] self.agents@[b]).agent_type == s0.agents@[b].agent_type
            &&& self.agents@[b].positions == s0.agents@[b].positions
            &&& self.agents@[b].velocities == s0.agents@[b].velocities
        } by {
            if b != v {
                assert(self.agents@[b] == before.agents@[b]);
            }
        }
        assert forall|b: usize| #[trigger] self.living(b) implies s0.living(b) by {
            if b != v {
                assert(self.agents@[b as int] == before.agents@[b as int]);
            }
        }
        assert forall|b: int| 0 <= b < s0.agents@.len() && s0.agents@[b].alive() && !(#[trigger] self.agents@[b]).alive()
            implies self.agents@[b].dead == State::Dead(s0.current_index) by {
            if b != v {
                assert(self.agents@[b] == before.agents@[b]);
            }
        }
        assert forall|b: int| 0 <= b < s0.agents@.len() && (!s0.living(b as usize) || self.living(b as usize))
            implies #[trigger] self.agents@[b] == s0.agents@[b] by {
            if b != v {
                assert(self.agents@[b] == before.agents@[b]);
            }
        }
        assert forall|b: usize| #[trigger] s0.living(b) && !self.living(b) implies
            exists|t: int| 0 <= t < kills.len() && (#[trigger] kills[t]).1 == b by {
            if b == v {
                assert(kills[kills_before.len() as int].1 == b);
            } else {
                assert(self.agents@[b as int] == before.agents@[b as int]);
                let t = choose|t: int| 0 <= t < kills_before.len() && (#[trigger] kills_before[t]).1 == b;
                assert(kills[t] == kills_before[t]);
            }
        }
    }

    /// A predator already done stays done after the grid loses agents and
    /// the catch list grows.
    proof fn lemma_done_kept(
        &self,
        later: &Self,
        close: Seq<(usize, usize)>,
        kills_before: Seq<(usize, usize)>,
        kills: Seq<(usize, usize)>,
        p: usize,
        pc: int,
        qc: int,
    )
        requires
            caught_by(kills_before, p) || self.spared(p, pc, qc, close),
            kills_before.is_prefix_of(kills),
            self.grid.num_cells == later.grid.num_cells,
            self.grid.num_cells > 0,
            self.vision_ratio == later.vision_ratio,
            self.agents@.len() == later.agents@.len(),
            forall|a: int| 0 <= a < self.agents@.len() ==> (#[trigger] later.agents@[a]).agent_type == self.agents@[a].agent_type,
            forall|p2: int, q2: int, x: usize| later.grid.valid_cell(p2, q2) && #[trigger] later.grid.in_cell(p2, q2, x)
                ==> self.grid.in_cell(p2, q2, x),
            forall|p2: int, q2: int, x: usize| later.grid.valid_cell(p2, q2) && #[trigger] later.grid.in_cell(p2, q2, x)
                ==> x < later.agents@.len(),
        ensures
            caught_by(kills, p) || later.spared(p, pc, qc, close),
    {
        if caught_by(kills_before, p) {
            let t = choose|t: int| 0 <= t < kills_before.len() && (#[trigger] kills_before[t]).0 == p;
            assert(kills[t] == kills_before[t]);
        } else {
            assert forall|v: usize| #[trigger] later.predator_window(pc, qc).contains(v) && close.contains((p, v))
                implies later.agents_view()[v as int].agent_type != Species::Prey by {
                lemma_window_shrinks(&self.grid, &later.grid, pc, qc, self.vision_ratio as int,
                    (self.vision_ratio + 2) as nat, v);
                assert(self.predator_window(pc, qc).contains(v));
                lemma_window_complete(&later.grid, pc, qc, later.vision_ratio as int, (later.vision_ratio + 2) as nat, v);
                let (di, dj) = choose|di: int, dj: int| 0 <= di < (later.vision_ratio + 2) && 0 <= dj < (later.vision_ratio + 2)
                    && #[trigger] later.grid.in_cell(
                    wrap_index(pc + di - later.vision_ratio, later.grid.num_cells as int),
                    wrap_index(qc + dj - later.vision_ratio, later.grid.num_cells as int),
                    v,
                );
                lemma_wrap_idempotent(pc + di - later.vision_ratio, later.grid.num_cells as int);
                lemma_wrap_idempotent(qc + dj - later.vision_ratio, later.grid.num_cells as int);
                assert(v < later.agents@.len());
            }
        }
    }
}

/// Number of living agents of `species` among the first `upto` agents.
pub open spec fn count_living<V>(agents: Seq<Agent<V>>, species: Species, upto: nat) -> nat
    decreases upto,
{
    if upto == 0 {
        0
    } else {
        let a = agents[upto - 1];
        count_living(agents, species, (upto - 1) as nat) + if a.alive() && a.agent_type == species { 1nat } else { 0nat }
    }
}

impl<V> Model<V> {
    pub fn num_agents(&self) -> (r: usize)
        ensures
            r == self.agents_view().len(),
    {
        self.agents.len()
    }

    /// Agent `a`, with its history and status.
    pub fn agent(&self, a: usize) -> (r: &Agent<V>)
        requires
            a < self.agents_view().len(),
        ensures
            *r == self.agents_view()[a as int],
    {
        &self.agents[a]
    }

    /// Index of the current tick.
    pub fn current_index(&self) -> (r: usize)
        ensures
            r == self.tick_index(),
    {
        self.current_index
    }

    pub fn vision_ratio(&self) -> (r: usize)
        ensures
            r == self.ratio(),
    {
        self.vision_ratio
    }

    /// Cells per side of the grid.
    pub fn num_cells(&self) -> (r: usize)
        ensures
            r == self.grid_view().num_cells,
    {
        self.grid.num_cells
    }

    /// The cell of floored coordinates `(fx, fy)`.
    pub fn cell_finder(&self, fx: i64, fy: i64) -> (r: (usize, usize))
        requires
            self.wf(),
        ensures
            r.0 as int == wrap_index(fx as int, self.grid_view().num_cells as int),
            r.1 as int == wrap_index(fy as int, self.grid_view().num_cells as int),
            self.grid_view().valid_cell(r.0 as int, r.1 as int),
    {
        self.grid.cell_finder(fx, fy)
    }

    /// The agents a prey in cell `(ci, cj)` looks at, in scan order.
    pub fn prey_neighbors(&self, ci: usize, cj: usize) -> (r: Vec<usize>)
        requires
            self.wf(),
        ensures
            r@ == self.prey_window(ci as int, cj as int),
    {
        self.grid.neighbors_window(ci, cj, 1, 3)
    }

    /// The agents a predator in cell `(ci, cj)` looks at, in scan order.
    pub fn predator_neighbors(&self, ci: usize, cj: usize) -> (r: Vec<usize>)
        requires
            self.wf(),
        ensures
            r@ == self.predator_window(ci as int, cj as int),
    {
        self.grid.neighbors_window(ci, cj, self.vision_ratio, self.vision_ratio + 2)
    }

    /// Number of living agents of `species`.
    pub fn count_alive(&self, species: Species) -> (r: usize)
        ensures
            r == count_living(self.agents_view(), species, self.agents_view().len()),
    {
        let mut c: usize = 0;
        let mut a: usize = 0;
        while a < self.agents.len()
            invariant
                a <= self.agents@.len(),
                c == count_living(self.agents@, species, a as nat),
                c <= a,
            decreases self.agents@.len() - a,
        {
            let ag = &self.agents[a];
            let same = match (ag.agent_type, species) {
                (Species::Prey, Species::Prey) => true,
                (Species::Predator, Species::Predator) => true,
                _ => false,
            };
            if ag.is_alive() && same {
                c = c + 1;
            }
            a = a + 1;
        }
        c
    }
}

/// Once caught at tick `t`, an agent's history stays `t + 2` entries long
/// (every tick up to `t` and the move of tick `t`), and it is in no bucket,
/// in every well-formed state of the simulation.
pub proof fn lemma_dead_agent_frozen<V>(m: &Model<V>, a: usize, t: usize)
    requires
        m.wf(),
        a < m.agents_view().len(),
        m.agents_view()[a as int].dead == State::Dead(t),
    ensures
        m.agents_view()[a as int].positions@.len() == t + 2,
        m.agents_view()[a as int].velocities@.len() == t + 2,
        t <= m.tick_index(),
        !m.grid_view().holds(a),
{
    assert(m.agents@[a as int].history_ok(m.current_index as nat, m.moved));
}

/// Each living agent is in exactly one bucket.
pub proof fn lemma_living_in_one_cell<V>(m: &Model<V>, a: usize)
    requires
        m.wf(),
        m.living(a),
    ensures
        exists|p: int, q: int| m.grid_view().valid_cell(p, q) && #[trigger] m.grid_view().in_cell(p, q, a),
        forall|p1: int, q1: int, p2: int, q2: int|
            m.grid_view().valid_cell(p1, q1) && m.grid_view().valid_cell(p2, q2)
                && #[trigger] m.grid_view().in_cell(p1, q1, a) && #[trigger] m.grid_view().in_cell(p2, q2, a)
                ==> p1 == p2 && q1 == q2,
{
    assert(m.grid.holds(a));
    let (p, q) = choose|p: int, q: int| m.grid.valid_cell(p, q) && #[trigger] m.grid.in_cell(p, q, a);
    assert(m.grid_view().valid_cell(p, q) && m.grid_view().in_cell(p, q, a));
}


impl<V> Model<V> {
    /// One whole tick after the caller's force and move work: records the
    /// moves `next` (see `advance`), rebuckets every living agent into its
    /// home cell `homes[a]`, runs the predation pass over the `close`
    /// `(predator, prey)` pairs, and closes the tick. Returns the catches,
    /// at most one per predator.
    pub fn step(
        &mut self,
        next: Vec<(V, V)>,
        homes: &Vec<(usize, usize)>,
        close: &Vec<(usize, usize)>,
    ) -> (kills: Vec<(usize, usize)>)
        requires
            old(self).wf(),
            !old(self).has_moved(),
            next@.len() == old(self).agents_view().len(),
            homes@.len() == old(self).agents_view().len(),
            old(self).grid_view().homes_valid(homes@),
            old(self).tick_index() + 1 < usize::MAX,
        ensures
            final(self).wf(),
            !final(self).has_moved(),
            final(self).tick_index() == old(self).tick_index() + 1,
            final(self).ratio() == old(self).ratio(),
            final(self).grid_view().num_cells == old(self).grid_view().num_cells,
            final(self).agents_view().len() == old(self).agents_view().len(),
            forall|a: int| 0 <= a < old(self).agents_view().len() ==> {
                let (n, o) = (#[trigger] final(self).agents_view()[a], old(self).agents_view()[a]);
                &&& n.agent_type == o.agent_type
                &&& n.dead == o.dead || (o.alive() && n.dead == State::Dead(old(self).tick_index() as usize))
                &&& !o.alive() ==> n.positions@ == o.positions@ && n.velocities@ == o.velocities@
                &&& o.alive() ==> n.positions@ == o.positions@.push(next@[a].0)
                &&& o.alive() ==> n.velocities@ == o.velocities@.push(next@[a].1)
                &&& o.alive() && !n.alive() ==> n.dead == State::Dead(old(self).tick_index() as usize)
            },
            forall|t: int| 0 <= t < kills@.len() ==> {
                let (p, v) = #[trigger] kills@[t];
                &&& close@.contains((p, v))
                &&& old(self).living(p)
                &&& final(self).living(p)
                &&& old(self).agents_view()[p as int].agent_type == Species::Predator
                &&& old(self).living(v)
                &&& !final(self).living(v)
                &&& old(self).agents_view()[v as int].agent_type == Species::Prey
            },
            forall|a: usize| #[trigger] old(self).living(a) && !final(self).living(a) ==>
                exists|t: int| 0 <= t < kills@.len() && (#[trigger] kills@[t]).1 == a,
            forall|p: int, q: int, x: usize| final(self).grid_view().valid_cell(p, q) ==>
                (#[trigger] final(self).grid_view().in_cell(p, q, x) <==> final(self).living(x) && at_home(homes@, p, q, x)),
            forall|p: usize, pc: int, qc: int| final(self).grid_view().valid_cell(pc, qc)
                && #[trigger] final(self).grid_view().in_cell(pc, qc, p)
                && final(self).agents_view()[p as int].agent_type == Species::Predator
                ==> caught_by(kills@, p) || final(self).spared(p, pc, qc, close@),
            forall|t1: int, t2: int| 0 <= t1 < t2 < kills@.len() ==> (#[trigger] kills@[t1]).0 != (#[trigger] kills@[t2]).0,
    {
        let ghost s0 = *self;
        self.advance(next);
        let ghost s1 = *self;
        self.reindex(homes);
        let ghost s2 = *self;
        let kills = self.predation_pass(close);
        let ghost s3 = *self;
        self.tick();
        proof {
            let f = *self;
            assert forall|a: int| 0 <= a < s0.agents@.len() implies {
                let (n, o) = (#[trigger] f.agents@[a], s0.agents@[a]);
                &&& n.agent_type == o.agent_type
                &&& n.dead == o.dead || (o.alive() && n.dead == State::Dead(s0.current_index))
                &&& !o.alive() ==> n.positions@ == o.positions@ && n.velocities@ == o.velocities@
                &&& o.alive() ==> n.positions@ == o.positions@.push(next@[a].0)
                &&& o.alive() ==> n.velocities@ == o.velocities@.push(next@[a].1)
                &&& o.alive() && !n.alive() ==> n.dead == State::Dead(s0.current_index)
            } by {
                assert(f.agents@[a] == s3.agents@[a]);
                assert(s2.agents@[a] == s1.agents@[a]);
                if !s2.living(a as usize) || s3.living(a as usize) {
                    assert(s3.agents@[a] == s2.agents@[a]);
                } else {
                    assert(s3.agents@[a].positions == s2.agents@[a].positions);
                }
            }
            assert forall|a: usize| #[trigger] s0.living(a) && !f.living(a) implies
                exists|t: int| 0 <= t < kills@.len() && (#[trigger] kills@[t]).1 == a by {
                assert(s2.living(a));
            }
            assert forall|t: int| 0 <= t < kills@.len() implies {
                let (p, v) = #[trigger] kills@[t];
                &&& close@.contains((p, v))
                &&& s0.living(p)
                &&& f.living(p)
                &&& s0.agents@[p as int].agent_type == Species::Predator
                &&& s0.living(v)
                &&& !f.living(v)
                &&& s0.agents@[v as int].agent_type == Species::Prey
            } by {
                let (p, v) = kills@[t];
                assert(s2.living(p) && s2.living(v));
                assert(s2.agents@[p as int] == s1.agents@[p as int]);
                assert(s2.agents@[v as int] == s1.agents@[v as int]);
            }
            assert forall|p: int, q: int, x: usize| f.grid.valid_cell(p, q) implies
                (#[trigger] f.grid.in_cell(p, q, x) <==> f.living(x) && at_home(homes@, p, q, x)) by {
                if f.grid.in_cell(p, q, x) {
                    assert(s2.grid.in_cell(p, q, x));
                    assert(f.grid.holds(x));
                }
                if f.living(x) && at_home(homes@, p, q, x) {
                    assert(s3.living(x));
                    assert(s3.grid.holds(x));
                    let (p0, q0) = choose|p0: int, q0: int| s3.grid.valid_cell(p0, q0) && #[trigger] s3.grid.in_cell(p0, q0, x);
                    assert(s2.grid.in_cell(p0, q0, x));
                }
            }
            assert forall|p: usize, pc: int, qc: int| f.grid.valid_cell(pc, qc) && #[trigger] f.grid.in_cell(pc, qc, p)
                && f.agents@[p as int].agent_type == Species::Predator
                implies caught_by(kills@, p) || f.spared(p, pc, qc, close@) by {
                assert(f.predator_window(pc, qc) == s3.predator_window(pc, qc));
                assert(s3.grid.in_cell(pc, qc, p));
                if !caught_by(kills@, p) {
                    assert(s3.spared(p, pc, qc, close@));
                }
            }
        }
        kills
    }
}

} // verus!
