use vstd::prelude::*;
use vstd::arithmetic::div_mod::{lemma_fundamental_div_mod, lemma_fundamental_div_mod_converse};

use crate::settings::SimError;

verus! {

/// The cell index that an unbounded index `k` lands on once indices wrap
/// around a row of `n` cells (Euclidean remainder, so negative `k` wraps
/// from the far side).
pub open spec fn wrap_index(k: int, n: int) -> int {
    k % n
}

/// `(p - q) mod n`, computed without signed arithmetic.
fn wrap_difference(p: u128, q: u128, n: usize) -> (r: usize)
    requires
        n > 0,
    ensures
        r as int == wrap_index(p - q, n as int),
        r < n,
{
    let m = n as u128;
    if p >= q {
        let r = (p - q) % m;
        r as usize
    } else {
        let j = q - p - 1;
        let rem = j % m;
        proof {
            lemma_fundamental_div_mod(j as int, m as int);
            let d = j as int / m as int;
            assert((p - q) as int == (-d - 1) * (m as int) + (m - 1 - rem) as int) by (nonlinear_arith)
                requires
                    j as int == (m as int) * d + rem as int,
                    j as int == q - p - 1,
            ;
            lemma_fundamental_div_mod_converse(p - q, m as int, -d - 1, (m - 1 - rem) as int);
        }
        (m - 1 - rem) as usize
    }
}

/// Wraps a signed cell coordinate onto a row of `n` cells.
pub fn wrap_cell(k: i64, n: usize) -> (r: usize)
    requires
        n > 0,
    ensures
        r as int == wrap_index(k as int, n as int),
        r < n,
{
    if k >= 0 {
        wrap_difference(k as u128, 0, n)
    } else {
        let mag: i128 = -(k as i128);
        wrap_difference(0, mag as u128, n)
    }
}

/// Wrapping a cell index a second time leaves it where it is.
pub proof fn lemma_wrap_idempotent(k: int, n: int)
    requires
        n > 0,
    ensures
        wrap_index(wrap_index(k, n), n) == wrap_index(k, n),
        0 <= wrap_index(k, n) < n,
{
    vstd::arithmetic::div_mod::lemma_mod_twice(k, n);
}

/// One square bucket of the grid: the indices of the agents that live in it.
pub struct Cell {
    pub agent_indices: Vec<usize>,
}

impl Cell {
    /// An empty bucket.
    pub fn new() -> (r: Cell)
        ensures
            r.agent_indices@ == Seq::<usize>::empty(),
    {
        Cell { agent_indices: Vec::new() }
    }

    /// Appends an agent index to the bucket.
    pub fn push_agent(&mut self, agent: usize)
        ensures
            final(self).agent_indices@ == old(self).agent_indices@.push(agent),
    {
        self.agent_indices.push(agent);
    }
}

/// Square-cell bucket index over the domain: `cells[i][j]` holds the agents
/// whose latest position falls in row `i` (from x) and column `j` (from y).
pub struct Grid {
    pub num_cells: usize,
    pub cells: Vec<Vec<Cell>>,
}

impl Grid {
    /// `(i, j)` is a cell of the grid.
    pub open spec fn valid_cell(&self, i: int, j: int) -> bool {
        0 <= i < self.num_cells && 0 <= j < self.num_cells
    }

    /// The agents of cell `(i, j)`, in bucket order.
    pub open spec fn bucket(&self, i: int, j: int) -> Seq<usize> {
        self.cells@[i]@[j].agent_indices@
    }

    /// Bucket `(i, j)` holds agent `a`.
    pub open spec fn in_cell(&self, i: int, j: int, a: usize) -> bool {
        self.bucket(i, j).contains(a)
    }

    /// Agent `a` is in some bucket.
    pub open spec fn holds(&self, a: usize) -> bool {
        exists|i: int, j: int| self.valid_cell(i, j) && #[trigger] self.in_cell(i, j, a)
    }

    /// The grid is square with `num_cells` cells a side, and every agent
    /// index is in at most one bucket, at most once.
    pub open spec fn wf(&self) -> bool {
        &&& self.num_cells > 0
        &&& self.cells@.len() == self.num_cells
        &&& forall|i: int| 0 <= i < self.num_cells ==> (#[trigger] self.cells@[i])@.len() == self.num_cells
        &&& forall|i: int, j: int| self.valid_cell(i, j) ==> (#[trigger] self.bucket(i, j)).no_duplicates()
        &&& forall|i1: int, j1: int, i2: int, j2: int, a: usize|
            self.valid_cell(i1, j1) && self.valid_cell(i2, j2) && #[trigger] self.in_cell(i1, j1, a)
                && #[trigger] self.in_cell(i2, j2, a) ==> i1 == i2 && j1 == j2
    }

    /// A grid of `num_cells` by `num_cells` empty buckets; a grid needs at
    /// least one cell.
    pub fn new(num_cells: usize) -> (r: Result<Grid, SimError>)
        ensures
            num_cells == 0 <==> r is Err,
            r is Err ==> r->Err_0 == SimError::InvalidConfiguration,
            r is Ok ==> {
                let g = r->Ok_0;
                &&& g.wf()
                &&& g.num_cells == num_cells
                &&& forall|i: int, j: int| g.valid_cell(i, j) ==> #[trigger] g.bucket(i, j) == Seq::<usize>::empty()
            },
    {
        if num_cells == 0 {
            return Err(SimError::InvalidConfiguration);
        }
        let mut cells: Vec<Vec<Cell>> = Vec::new();
        let mut i: usize = 0;
        while i < num_cells
            invariant
                i <= num_cells,
                cells@.len() == i,
                forall|a: int| 0 <= a < i ==> (#[trigger] cells@[a])@.len() == num_cells,
                forall|a: int, b: int| 0 <= a < i && 0 <= b < num_cells ==> (#[trigger] cells@[a]@[b]).agent_indices@
                    == Seq::<usize>::empty(),
            decreases num_cells - i,
        {
            let mut row: Vec<Cell> = Vec::new();
            let mut j: usize = 0;
            while j < num_cells
                invariant
                    j <= num_cells,
                    row@.len() == j,
                    forall|b: int| 0 <= b < j ==> (#[trigger] row@[b]).agent_indices@ == Seq::<usize>::empty(),
                decreases num_cells - j,
            {
                row.push(Cell::new());
                j = j + 1;
            }
            cells.push(row);
            i = i + 1;
        }
        let g = Grid { num_cells, cells };
        assert forall|i: int, j: int| g.valid_cell(i, j) implies #[trigger] g.bucket(i, j) == Seq::<usize>::empty() by {
            assert(g.cells@[i]@[j].agent_indices@ == Seq::<usize>::empty());
        }
        Ok(g)
    }

    /// The cell that holds floored coordinates `(fx, fy)`, i.e.
    /// `floor(x / side)` and `floor(y / side)`: each wraps onto the grid, so
    /// a position just below zero lands in the last row or column.
    pub fn cell_finder(&self, fx: i64, fy: i64) -> (r: (usize, usize))
        requires
            self.num_cells > 0,
        ensures
            r.0 as int == wrap_index(fx as int, self.num_cells as int),
            r.1 as int == wrap_index(fy as int, self.num_cells as int),
            self.valid_cell(r.0 as int, r.1 as int),
    {
        (wrap_cell(fx, self.num_cells), wrap_cell(fy, self.num_cells))
    }
}


/// Agent `a` has cell `(i, j)` as its home in `homes`, the cell of each
/// agent's latest position.
pub open spec fn at_home(homes: Seq<(usize, usize)>, i: int, j: int, a: usize) -> bool {
    a < homes.len() && homes[a as int].0 == i && homes[a as int].1 == j
}

/// The test that keeps an agent in bucket `(i, j)`.
pub open spec fn home_pred(homes: Seq<(usize, usize)>, i: int, j: int) -> spec_fn(usize) -> bool {
    |a: usize| at_home(homes, i, j, a)
}

/// The test that sends an agent out of bucket `(i, j)`.
pub open spec fn away_pred(homes: Seq<(usize, usize)>, i: int, j: int) -> spec_fn(usize) -> bool {
    |a: usize| !at_home(homes, i, j, a)
}

/// Membership and distinctness carry over to a filtered sequence.
proof fn lemma_filter_facts(s: Seq<usize>, p: spec_fn(usize) -> bool)
    ensures
        forall|x: usize| #[trigger] s.filter(p).contains(x) <==> s.contains(x) && p(x),
        s.no_duplicates() ==> s.filter(p).no_duplicates(),
    decreases s.len(),
{
    reveal(Seq::filter);
    if s.len() > 0 {
        let d = s.drop_last();
        lemma_filter_facts(d, p);
        assert(s =~= d.push(s.last()));
        let t = d.filter(p);
        assert forall|x: usize| #[trigger] s.contains(x) <==> d.contains(x) || x == s.last() by {
            if s.contains(x) {
                let k = choose|k: int| 0 <= k < s.len() && s[k] == x;
                if k < s.len() - 1 {
                    assert(d[k] == x);
                }
            }
            if d.contains(x) {
                let k = choose|k: int| 0 <= k < d.len() && d[k] == x;
                assert(s[k] == x);
            }
            if x == s.last() {
                assert(s[s.len() - 1] == x);
            }
        }
        if p(s.last()) {
            let u = t.push(s.last());
            assert forall|x: usize| #[trigger] u.contains(x) <==> t.contains(x) || x == s.last() by {
                if u.contains(x) {
                    let k = choose|k: int| 0 <= k < u.len() && u[k] == x;
                    if k < t.len() {
                        assert(t[k] == x);
                    }
                }
                if t.contains(x) {
                    let k = choose|k: int| 0 <= k < t.len() && t[k] == x;
                    assert(u[k] == x);
                }
                if x == s.last() {
                    assert(u[t.len() as int] == x);
                }
            }
            if s.no_duplicates() {
                assert(d.no_duplicates()) by {
                    assert forall|a: int, b: int| 0 <= a < d.len() && 0 <= b < d.len() && a != b implies d[a] != d[b] by {
                        assert(s[a] == d[a] && s[b] == d[b]);
                    }
                }
                assert(!d.contains(s.last())) by {
                    if d.contains(s.last()) {
                        let k = choose|k: int| 0 <= k < d.len() && d[k] == s.last();
                        assert(s[k] == s[s.len() - 1]);
                    }
                }
                assert(u.no_duplicates()) by {
                    assert forall|a: int, b: int| 0 <= a < u.len() && 0 <= b < u.len() && a != b implies u[a] != u[b] by {
                        if a < t.len() && b < t.len() {
                            assert(u[a] == t[a] && u[b] == t[b]);
                        } else if a < t.len() {
                            assert(t.contains(u[a]));
                        } else if b < t.len() {
                            assert(t.contains(u[b]));
                        }
                    }
                }
            }
        } else {
            if s.no_duplicates() {
                assert(d.no_duplicates()) by {
                    assert forall|a: int, b: int| 0 <= a < d.len() && 0 <= b < d.len() && a != b implies d[a] != d[b] by {
                        assert(s[a] == d[a] && s[b] == d[b]);
                    }
                }
            }
        }
    }
}

/// Contents of a sequence with one more element at its end.
proof fn lemma_push_contains(s: Seq<usize>, a: usize)
    ensures
        forall|x: usize| #[trigger] s.push(a).contains(x) <==> s.contains(x) || x == a,
{
    assert forall|x: usize| #[trigger] s.push(a).contains(x) <==> s.contains(x) || x == a by {
        let u = s.push(a);
        if u.contains(x) {
            let k = choose|k: int| 0 <= k < u.len() && u[k] == x;
            if k < s.len() {
                assert(s[k] == x);
            }
        }
        if s.contains(x) {
            let k = choose|k: int| 0 <= k < s.len() && s[k] == x;
            assert(u[k] == x);
        }
        if x == a {
            assert(u[s.len() as int] == x);
        }
    }
}

impl Grid {
    /// Buckets other than `(i, j)` are the same in both grids.
    pub open spec fn same_but(&self, other: &Grid, i: int, j: int) -> bool {
        &&& self.num_cells == other.num_cells
        &&& forall|p: int, q: int| self.valid_cell(p, q) && !(p == i && q == j)
            ==> #[trigger] self.bucket(p, q) == other.bucket(p, q)
    }

    /// Adds agent `a`, held by no bucket, to the end of bucket `(i, j)`.
    pub fn insert(&mut self, i: usize, j: usize, a: usize)
        requires
            old(self).wf(),
            old(self).valid_cell(i as int, j as int),
            !old(self).holds(a),
        ensures
            final(self).wf(),
            final(self).same_but(old(self), i as int, j as int),
            final(self).bucket(i as int, j as int) == old(self).bucket(i as int, j as int).push(a),
            forall|p: int, q: int, x: usize| final(self).valid_cell(p, q) ==>
                (#[trigger] final(self).in_cell(p, q, x) <==> old(self).in_cell(p, q, x) || (p == i && q == j && x == a)),
    {
        let ghost g0 = *self;
        self.cells[i][j].push_agent(a);
        proof {
            let g = *self;
            assert forall|p: int, q: int| g.valid_cell(p, q) && !(p == i && q == j)
                implies #[trigger] g.bucket(p, q) == g0.bucket(p, q) by {
                if p != i {
                    assert(g.cells@[p] == g0.cells@[p]);
                } else {
                    assert(g.cells@[p]@[q] == g0.cells@[p]@[q]);
                }
            }
            lemma_push_contains(g0.bucket(i as int, j as int), a);
            assert forall|p: int, q: int, x: usize| g.valid_cell(p, q) implies
                (#[trigger] g.in_cell(p, q, x) <==> g0.in_cell(p, q, x) || (p == i && q == j && x == a)) by {
                if p == i && q == j {
                } else {
                    assert(g.bucket(p, q) == g0.bucket(p, q));
                }
            }
            assert(!g0.in_cell(i as int, j as int, a));
            assert forall|p: int| 0 <= p < g.num_cells implies (#[trigger] g.cells@[p])@.len() == g.num_cells by {
                if p != i {
                    assert(g.cells@[p] == g0.cells@[p]);
                }
            }
            assert forall|p: int, q: int| g.valid_cell(p, q) implies (#[trigger] g.bucket(p, q)).no_duplicates() by {
                if p == i && q == j {
                    let s = g0.bucket(p, q);
                    let u = s.push(a);
                    assert forall|x: int, y: int| 0 <= x < u.len() && 0 <= y < u.len() && x != y implies u[x] != u[y] by {
                        if x < s.len() && y < s.len() {
                            assert(u[x] == s[x] && u[y] == s[y]);
                        } else if x < s.len() {
                            assert(s.contains(u[x]));
                        } else if y < s.len() {
                            assert(s.contains(u[y]));
                        }
                    }
                } else {
                    assert(g.bucket(p, q) == g0.bucket(p, q));
                }
            }
            assert forall|i1: int, j1: int, i2: int, j2: int, x: usize|
                g.valid_cell(i1, j1) && g.valid_cell(i2, j2) && #[trigger] g.in_cell(i1, j1, x)
                    && #[trigger] g.in_cell(i2, j2, x) implies i1 == i2 && j1 == j2 by {
                if x == a {
                    if !(i1 == i && j1 == j) {
                        assert(g0.in_cell(i1, j1, x));
                    }
                    if !(i2 == i && j2 == j) {
                        assert(g0.in_cell(i2, j2, x));
                    }
                } else {
                    assert(g0.in_cell(i1, j1, x));
                    assert(g0.in_cell(i2, j2, x));
                }
            }
        }
    }

    /// Places agent `a`, held by no bucket, in the cell of floored
    /// coordinates `(fx, fy)`.
    pub fn push_agent(&mut self, fx: i64, fy: i64, a: usize)
        requires
            old(self).wf(),
            !old(self).holds(a),
        ensures
            final(self).wf(),
            ({
                let i = wrap_index(fx as int, old(self).num_cells as int);
                let j = wrap_index(fy as int, old(self).num_cells as int);
                &&& final(self).same_but(old(self), i, j)
                &&& final(self).bucket(i, j) == old(self).bucket(i, j).push(a)
            }),
    {
        let (i, j) = self.cell_finder(fx, fy);
        self.insert(i, j, a);
    }
}


/// Filtering a sequence with one more element.
proof fn lemma_filter_push(s: Seq<usize>, x: usize, p: spec_fn(usize) -> bool)
    ensures
        s.push(x).filter(p) == if p(x) { s.filter(p).push(x) } else { s.filter(p) },
{
    reveal(Seq::filter);
    assert(s.push(x).drop_last() =~= s);
}

/// A filter whose test is implied by a second test adds nothing before it.
proof fn lemma_filter_filter(s: Seq<usize>, a: spec_fn(usize) -> bool, b: spec_fn(usize) -> bool)
    requires
        forall|x: usize| #[trigger] b(x) ==> a(x),
    ensures
        s.filter(a).filter(b) == s.filter(b),
    decreases s.len(),
{
    if s.len() > 0 {
        let d = s.drop_last();
        let x = s.last();
        assert(s =~= d.push(x));
        lemma_filter_filter(d, a, b);
        lemma_filter_push(d, x, a);
        lemma_filter_push(d, x, b);
        if a(x) {
            lemma_filter_push(d.filter(a), x, b);
        }
    } else {
        reveal(Seq::filter);
    }
}

/// Filtering keeps everything when every element passes.
proof fn lemma_filter_all(s: Seq<usize>, p: spec_fn(usize) -> bool)
    requires
        forall|i: int| 0 <= i < s.len() ==> p(#[trigger] s[i]),
    ensures
        s.filter(p) == s,
    decreases s.len(),
{
    if s.len() > 0 {
        let d = s.drop_last();
        assert(s =~= d.push(s.last()));
        assert forall|i: int| 0 <= i < d.len() implies p(#[trigger] d[i]) by {
            assert(d[i] == s[i]);
        }
        lemma_filter_all(d, p);
        lemma_filter_push(d, s.last(), p);
        assert(p(s[s.len() - 1]));
    } else {
        reveal(Seq::filter);
    }
}

/// Filtering keeps nothing when no element passes.
proof fn lemma_filter_none(s: Seq<usize>, p: spec_fn(usize) -> bool)
    requires
        forall|i: int| 0 <= i < s.len() ==> !p(#[trigger] s[i]),
    ensures
        s.filter(p) == Seq::<usize>::empty(),
    decreases s.len(),
{
    if s.len() > 0 {
        let d = s.drop_last();
        assert(s =~= d.push(s.last()));
        assert forall|i: int| 0 <= i < d.len() implies !p(#[trigger] d[i]) by {
            assert(d[i] == s[i]);
        }
        lemma_filter_none(d, p);
        lemma_filter_push(d, s.last(), p);
        assert(!p(s[s.len() - 1]));
    } else {
        reveal(Seq::filter);
    }
}

impl Grid {
    /// The agents whose home is `(p, q)` found in the buckets of row `i`,
    /// columns below `cols`, leaving out bucket `(p, q)` itself, in scan
    /// order.
    pub open spec fn arrivals_row(&self, homes: Seq<(usize, usize)>, p: int, q: int, i: int, cols: nat) -> Seq<usize>
        decreases cols,
    {
        if cols == 0 {
            Seq::empty()
        } else {
            let j = cols - 1;
            self.arrivals_row(homes, p, q, i, (cols - 1) as nat) + if i == p && j == q {
                Seq::empty()
            } else {
                self.bucket(i, j).filter(home_pred(homes, p, q))
            }
        }
    }

    /// The same over whole rows below `rows`.
    pub open spec fn arrivals_rows(&self, homes: Seq<(usize, usize)>, p: int, q: int, rows: nat) -> Seq<usize>
        decreases rows,
    {
        if rows == 0 {
            Seq::empty()
        } else {
            self.arrivals_rows(homes, p, q, (rows - 1) as nat) + self.arrivals_row(
                homes,
                p,
                q,
                rows - 1,
                self.num_cells as nat,
            )
        }
    }

    /// The same over every cell scanned before `(ci, cj)`.
    pub open spec fn arrivals_before(&self, homes: Seq<(usize, usize)>, p: int, q: int, ci: nat, cj: nat) -> Seq<usize> {
        self.arrivals_rows(homes, p, q, ci) + self.arrivals_row(homes, p, q, ci as int, cj)
    }
}

/// Every agent that arrives at `(p, q)` has it as its home.
proof fn lemma_arrivals_home(g: &Grid, homes: Seq<(usize, usize)>, p: int, q: int, ci: nat, cj: nat)
    ensures
        forall|k: int| 0 <= k < g.arrivals_before(homes, p, q, ci, cj).len()
            ==> at_home(homes, p, q, #[trigger] g.arrivals_before(homes, p, q, ci, cj)[k]),
{
    lemma_arrivals_rows_home(g, homes, p, q, ci);
    lemma_arrivals_row_home(g, homes, p, q, ci as int, cj);
    let a = g.arrivals_rows(homes, p, q, ci);
    let b = g.arrivals_row(homes, p, q, ci as int, cj);
    assert forall|k: int| 0 <= k < (a + b).len() implies at_home(homes, p, q, #[trigger] (a + b)[k]) by {
        if k < a.len() {
            assert((a + b)[k] == a[k]);
        } else {
            assert((a + b)[k] == b[k - a.len()]);
        }
    }
}

proof fn lemma_arrivals_row_home(g: &Grid, homes: Seq<(usize, usize)>, p: int, q: int, i: int, cols: nat)
    ensures
        forall|k: int| 0 <= k < g.arrivals_row(homes, p, q, i, cols).len()
            ==> at_home(homes, p, q, #[trigger] g.arrivals_row(homes, p, q, i, cols)[k]),
    decreases cols,
{
    broadcast use vstd::seq_lib::group_filter_ensures;

    if cols > 0 {
        let j = cols - 1;
        lemma_arrivals_row_home(g, homes, p, q, i, (cols - 1) as nat);
        let a = g.arrivals_row(homes, p, q, i, (cols - 1) as nat);
        let b: Seq<usize> = if i == p && j == q {
            Seq::empty()
        } else {
            g.bucket(i, j).filter(home_pred(homes, p, q))
        };
        assert(g.arrivals_row(homes, p, q, i, cols) == a + b);
        assert forall|k: int| 0 <= k < (a + b).len() implies at_home(homes, p, q, #[trigger] (a + b)[k]) by {
            if k < a.len() {
                assert((a + b)[k] == a[k]);
            } else {
                assert((a + b)[k] == b[k - a.len()]);
                if !(i == p && j == q) {
                    assert(home_pred(homes, p, q)(b[k - a.len()]));
                }
            }
        }
    }
}

proof fn lemma_arrivals_rows_home(g: &Grid, homes: Seq<(usize, usize)>, p: int, q: int, rows: nat)
    ensures
        forall|k: int| 0 <= k < g.arrivals_rows(homes, p, q, rows).len()
            ==> at_home(homes, p, q, #[trigger] g.arrivals_rows(homes, p, q, rows)[k]),
    decreases rows,
{
    if rows > 0 {
        lemma_arrivals_rows_home(g, homes, p, q, (rows - 1) as nat);
        lemma_arrivals_row_home(g, homes, p, q, rows - 1, g.num_cells as nat);
        let a = g.arrivals_rows(homes, p, q, (rows - 1) as nat);
        let b = g.arrivals_row(homes, p, q, rows - 1, g.num_cells as nat);
        assert forall|k: int| 0 <= k < (a + b).len() implies at_home(homes, p, q, #[trigger] (a + b)[k]) by {
            if k < a.len() {
                assert((a + b)[k] == a[k]);
            } else {
                assert((a + b)[k] == b[k - a.len()]);
            }
        }
    }
}

/// What must still lead bucket `(p, q)` while a rebucketing pass is at
/// `(ci, cj)`: the agents it started with, thinned to those at home once the
/// cell has been scanned.
pub(crate) open spec fn kept_prefix(g0: &Grid, homes: Seq<(usize, usize)>, p: int, q: int, ci: int, cj: int) -> Seq<usize> {
    if scanned(p, q, ci, cj) {
        g0.bucket(p, q).filter(home_pred(homes, p, q))
    } else {
        g0.bucket(p, q)
    }
}

/// Cell `(p, q)` comes before `(ci, cj)` in row-major scan order.
pub(crate) open spec fn scanned(p: int, q: int, ci: int, cj: int) -> bool {
    p < ci || (p == ci && q < cj)
}

impl Grid {
    /// Every agent this grid holds was held by `g0`.
    pub(crate) open spec fn drawn_from(&self, g0: &Grid) -> bool {
        forall|p: int, q: int, x: usize| self.valid_cell(p, q) && #[trigger] self.in_cell(p, q, x) ==> g0.holds(x)
    }

    /// Each bucket holds what `g0` had there, or agents whose home it is.
    pub(crate) open spec fn gains_only_home(&self, g0: &Grid, homes: Seq<(usize, usize)>) -> bool {
        forall|p: int, q: int, x: usize| self.valid_cell(p, q) && #[trigger] self.in_cell(p, q, x)
            ==> at_home(homes, p, q, x) || g0.in_cell(p, q, x)
    }

    /// Every bucket scanned before `(ci, cj)` holds only agents at home.
    pub(crate) open spec fn settled_before(&self, homes: Seq<(usize, usize)>, ci: int, cj: int) -> bool {
        forall|p: int, q: int, x: usize| self.valid_cell(p, q) && #[trigger] self.in_cell(p, q, x)
            && scanned(p, q, ci, cj) ==> at_home(homes, p, q, x)
    }

    /// Every agent of `g0` is still in its old bucket, in its home bucket, or
    /// waiting in `pending`.
    pub(crate) open spec fn placed(&self, g0: &Grid, homes: Seq<(usize, usize)>, pending: Seq<usize>) -> bool {
        forall|p: int, q: int, x: usize| g0.valid_cell(p, q) && #[trigger] g0.in_cell(p, q, x)
            ==> self.in_cell(p, q, x) || (x < homes.len() && self.in_cell(homes[x as int].0 as int, homes[x as int].1 as int, x))
                || pending.contains(x)
    }

    /// Splits bucket `(i, j)`: the agents whose home it is stay, in order,
    /// and the others are taken out and returned, in order.
    pub fn retain_home(&mut self, i: usize, j: usize, homes: &Vec<(usize, usize)>) -> (movers: Vec<usize>)
        requires
            old(self).wf(),
            old(self).valid_cell(i as int, j as int),
        ensures
            final(self).wf(),
            final(self).same_but(old(self), i as int, j as int),
            final(self).bucket(i as int, j as int) == old(self).bucket(i as int, j as int).filter(
                home_pred(homes@, i as int, j as int),
            ),
            movers@ == old(self).bucket(i as int, j as int).filter(away_pred(homes@, i as int, j as int)),
            movers@.no_duplicates(),
            forall|x: usize| #[trigger] movers@.contains(x) <==> old(self).in_cell(i as int, j as int, x)
                && !at_home(homes@, i as int, j as int, x),
            forall|p: int, q: int, x: usize| final(self).valid_cell(p, q) ==>
                (#[trigger] final(self).in_cell(p, q, x) <==> old(self).in_cell(p, q, x)
                    && !(p == i && q == j && !at_home(homes@, i as int, j as int, x))),
    {
        let ghost g0 = *self;
        let ghost b = g0.bucket(i as int, j as int);
        let ghost hp = home_pred(homes@, i as int, j as int);
        let ghost ap = away_pred(homes@, i as int, j as int);
        let mut stay: Vec<usize> = Vec::new();
        let mut movers: Vec<usize> = Vec::new();
        let len = self.cells[i][j].agent_indices.len();
        let mut k: usize = 0;
        while k < len
            invariant
                *self == g0,
                b == g0.bucket(i as int, j as int),
                g0.valid_cell(i as int, j as int),
                g0.wf(),
                len == b.len(),
                k <= len,
                hp == home_pred(homes@, i as int, j as int),
                ap == away_pred(homes@, i as int, j as int),
                stay@ == b.subrange(0, k as int).filter(hp),
                movers@ == b.subrange(0, k as int).filter(ap),
            decreases len - k,
        {
            let a = self.cells[i][j].agent_indices[k];
            proof {
                reveal(Seq::filter);
                assert(b.subrange(0, k + 1).drop_last() =~= b.subrange(0, k as int));
                assert(b.subrange(0, k + 1).last() == a);
            }
            if a < homes.len() && homes[a].0 == i && homes[a].1 == j {
                stay.push(a);
            } else {
                movers.push(a);
            }
            k = k + 1;
        }
        proof {
            assert(b.subrange(0, len as int) =~= b);
            lemma_filter_facts(b, hp);
            lemma_filter_facts(b, ap);
        }
        self.cells[i][j].agent_indices = stay;
        proof {
            let g = *self;
            assert forall|p: int, q: int| g.valid_cell(p, q) && !(p == i && q == j)
                implies #[trigger] g.bucket(p, q) == g0.bucket(p, q) by {
                if p != i {
                    assert(g.cells@[p] == g0.cells@[p]);
                } else {
                    assert(g.cells@[p]@[q] == g0.cells@[p]@[q]);
                }
            }
            assert forall|p: int| 0 <= p < g.num_cells implies (#[trigger] g.cells@[p])@.len() == g.num_cells by {
                if p != i {
                    assert(g.cells@[p] == g0.cells@[p]);
                }
            }
            assert forall|x: usize| #[trigger] movers@.contains(x) <==> g0.in_cell(i as int, j as int, x)
                && !at_home(homes@, i as int, j as int, x) by {
                assert(b.filter(ap).contains(x) <==> b.contains(x) && ap(x));
            }
            assert forall|p: int, q: int, x: usize| g.valid_cell(p, q) implies
                (#[trigger] g.in_cell(p, q, x) <==> g0.in_cell(p, q, x)
                    && !(p == i && q == j && !at_home(homes@, i as int, j as int, x))) by {
                if p == i && q == j {
                    assert(b.filter(hp).contains(x) <==> b.contains(x) && hp(x));
                } else {
                    assert(g.bucket(p, q) == g0.bucket(p, q));
                }
            }
            assert forall|p: int, q: int| g.valid_cell(p, q) implies (#[trigger] g.bucket(p, q)).no_duplicates() by {
                if !(p == i && q == j) {
                    assert(g.bucket(p, q) == g0.bucket(p, q));
                }
            }
            assert forall|i1: int, j1: int, i2: int, j2: int, x: usize|
                g.valid_cell(i1, j1) && g.valid_cell(i2, j2) && #[trigger] g.in_cell(i1, j1, x)
                    && #[trigger] g.in_cell(i2, j2, x) implies i1 == i2 && j1 == j2 by {
                assert(g0.in_cell(i1, j1, x));
                assert(g0.in_cell(i2, j2, x));
            }
        }
        movers
    }
}


impl Grid {
    /// Every home in `homes` is a cell of this grid.
    pub open spec fn homes_valid(&self, homes: Seq<(usize, usize)>) -> bool {
        forall|a: int| 0 <= a < homes.len() ==> self.valid_cell((#[trigger] homes[a]).0 as int, homes[a].1 as int)
    }

    /// Every agent in a bucket has an entry in `homes`.
    pub open spec fn homes_cover(&self, homes: Seq<(usize, usize)>) -> bool {
        forall|p: int, q: int, x: usize| self.valid_cell(p, q) && #[trigger] self.in_cell(p, q, x) ==> x < homes.len()
    }

    /// The state of a rebucketing pass over `g0` that has reached cell
    /// `(ci, cj)`.
    pub(crate) open spec fn pass_state(&self, g0: &Grid, homes: Seq<(usize, usize)>, ci: int, cj: int) -> bool {
        &&& g0.wf()
        &&& g0.homes_valid(homes)
        &&& g0.homes_cover(homes)
        &&& self.wf()
        &&& self.num_cells == g0.num_cells
        &&& self.drawn_from(g0)
        &&& self.gains_only_home(g0, homes)
        &&& self.settled_before(homes, ci, cj)
        &&& self.placed(g0, homes, Seq::<usize>::empty())
        &&& forall|p: int, q: int| self.valid_cell(p, q) ==> #[trigger] self.bucket(p, q)
            == kept_prefix(g0, homes, p, q, ci, cj) + g0.arrivals_before(homes, p, q, ci as nat, cj as nat)
    }

    /// The state of a rebucketing pass at cell `(ci, cj)` once the
    /// agents that leave it, `movers`, are out and the first `k` of them
    /// are placed; `pre` is the grid before the cell was split.
    pub(crate) open spec fn placing(
        &self,
        g0: &Grid,
        homes: Seq<(usize, usize)>,
        pre: &Grid,
        movers: Seq<usize>,
        ci: int,
        cj: int,
        k: int,
    ) -> bool {
        &&& g0.wf()
        &&& g0.homes_valid(homes)
        &&& g0.homes_cover(homes)
        &&& self.wf()
        &&& self.num_cells == g0.num_cells
        &&& 0 <= ci < g0.num_cells
        &&& 0 <= cj < g0.num_cells
        &&& 0 <= k <= movers.len()
        &&& movers.no_duplicates()
        &&& forall|x: usize| #[trigger] movers.contains(x) ==> g0.holds(x) && x < homes.len() && !at_home(homes, ci, cj, x)
        &&& forall|t: int, p: int, q: int| k <= t < movers.len() && self.valid_cell(p, q) ==> !#[trigger] self.in_cell(p, q, movers[t])
        &&& self.drawn_from(g0)
        &&& self.gains_only_home(g0, homes)
        &&& self.settled_before(homes, ci, cj + 1)
        &&& self.placed(g0, homes, movers.subrange(k, movers.len() as int))
        &&& movers == pre.bucket(ci, cj).filter(away_pred(homes, ci, cj))
        &&& pre.bucket(ci, cj) == g0.bucket(ci, cj) + g0.arrivals_before(homes, ci, cj, ci as nat, cj as nat)
        &&& forall|p: int, q: int| self.valid_cell(p, q) ==> #[trigger] self.bucket(p, q) == kept_prefix(g0, homes, p, q, ci, cj + 1) + g0.arrivals_before(homes, p, q, ci as nat, cj as nat) + movers.subrange(0, k).filter(home_pred(homes, p, q))
    }

    /// One step of the rebucketing pass: cell `(ci, cj)` keeps its agents
    /// at home and sends the others, in order, to the end of their home
    /// buckets.
    fn rehome_cell(&mut self, ci: usize, cj: usize, homes: &Vec<(usize, usize)>, Ghost(g0): Ghost<Grid>)
        requires
            old(self).pass_state(&g0, homes@, ci as int, cj as int),
            ci < g0.num_cells,
            cj < g0.num_cells,
        ensures
            final(self).pass_state(&g0, homes@, ci as int, cj + 1),
    {
        let n = self.num_cells;
        let ghost pre = *self;
        let movers = self.retain_home(ci, cj, homes);
        proof {
            assert(split_facts(&*self, &g0, homes@, &pre, movers@, ci as int, cj as int));
            lemma_cell_split(&*self, &g0, homes@, &pre, movers@, ci as int, cj as int);
        }
        self.place_movers(&movers, homes, Ghost(g0), Ghost(pre), ci, cj);
        proof {
            lemma_cell_done(&*self, &g0, homes@, &pre, movers@, ci as int, cj as int);
        }
    }

    /// Places the agents that left cell `(ci, cj)`, in order, at the end of
    /// their home buckets.
    fn place_movers(
        &mut self,
        movers: &Vec<usize>,
        homes: &Vec<(usize, usize)>,
        Ghost(g0): Ghost<Grid>,
        Ghost(pre): Ghost<Grid>,
        ci: usize,
        cj: usize,
    )
        requires
            old(self).placing(&g0, homes@, &pre, movers@, ci as int, cj as int, 0),
        ensures
            final(self).placing(&g0, homes@, &pre, movers@, ci as int, cj as int, movers@.len() as int),
    {
        let mut k: usize = 0;
        while k < movers.len()
            invariant
                self.placing(&g0, homes@, &pre, movers@, ci as int, cj as int, k as int),
            decreases movers@.len() - k,
        {
            let a = movers[k];
            proof {
                assert(movers@.contains(a));
            }
            let (hi, hj) = homes[a];
            proof {
                assert(movers@.contains(a));
                assert(g0.homes_valid(homes@));
                assert(homes@[a as int] == (hi, hj));
                assert(self.valid_cell(hi as int, hj as int));
                assert forall|p: int, q: int| self.valid_cell(p, q) implies !#[trigger] self.in_cell(p, q, a) by {
                    assert(self.valid_cell(p, q) ==> !self.in_cell(p, q, movers@[k as int]));
                }
            }
            let ghost before = *self;
            self.insert(hi, hj, a);
            proof {
                let g = *self;
                let rest = movers@.subrange(k as int, movers@.len() as int);
                let rest2 = movers@.subrange(k + 1, movers@.len() as int);
                assert forall|x: usize| #[trigger] rest.contains(x) implies rest2.contains(x) || x == a by {
                    let t = choose|t: int| 0 <= t < rest.len() && rest[t] == x;
                    if t > 0 {
                        assert(rest2[t - 1] == x);
                    }
                }
                assert forall|t: int, p: int, q: int| k + 1 <= t < movers@.len() && g.valid_cell(p, q)
                    implies !#[trigger] g.in_cell(p, q, movers@[t]) by {
                    assert(movers@[t] != movers@[k as int]);
                    assert(!before.in_cell(p, q, movers@[t]));
                }
                assert forall|p: int, q: int, x: usize| g0.valid_cell(p, q) && #[trigger] g0.in_cell(p, q, x)
                    implies g.in_cell(p, q, x) || (x < homes@.len() && g.in_cell(homes@[x as int].0 as int, homes@[x as int].1 as int, x))
                        || rest2.contains(x) by {
                    if before.in_cell(p, q, x) {
                        assert(g.in_cell(p, q, x));
                    } else if x < homes@.len() && before.in_cell(homes@[x as int].0 as int, homes@[x as int].1 as int, x) {
                        assert(g0.homes_valid(homes@));
                        assert(g.in_cell(homes@[x as int].0 as int, homes@[x as int].1 as int, x));
                    } else {
                        assert(rest.contains(x));
                        if x == a {
                            assert(g.in_cell(hi as int, hj as int, a));
                        }
                    }
                }
                assert forall|p: int, q: int, x: usize| g.valid_cell(p, q) && #[trigger] g.in_cell(p, q, x)
                    implies g0.holds(x) by {
                    if !before.in_cell(p, q, x) {
                        assert(movers@.contains(a));
                    }
                }
                assert forall|p: int, q: int, x: usize| g.valid_cell(p, q) && #[trigger] g.in_cell(p, q, x)
                    implies at_home(homes@, p, q, x) || g0.in_cell(p, q, x) by {
                    if !before.in_cell(p, q, x) {
                        assert(x == a && p == hi && q == hj);
                    }
                }
                assert forall|p: int, q: int, x: usize| g.valid_cell(p, q) && #[trigger] g.in_cell(p, q, x)
                    && scanned(p, q, ci as int, cj + 1) implies at_home(homes@, p, q, x) by {
                    if !before.in_cell(p, q, x) {
                        assert(x == a && p == hi && q == hj);
                    }
                }
                assert(movers@.subrange(0, k + 1) =~= movers@.subrange(0, k as int).push(a));
                assert forall|p: int, q: int| g.valid_cell(p, q) implies #[trigger] g.bucket(p, q)
                    == kept_prefix(&g0, homes@, p, q, ci as int, cj + 1) + g0.arrivals_before(homes@, p, q, ci as nat, cj as nat)
                        + movers@.subrange(0, k + 1).filter(home_pred(homes@, p, q)) by {
                    lemma_filter_push(movers@.subrange(0, k as int), a, home_pred(homes@, p, q));
                    let base = kept_prefix(&g0, homes@, p, q, ci as int, cj + 1) + g0.arrivals_before(homes@, p, q, ci as nat, cj as nat);
                    let f0 = movers@.subrange(0, k as int).filter(home_pred(homes@, p, q));
                    assert(before.bucket(p, q) == base + f0);
                    if p == hi && q == hj {
                        assert(g.bucket(p, q) =~= base + f0.push(a));
                    } else {
                        assert(g.bucket(p, q) == before.bucket(p, q));
                    }
                }
            }
            k = k + 1;
        }
    }

    /// This grid is `g0` rebucketed by `homes`: each bucket holds first the
    /// agents it kept, in their old order, then those that arrived, in the
    /// order their old buckets were scanned and, within one, in bucket
    /// order.
    pub open spec fn rebucketed(&self, g0: &Grid, homes: Seq<(usize, usize)>) -> bool {
        &&& self.num_cells == g0.num_cells
        &&& forall|p: int, q: int| self.valid_cell(p, q) ==> #[trigger] self.bucket(p, q)
            == g0.bucket(p, q).filter(home_pred(homes, p, q)) + g0.arrivals_rows(homes, p, q, g0.num_cells as nat)
    }

    /// Moves every agent whose bucket is not its home into its home bucket.
    /// Cells are scanned in row-major order; in each, the agents that
    /// leave are collected first, then taken out together, then placed at
    /// the end of their home buckets. Afterwards each agent the grid held
    /// is in exactly one bucket: its home. Each bucket holds first the
    /// agents it kept, in their old order, then those that arrived, in the
    /// order their old buckets were scanned and, within one, in bucket
    /// order.
    pub fn reindex(&mut self, homes: &Vec<(usize, usize)>)
        requires
            old(self).wf(),
            old(self).homes_valid(homes@),
            old(self).homes_cover(homes@),
        ensures
            final(self).wf(),
            final(self).num_cells == old(self).num_cells,
            forall|p: int, q: int, x: usize| final(self).valid_cell(p, q) ==>
                (#[trigger] final(self).in_cell(p, q, x) <==> old(self).holds(x) && at_home(homes@, p, q, x)),
            final(self).rebucketed(old(self), homes@),
    {
        let ghost g0 = *self;
        proof {
            assert forall|p: int, q: int| self.valid_cell(p, q) implies #[trigger] self.bucket(p, q)
                == kept_prefix(&g0, homes@, p, q, 0, 0) + g0.arrivals_before(homes@, p, q, 0, 0) by {
                assert(self.bucket(p, q) =~= self.bucket(p, q) + Seq::<usize>::empty());
            }
        }
        let n = self.num_cells;
        let mut ci: usize = 0;
        while ci < n
            invariant
                g0.wf(),
                g0.homes_valid(homes@),
                g0.homes_cover(homes@),
                n == g0.num_cells,
                self.wf(),
                self.num_cells == n,
                ci <= n,
                self.drawn_from(&g0),
                self.gains_only_home(&g0, homes@),
                self.settled_before(homes@, ci as int, 0),
                self.placed(&g0, homes@, Seq::<usize>::empty()),
                forall|p: int, q: int| self.valid_cell(p, q) ==> #[trigger] self.bucket(p, q)
                    == kept_prefix(&g0, homes@, p, q, ci as int, 0) + g0.arrivals_before(homes@, p, q, ci as nat, 0),
            decreases n - ci,
        {
            let mut cj: usize = 0;
            while cj < n
                invariant
                    g0.wf(),
                    g0.homes_valid(homes@),
                    g0.homes_cover(homes@),
                    n == g0.num_cells,
                    self.wf(),
                    self.num_cells == n,
                    ci < n,
                    cj <= n,
                    self.drawn_from(&g0),
                    self.gains_only_home(&g0, homes@),
                    self.settled_before(homes@, ci as int, cj as int),
                    self.placed(&g0, homes@, Seq::<usize>::empty()),
                    forall|p: int, q: int| self.valid_cell(p, q) ==> #[trigger] self.bucket(p, q)
                        == kept_prefix(&g0, homes@, p, q, ci as int, cj as int) + g0.arrivals_before(homes@, p, q, ci as nat, cj as nat),
                decreases n - cj,
            {
                self.rehome_cell(ci, cj, homes, Ghost(g0));
                cj = cj + 1;
            }
            proof {
                let g = *self;
                assert forall|p: int, q: int, x: usize| g.valid_cell(p, q) && #[trigger] g.in_cell(p, q, x)
                    && scanned(p, q, ci + 1, 0) implies at_home(homes@, p, q, x) by {
                    assert(scanned(p, q, ci as int, n as int));
                }
                assert forall|p: int, q: int| g.valid_cell(p, q) implies #[trigger] g.bucket(p, q)
                    == kept_prefix(&g0, homes@, p, q, ci + 1, 0) + g0.arrivals_before(homes@, p, q, (ci + 1) as nat, 0) by {
                    assert(scanned(p, q, ci as int, n as int) == scanned(p, q, ci + 1, 0));
                    assert(g0.arrivals_before(homes@, p, q, (ci + 1) as nat, 0) =~= g0.arrivals_before(homes@, p, q, ci as nat, n as nat));
                }
            }
            ci = ci + 1;
        }
        proof {
            let g = *self;
            assert forall|p: int, q: int, x: usize| g.valid_cell(p, q) implies
                (#[trigger] g.in_cell(p, q, x) <==> g0.holds(x) && at_home(homes@, p, q, x)) by {
                if g.in_cell(p, q, x) {
                    assert(scanned(p, q, n as int, 0));
                }
                if g0.holds(x) && at_home(homes@, p, q, x) {
                    let (p0, q0) = choose|p0: int, q0: int| g0.valid_cell(p0, q0) && #[trigger] g0.in_cell(p0, q0, x);
                    assert(!Seq::<usize>::empty().contains(x));
                    if g.in_cell(p0, q0, x) {
                        assert(scanned(p0, q0, n as int, 0));
                        assert(at_home(homes@, p0, q0, x));
                    }
                }
            }
            assert forall|p: int, q: int| g.valid_cell(p, q) implies #[trigger] g.bucket(p, q)
                == g0.bucket(p, q).filter(home_pred(homes@, p, q)) + g0.arrivals_rows(homes@, p, q, n as nat) by {
                assert(scanned(p, q, n as int, 0));
                assert(g0.arrivals_before(homes@, p, q, n as nat, 0) =~= g0.arrivals_rows(homes@, p, q, n as nat));
            }
        }
    }
}


impl Grid {
    /// The buckets of row `i` at columns `cj - offset + d` for `d < cols`
    /// (wrapping), joined in scan order.
    pub open spec fn row_scan(&self, i: int, cj: int, offset: int, cols: nat) -> Seq<usize>
        decreases cols,
    {
        if cols == 0 {
            Seq::empty()
        } else {
            self.row_scan(i, cj, offset, (cols - 1) as nat) + self.bucket(
                i,
                wrap_index(cj + cols - 1 - offset, self.num_cells as int),
            )
        }
    }

    /// The first `rows` rows of the `width`-wide block of cells whose
    /// corner is `(ci - offset, cj - offset)` (wrapping), joined in
    /// row-major scan order.
    pub open spec fn window_scan(&self, ci: int, cj: int, offset: int, rows: nat, width: nat) -> Seq<usize>
        decreases rows,
    {
        if rows == 0 {
            Seq::empty()
        } else {
            self.window_scan(ci, cj, offset, (rows - 1) as nat, width) + self.row_scan(
                wrap_index(ci + rows - 1 - offset, self.num_cells as int),
                cj,
                offset,
                width,
            )
        }
    }

    /// Agent `a` lies in a cell of the block: some row step `di` and column
    /// step `dj` below `width` reach a bucket that holds it.
    pub open spec fn in_block(&self, ci: int, cj: int, offset: int, width: nat, a: usize) -> bool {
        exists|di: int, dj: int| 0 <= di < width && 0 <= dj < width && #[trigger] self.in_cell(
            wrap_index(ci + di - offset, self.num_cells as int),
            wrap_index(cj + dj - offset, self.num_cells as int),
            a,
        )
    }

    /// All agent indices of the `width` by `width` block of cells whose
    /// corner is `offset` cells before `(ci, cj)` in each direction, with
    /// indices wrapping around the grid: rows first, then columns, each
    /// bucket in its own order. Prey scan offset 1 and width 3, the 3x3
    /// block centred on their cell; predators scan offset `ratio` and width
    /// `ratio + 2`.
    pub fn neighbors_window(&self, ci: usize, cj: usize, offset: usize, width: usize) -> (r: Vec<usize>)
        requires
            self.wf(),
        ensures
            r@ == self.window_scan(ci as int, cj as int, offset as int, width as nat, width as nat),
    {
        let n = self.num_cells;
        let mut out: Vec<usize> = Vec::new();
        let mut di: usize = 0;
        while di < width
            invariant
                self.wf(),
                n == self.num_cells,
                di <= width,
                out@ == self.window_scan(ci as int, cj as int, offset as int, di as nat, width as nat),
            decreases width - di,
        {
            let row = wrap_difference(ci as u128 + di as u128, offset as u128, n);
            let ghost start = out@;
            let mut dj: usize = 0;
            while dj < width
                invariant
                    self.wf(),
                    n == self.num_cells,
                    di < width,
                    dj <= width,
                    row < n,
                    row as int == wrap_index(ci + di - offset, n as int),
                    start == self.window_scan(ci as int, cj as int, offset as int, di as nat, width as nat),
                    out@ == start + self.row_scan(row as int, cj as int, offset as int, dj as nat),
                decreases width - dj,
            {
                let col = wrap_difference(cj as u128 + dj as u128, offset as u128, n);
                let ghost mid = out@;
                let b = &self.cells[row][col].agent_indices;
                let mut k: usize = 0;
                while k < b.len()
                    invariant
                        k <= b@.len(),
                        out@ == mid + b@.subrange(0, k as int),
                    decreases b@.len() - k,
                {
                    out.push(b[k]);
                    proof {
                        assert(b@.subrange(0, k + 1) =~= b@.subrange(0, k as int).push(b@[k as int]));
                    }
                    k = k + 1;
                }
                proof {
                    assert(b@.subrange(0, b@.len() as int) =~= b@);
                    assert(b@ == self.bucket(row as int, col as int));
                    let r0 = self.row_scan(row as int, cj as int, offset as int, dj as nat);
                    assert(self.row_scan(row as int, cj as int, offset as int, (dj + 1) as nat)
                        == r0 + self.bucket(row as int, col as int));
                    assert(out@ =~= start + (r0 + self.bucket(row as int, col as int)));
                }
                dj = dj + 1;
            }
            di = di + 1;
        }
        out
    }
}

/// Contents of a row scan: the agents of the scanned buckets.
proof fn lemma_row_scan_contains(g: &Grid, i: int, cj: int, offset: int, cols: nat, a: usize)
    ensures
        g.row_scan(i, cj, offset, cols).contains(a) <==> exists|dj: int| 0 <= dj < cols && #[trigger] g.in_cell(
            i,
            wrap_index(cj + dj - offset, g.num_cells as int),
            a,
        ),
    decreases cols,
{
    broadcast use vstd::seq_lib::lemma_seq_concat_contains_all_elements;

    if cols > 0 {
        lemma_row_scan_contains(g, i, cj, offset, (cols - 1) as nat, a);
        let last = cols - 1;
        if g.in_cell(i, wrap_index(cj + last - offset, g.num_cells as int), a) {
        }
        if exists|dj: int| 0 <= dj < cols && #[trigger] g.in_cell(i, wrap_index(cj + dj - offset, g.num_cells as int), a) {
            let dj = choose|dj: int| 0 <= dj < cols && #[trigger] g.in_cell(i, wrap_index(cj + dj - offset, g.num_cells as int), a);
            if dj < last {
            }
        }
    }
}

/// Contents of a window scan: the agents of the scanned block of cells.
proof fn lemma_window_scan_contains(g: &Grid, ci: int, cj: int, offset: int, rows: nat, width: nat, a: usize)
    ensures
        g.window_scan(ci, cj, offset, rows, width).contains(a) <==> exists|di: int, dj: int|
            0 <= di < rows && 0 <= dj < width && #[trigger] g.in_cell(
                wrap_index(ci + di - offset, g.num_cells as int),
                wrap_index(cj + dj - offset, g.num_cells as int),
                a,
            ),
    decreases rows,
{
    broadcast use vstd::seq_lib::lemma_seq_concat_contains_all_elements;

    if rows > 0 {
        lemma_window_scan_contains(g, ci, cj, offset, (rows - 1) as nat, width, a);
        let last = rows - 1;
        let ri = wrap_index(ci + last - offset, g.num_cells as int);
        lemma_row_scan_contains(g, ri, cj, offset, width, a);
        if exists|di: int, dj: int| 0 <= di < rows && 0 <= dj < width && #[trigger] g.in_cell(
            wrap_index(ci + di - offset, g.num_cells as int),
            wrap_index(cj + dj - offset, g.num_cells as int),
            a,
        ) {
            let (di, dj) = choose|di: int, dj: int| 0 <= di < rows && 0 <= dj < width && #[trigger] g.in_cell(
                wrap_index(ci + di - offset, g.num_cells as int),
                wrap_index(cj + dj - offset, g.num_cells as int),
                a,
            );
            if di == last {
                assert(g.in_cell(ri, wrap_index(cj + dj - offset, g.num_cells as int), a));
            }
        }
        if g.row_scan(ri, cj, offset, width).contains(a) {
            let dj = choose|dj: int| 0 <= dj < width && #[trigger] g.in_cell(ri, wrap_index(cj + dj - offset, g.num_cells as int), a);
            assert(g.in_cell(
                wrap_index(ci + last - offset, g.num_cells as int),
                wrap_index(cj + dj - offset, g.num_cells as int),
                a,
            ));
        }
    }
}

/// The window scan finds an agent exactly when the agent's bucket lies in
/// the scanned block, so a scan misses no agent whose cell is within reach.
pub proof fn lemma_window_complete(g: &Grid, ci: int, cj: int, offset: int, width: nat, a: usize)
    ensures
        g.window_scan(ci, cj, offset, width, width).contains(a) <==> g.in_block(ci, cj, offset, width, a),
{
    lemma_window_scan_contains(g, ci, cj, offset, width, width, a);
}


/// A neighbour test that can only hold inside the scanned block finds the
/// same agents in the window as in a scan of every agent the grid holds.
pub proof fn lemma_window_matches_all_pairs(
    g: &Grid,
    ci: int,
    cj: int,
    offset: int,
    width: nat,
    near: spec_fn(usize) -> bool,
)
    requires
        g.wf(),
        forall|b: usize| near(b) && g.holds(b) ==> #[trigger] g.in_block(ci, cj, offset, width, b),
    ensures
        forall|b: usize| #![trigger near(b)]
            (g.window_scan(ci, cj, offset, width, width).contains(b) && near(b)) <==> (g.holds(b) && near(b)),
{
    assert forall|b: usize| #![trigger near(b)]
        (g.window_scan(ci, cj, offset, width, width).contains(b) && near(b)) <==> (g.holds(b) && near(b)) by {
        lemma_window_complete(g, ci, cj, offset, width, b);
        if g.window_scan(ci, cj, offset, width, width).contains(b) {
            let (di, dj) = choose|di: int, dj: int| 0 <= di < width && 0 <= dj < width && #[trigger] g.in_cell(
                wrap_index(ci + di - offset, g.num_cells as int),
                wrap_index(cj + dj - offset, g.num_cells as int),
                b,
            );
            lemma_wrap_idempotent(ci + di - offset, g.num_cells as int);
            lemma_wrap_idempotent(cj + dj - offset, g.num_cells as int);
            assert(g.valid_cell(
                wrap_index(ci + di - offset, g.num_cells as int),
                wrap_index(cj + dj - offset, g.num_cells as int),
            ));
        }
    }
}

/// The test that keeps every agent but `a`.
pub open spec fn other_than(a: usize) -> spec_fn(usize) -> bool {
    |x: usize| x != a
}

impl Grid {
    /// Takes agent `a` out of bucket `(i, j)`, keeping the others in order.
    fn drop_in_cell(&mut self, i: usize, j: usize, a: usize)
        requires
            old(self).wf(),
            old(self).valid_cell(i as int, j as int),
        ensures
            final(self).wf(),
            final(self).same_but(old(self), i as int, j as int),
            final(self).bucket(i as int, j as int) == old(self).bucket(i as int, j as int).filter(other_than(a)),
            forall|p: int, q: int, x: usize| final(self).valid_cell(p, q) ==>
                (#[trigger] final(self).in_cell(p, q, x) <==> old(self).in_cell(p, q, x)
                    && !(p == i && q == j && x == a)),
    {
        let ghost g0 = *self;
        let ghost b = g0.bucket(i as int, j as int);
        let ghost keep = other_than(a);
        let mut kept: Vec<usize> = Vec::new();
        let len = self.cells[i][j].agent_indices.len();
        let mut k: usize = 0;
        while k < len
            invariant
                *self == g0,
                b == g0.bucket(i as int, j as int),
                g0.valid_cell(i as int, j as int),
                g0.wf(),
                len == b.len(),
                k <= len,
                keep == other_than(a),
                kept@ == b.subrange(0, k as int).filter(keep),
            decreases len - k,
        {
            let x = self.cells[i][j].agent_indices[k];
            proof {
                reveal(Seq::filter);
                assert(b.subrange(0, k + 1).drop_last() =~= b.subrange(0, k as int));
                assert(b.subrange(0, k + 1).last() == x);
            }
            if x != a {
                kept.push(x);
            }
            k = k + 1;
        }
        proof {
            assert(b.subrange(0, len as int) =~= b);
            lemma_filter_facts(b, keep);
        }
        self.cells[i][j].agent_indices = kept;
        proof {
            let g = *self;
            assert forall|p: int, q: int| g.valid_cell(p, q) && !(p == i && q == j)
                implies #[trigger] g.bucket(p, q) == g0.bucket(p, q) by {
                if p != i {
                    assert(g.cells@[p] == g0.cells@[p]);
                } else {
                    assert(g.cells@[p]@[q] == g0.cells@[p]@[q]);
                }
            }
            assert forall|p: int| 0 <= p < g.num_cells implies (#[trigger] g.cells@[p])@.len() == g.num_cells by {
                if p != i {
                    assert(g.cells@[p] == g0.cells@[p]);
                }
            }
            assert forall|p: int, q: int, x: usize| g.valid_cell(p, q) implies
                (#[trigger] g.in_cell(p, q, x) <==> g0.in_cell(p, q, x) && !(p == i && q == j && x == a)) by {
                if p == i && q == j {
                    assert(b.filter(keep).contains(x) <==> b.contains(x) && keep(x));
                } else {
                    assert(g.bucket(p, q) == g0.bucket(p, q));
                }
            }
            assert forall|p: int, q: int| g.valid_cell(p, q) implies (#[trigger] g.bucket(p, q)).no_duplicates() by {
                if !(p == i && q == j) {
                    assert(g.bucket(p, q) == g0.bucket(p, q));
                }
            }
            assert forall|i1: int, j1: int, i2: int, j2: int, x: usize|
                g.valid_cell(i1, j1) && g.valid_cell(i2, j2) && #[trigger] g.in_cell(i1, j1, x)
                    && #[trigger] g.in_cell(i2, j2, x) implies i1 == i2 && j1 == j2 by {
                assert(g0.in_cell(i1, j1, x));
                assert(g0.in_cell(i2, j2, x));
            }
        }
    }

    /// Takes agent `a` out of the grid; every other agent keeps its bucket
    /// and its place in it.
    pub fn remove_agent(&mut self, a: usize)
        requires
            old(self).wf(),
        ensures
            final(self).wf(),
            final(self).num_cells == old(self).num_cells,
            forall|p: int, q: int| final(self).valid_cell(p, q) ==> #[trigger] final(self).bucket(p, q)
                == old(self).bucket(p, q).filter(other_than(a)),
            forall|p: int, q: int, x: usize| final(self).valid_cell(p, q) ==>
                (#[trigger] final(self).in_cell(p, q, x) <==> old(self).in_cell(p, q, x) && x != a),
    {
        let ghost g0 = *self;
        let n = self.num_cells;
        let mut ci: usize = 0;
        while ci < n
            invariant
                g0.wf(),
                n == g0.num_cells,
                self.wf(),
                self.num_cells == n,
                ci <= n,
                forall|p: int, q: int| self.valid_cell(p, q) ==> #[trigger] self.bucket(p, q)
                    == if scanned(p, q, ci as int, 0) { g0.bucket(p, q).filter(other_than(a)) } else { g0.bucket(p, q) },
                forall|p: int, q: int, x: usize| self.valid_cell(p, q) ==>
                    (#[trigger] self.in_cell(p, q, x) <==> g0.in_cell(p, q, x) && !(x == a && scanned(p, q, ci as int, 0))),
            decreases n - ci,
        {
            let mut cj: usize = 0;
            while cj < n
                invariant
                    g0.wf(),
                    n == g0.num_cells,
                    self.wf(),
                    self.num_cells == n,
                    ci < n,
                    cj <= n,
                    forall|p: int, q: int| self.valid_cell(p, q) ==> #[trigger] self.bucket(p, q)
                        == if scanned(p, q, ci as int, cj as int) { g0.bucket(p, q).filter(other_than(a)) } else { g0.bucket(p, q) },
                    forall|p: int, q: int, x: usize| self.valid_cell(p, q) ==>
                        (#[trigger] self.in_cell(p, q, x) <==> g0.in_cell(p, q, x) && !(x == a && scanned(p, q, ci as int, cj as int))),
                decreases n - cj,
            {
                let ghost pre = *self;
                self.drop_in_cell(ci, cj, a);
                proof {
                    let g = *self;
                    assert forall|p: int, q: int| g.valid_cell(p, q) implies #[trigger] g.bucket(p, q)
                        == if scanned(p, q, ci as int, cj + 1) { g0.bucket(p, q).filter(other_than(a)) } else { g0.bucket(p, q) } by {
                        if !(p == ci && q == cj) {
                            assert(g.bucket(p, q) == pre.bucket(p, q));
                        }
                    }
                    assert forall|p: int, q: int, x: usize| g.valid_cell(p, q) implies
                        (#[trigger] g.in_cell(p, q, x) <==> g0.in_cell(p, q, x) && !(x == a && scanned(p, q, ci as int, cj + 1))) by {
                        assert(g.in_cell(p, q, x) <==> pre.in_cell(p, q, x) && !(p == ci && q == cj && x == a));
                        assert(pre.in_cell(p, q, x) <==> g0.in_cell(p, q, x) && !(x == a && scanned(p, q, ci as int, cj as int)));
                    }
                }
                cj = cj + 1;
            }
            proof {
                let g = *self;
                assert forall|p: int, q: int| g.valid_cell(p, q) implies #[trigger] g.bucket(p, q)
                    == if scanned(p, q, ci + 1, 0) { g0.bucket(p, q).filter(other_than(a)) } else { g0.bucket(p, q) } by {
                    assert(scanned(p, q, ci + 1, 0) == scanned(p, q, ci as int, n as int));
                }
                assert forall|p: int, q: int, x: usize| g.valid_cell(p, q) implies
                    (#[trigger] g.in_cell(p, q, x) <==> g0.in_cell(p, q, x) && !(x == a && scanned(p, q, ci + 1, 0))) by {
                    assert(scanned(p, q, ci + 1, 0) == scanned(p, q, ci as int, n as int));
                }
            }
            ci = ci + 1;
        }
        proof {
            let g = *self;
            assert forall|p: int, q: int| g.valid_cell(p, q) implies #[trigger] g.bucket(p, q)
                == g0.bucket(p, q).filter(other_than(a)) by {
                assert(scanned(p, q, n as int, 0));
            }
            assert forall|p: int, q: int, x: usize| g.valid_cell(p, q) implies
                (#[trigger] g.in_cell(p, q, x) <==> g0.in_cell(p, q, x) && x != a) by {
                assert(scanned(p, q, n as int, 0));
            }
        }
    }
}


/// A window scan over a grid that has only lost agents finds nothing the
/// same scan over the fuller grid would not.
pub(crate) proof fn lemma_window_shrinks(g1: &Grid, g2: &Grid, ci: int, cj: int, offset: int, width: nat, v: usize)
    requires
        g1.num_cells == g2.num_cells,
        g1.num_cells > 0,
        forall|p: int, q: int, x: usize| g2.valid_cell(p, q) && #[trigger] g2.in_cell(p, q, x) ==> g1.in_cell(p, q, x),
        g2.window_scan(ci, cj, offset, width, width).contains(v),
    ensures
        g1.window_scan(ci, cj, offset, width, width).contains(v),
{
    lemma_window_complete(g2, ci, cj, offset, width, v);
    lemma_window_complete(g1, ci, cj, offset, width, v);
    let (di, dj) = choose|di: int, dj: int| 0 <= di < width && 0 <= dj < width && #[trigger] g2.in_cell(
        wrap_index(ci + di - offset, g2.num_cells as int),
        wrap_index(cj + dj - offset, g2.num_cells as int),
        v,
    );
    lemma_wrap_idempotent(ci + di - offset, g2.num_cells as int);
    lemma_wrap_idempotent(cj + dj - offset, g2.num_cells as int);
    assert(g2.valid_cell(
        wrap_index(ci + di - offset, g2.num_cells as int),
        wrap_index(cj + dj - offset, g2.num_cells as int),
    ));
    assert(g1.in_cell(
        wrap_index(ci + di - offset, g1.num_cells as int),
        wrap_index(cj + dj - offset, g1.num_cells as int),
        v,
    ));
}


/// The end of one step of the rebucketing pass.
proof fn lemma_cell_done(g: &Grid, g0: &Grid, homes: Seq<(usize, usize)>, pre: &Grid, movers: Seq<usize>, ci: int, cj: int)
    requires
        g.placing(g0, homes, pre, movers, ci, cj, movers.len() as int),
    ensures
        g.pass_state(g0, homes, ci, cj + 1),
{
    let k = movers.len();
    assert forall|p: int, q: int, x: usize| g0.valid_cell(p, q) && #[trigger] g0.in_cell(p, q, x)
        implies g.in_cell(p, q, x) || (x < homes.len() && g.in_cell(homes[x as int].0 as int, homes[x as int].1 as int, x))
            || Seq::<usize>::empty().contains(x) by {
        assert(movers.subrange(k as int, movers.len() as int) =~= Seq::<usize>::empty());
    }
    assert(movers.subrange(0, k as int) =~= movers);
    let c = (ci as int, cj as int);
    let c_arr = g0.arrivals_before(homes, c.0, c.1, ci as nat, cj as nat);
    lemma_arrivals_home(g0, homes, c.0, c.1, ci as nat, cj as nat);
    lemma_filter_facts(pre.bucket(c.0, c.1), away_pred(homes, c.0, c.1));
    assert forall|p: int, q: int| g.valid_cell(p, q) implies #[trigger] g.bucket(p, q)
        == kept_prefix(g0, homes, p, q, ci as int, cj + 1) + g0.arrivals_before(homes, p, q, ci as nat, (cj + 1) as nat) by {
        let hp = home_pred(homes, p, q);
        let base = kept_prefix(g0, homes, p, q, ci as int, cj + 1) + g0.arrivals_before(homes, p, q, ci as nat, cj as nat);
        assert(g.bucket(p, q) == base + movers.filter(hp));
        if p == c.0 && q == c.1 {
            assert forall|i: int| 0 <= i < movers.len() implies !hp(#[trigger] movers[i]) by {
                assert(movers.contains(movers[i]));
            }
            lemma_filter_none(movers, hp);
            assert(g0.arrivals_row(homes, p, q, ci, (cj + 1) as nat) == g0.arrivals_row(homes, p, q, ci, cj as nat)
                + Seq::<usize>::empty());
            assert(g.bucket(p, q) =~= kept_prefix(g0, homes, p, q, ci as int, cj + 1)
                + g0.arrivals_before(homes, p, q, ci as nat, (cj + 1) as nat));
        } else {
            assert forall|x: usize| #[trigger] hp(x) implies away_pred(homes, c.0, c.1)(x) by {
            }
            lemma_filter_filter(pre.bucket(c.0, c.1), away_pred(homes, c.0, c.1), hp);
            Seq::filter_distributes_over_add(g0.bucket(c.0, c.1), c_arr, hp);
            assert forall|i: int| 0 <= i < c_arr.len() implies !hp(#[trigger] c_arr[i]) by {
                assert(at_home(homes, c.0, c.1, c_arr[i]));
            }
            lemma_filter_none(c_arr, hp);
            assert(movers.filter(hp) =~= g0.bucket(c.0, c.1).filter(hp));
            assert(g0.arrivals_row(homes, p, q, ci, (cj + 1) as nat)
                == g0.arrivals_row(homes, p, q, ci, cj as nat) + g0.bucket(ci, cj).filter(hp));
            assert(g.bucket(p, q) =~= kept_prefix(g0, homes, p, q, ci as int, cj + 1)
                + g0.arrivals_before(homes, p, q, ci as nat, (cj + 1) as nat));
        }
    }
}


/// What a split of cell `(ci, cj)` during the rebucketing pass gives.
pub(crate) open spec fn split_facts(g: &Grid, g0: &Grid, homes: Seq<(usize, usize)>, pre: &Grid, movers: Seq<usize>, ci: int, cj: int) -> bool {
    &&& pre.pass_state(g0, homes, ci, cj)
    &&& 0 <= ci < g0.num_cells
    &&& 0 <= cj < g0.num_cells
    &&& g.wf()
    &&& g.same_but(pre, ci, cj)
    &&& g.bucket(ci, cj) == pre.bucket(ci, cj).filter(home_pred(homes, ci, cj))
    &&& movers == pre.bucket(ci, cj).filter(away_pred(homes, ci, cj))
    &&& movers.no_duplicates()
    &&& forall|x: usize| #[trigger] movers.contains(x) <==> pre.in_cell(ci, cj, x) && !at_home(homes, ci, cj, x)
    &&& forall|p: int, q: int, x: usize| g.valid_cell(p, q) ==>
        (#[trigger] g.in_cell(p, q, x) <==> pre.in_cell(p, q, x) && !(p == ci && q == cj && !at_home(homes, ci, cj, x)))
}

/// The start of one step of the rebucketing pass, once cell `(ci, cj)` is
/// split.
proof fn lemma_cell_split(g: &Grid, g0: &Grid, homes: Seq<(usize, usize)>, pre: &Grid, movers: Seq<usize>, ci: int, cj: int)
    requires
        split_facts(g, g0, homes, pre, movers, ci, cj),
    ensures
        g.placing(g0, homes, pre, movers, ci, cj, 0),
{
    lemma_cell_split_members(g, g0, homes, pre, movers, ci, cj);
    lemma_cell_split_buckets(g, g0, homes, pre, movers, ci, cj);
}

proof fn lemma_cell_split_members(g: &Grid, g0: &Grid, homes: Seq<(usize, usize)>, pre: &Grid, movers: Seq<usize>, ci: int, cj: int)
    requires
        split_facts(g, g0, homes, pre, movers, ci, cj),
    ensures
        forall|x: usize| #[trigger] movers.contains(x) ==> g0.holds(x) && x < homes.len() && !at_home(homes, ci, cj, x),
        forall|t: int, p: int, q: int| 0 <= t < movers.len() && g.valid_cell(p, q) ==> !#[trigger] g.in_cell(p, q, movers[t]),
        g.drawn_from(g0),
        g.gains_only_home(g0, homes),
        g.settled_before(homes, ci, cj + 1),
        g.placed(g0, homes, movers.subrange(0, movers.len() as int)),
{
    assert forall|x: usize| #[trigger] movers.contains(x) implies g0.holds(x) && x < homes.len() by {
        assert(pre.in_cell(ci, cj, x));
    }
    assert forall|p: int, q: int, x: usize| g0.valid_cell(p, q) && #[trigger] g0.in_cell(p, q, x)
        implies g.in_cell(p, q, x) || (x < homes.len() && g.in_cell(homes[x as int].0 as int, homes[x as int].1 as int, x))
            || movers.subrange(0, movers.len() as int).contains(x) by {
        assert(movers.subrange(0, movers.len() as int) =~= movers);
        if pre.in_cell(p, q, x) {
            assert(g.valid_cell(p, q));
            if !g.in_cell(p, q, x) {
                assert(movers.contains(x));
            }
        } else {
            let (hi, hj) = homes[x as int];
            assert(g0.homes_cover(homes));
            assert(pre.in_cell(hi as int, hj as int, x));
            assert(g.valid_cell(hi as int, hj as int));
            if !g.in_cell(hi as int, hj as int, x) {
                assert(movers.contains(x));
            }
        }
    }
    assert forall|t: int, p: int, q: int| 0 <= t < movers.len() && g.valid_cell(p, q)
        implies !#[trigger] g.in_cell(p, q, movers[t]) by {
        assert(movers.contains(movers[t]));
    }
    assert forall|p: int, q: int, x: usize| g.valid_cell(p, q) && #[trigger] g.in_cell(p, q, x) implies g0.holds(x) by {
        assert(pre.in_cell(p, q, x));
    }
    assert forall|p: int, q: int, x: usize| g.valid_cell(p, q) && #[trigger] g.in_cell(p, q, x)
        implies at_home(homes, p, q, x) || g0.in_cell(p, q, x) by {
        assert(pre.in_cell(p, q, x));
    }
    assert forall|p: int, q: int, x: usize| g.valid_cell(p, q) && #[trigger] g.in_cell(p, q, x)
        && scanned(p, q, ci, cj + 1) implies at_home(homes, p, q, x) by {
        assert(pre.in_cell(p, q, x));
    }
}

proof fn lemma_cell_split_buckets(g: &Grid, g0: &Grid, homes: Seq<(usize, usize)>, pre: &Grid, movers: Seq<usize>, ci: int, cj: int)
    requires
        split_facts(g, g0, homes, pre, movers, ci, cj),
    ensures
        forall|p: int, q: int| g.valid_cell(p, q) ==> #[trigger] g.bucket(p, q) == kept_prefix(g0, homes, p, q, ci, cj + 1)
            + g0.arrivals_before(homes, p, q, ci as nat, cj as nat) + movers.subrange(0, 0).filter(home_pred(homes, p, q)),
        pre.bucket(ci, cj) == g0.bucket(ci, cj) + g0.arrivals_before(homes, ci, cj, ci as nat, cj as nat),
{
    let c_arr = g0.arrivals_before(homes, ci, cj, ci as nat, cj as nat);
    assert(pre.bucket(ci, cj) == g0.bucket(ci, cj) + c_arr);
    lemma_arrivals_home(g0, homes, ci, cj, ci as nat, cj as nat);
    lemma_filter_all(c_arr, home_pred(homes, ci, cj));
    Seq::filter_distributes_over_add(g0.bucket(ci, cj), c_arr, home_pred(homes, ci, cj));
    assert forall|p: int, q: int| g.valid_cell(p, q) implies #[trigger] g.bucket(p, q)
        == kept_prefix(g0, homes, p, q, ci, cj + 1) + g0.arrivals_before(homes, p, q, ci as nat, cj as nat)
            + movers.subrange(0, 0).filter(home_pred(homes, p, q)) by {
        reveal(Seq::filter);
        assert(movers.subrange(0, 0).filter(home_pred(homes, p, q)) =~= Seq::<usize>::empty());
        if p == ci && q == cj {
            assert(g.bucket(p, q) =~= kept_prefix(g0, homes, p, q, ci, cj + 1) + g0.arrivals_before(homes, p, q, ci as nat, cj as nat)
                + Seq::<usize>::empty());
        } else {
            assert(g.bucket(p, q) == pre.bucket(p, q));
            assert(g.bucket(p, q) =~= kept_prefix(g0, homes, p, q, ci, cj + 1) + g0.arrivals_before(homes, p, q, ci as nat, cj as nat)
                + Seq::<usize>::empty());
        }
    }
}


/// Rebucketing is deterministic: the same buckets and the same homes give
/// the same buckets, in the same order.
pub proof fn lemma_rebucketing_deterministic(g0: &Grid, homes: Seq<(usize, usize)>, g1: &Grid, g2: &Grid)
    requires
        g1.rebucketed(g0, homes),
        g2.rebucketed(g0, homes),
    ensures
        forall|p: int, q: int| g1.valid_cell(p, q) ==> #[trigger] g1.bucket(p, q) == g2.bucket(p, q),
{
    assert forall|p: int, q: int| g1.valid_cell(p, q) implies #[trigger] g1.bucket(p, q) == g2.bucket(p, q) by {
        assert(g2.valid_cell(p, q));
    }
}

} // verus!
