use vstd::prelude::*;

use rayon::iter::IntoParallelIterator;
use rayon::iter::ParallelIterator;

use crate::cell::{copy_values, new_cell, no_dups, same_cell, same_payload, Cell};
use crate::random::random_below;
use crate::rules_wf;
use crate::WfcError;

verus! {

use vstd::arithmetic::div_mod::lemma_fundamental_div_mod;
use vstd::arithmetic::div_mod::lemma_fundamental_div_mod_converse;

broadcast use vstd::seq_lib::group_seq_properties;

/// A 2D array of cells in row-major order (index = row * cols + col),
/// together with the rule table that constrains orthogonal neighbors.
///
/// A cell's propagated flag is sticky for the grid's whole lifetime: the
/// wave uses it to stop, and nothing resets it, so each grid carries one
/// propagation history. Propagating from scratch takes a fresh grid, which
/// is exactly what `Terrain::expand` builds.
#[derive(Debug)]
pub struct Grid {
    pub cells: Vec<Cell>,
    pub max_domains: usize,
    pub domain_rules: Vec<Vec<usize>>,
    pub rows: usize,
    pub cols: usize,
    pub total_cells: usize,
}

/// Row-for-row equality of two rule tables.
pub open spec fn same_rules(a: Seq<Vec<usize>>, b: Seq<Vec<usize>>) -> bool {
    a.len() == b.len() && forall|i: int| 0 <= i < a.len() ==> a[i]@ == b[i]@
}

/// The unconstrained candidate set: every value below `max`, in order.
pub open spec fn full_domain(max: int) -> Seq<usize> {
    Seq::new(max as nat, |d: int| d as usize)
}

/// The up-to-four orthogonal neighbor indices of `id`, in the fixed order
/// top, bottom, right, left, with the exact boundary rules of the grid.
pub open spec fn spec_neighbors(id: usize, cols: usize, total: usize) -> Seq<usize> {
    let top: Seq<usize> = if id >= cols {
        seq![(id - cols) as usize]
    } else {
        Seq::empty()
    };
    let bottom: Seq<usize> = if id + cols < total {
        seq![(id + cols) as usize]
    } else {
        Seq::empty()
    };
    let right: Seq<usize> = if (id + 1) % (cols as int) != 0 && id + 1 < total {
        seq![(id + 1) as usize]
    } else {
        Seq::empty()
    };
    let left: Seq<usize> = if id >= 1 && (id - 1) % (cols as int) < cols - 1 {
        seq![(id - 1) as usize]
    } else {
        Seq::empty()
    };
    top + bottom + right + left
}

impl Grid {
    /// The grid invariant: a row-major cell array of the advertised extent,
    /// a self-contained rule table, and every cell well formed, so every
    /// domain stays inside `{0..max_domains-1}`.
    pub open spec fn wf(self) -> bool {
        &&& self.cells@.len() == self.total_cells
        &&& self.total_cells == self.rows * self.cols
        &&& self.max_domains == self.domain_rules@.len()
        &&& rules_wf(self.domain_rules@)
        &&& forall|i: int|
            0 <= i < self.cells@.len() ==> (#[trigger] self.cells@[i]).wf(self.max_domains as int)
    }

    /// Equal extent and rule table.
    pub open spec fn same_shape(self, o: Grid) -> bool {
        &&& self.rows == o.rows
        &&& self.cols == o.cols
        &&& self.total_cells == o.total_cells
        &&& self.max_domains == o.max_domains
        &&& same_rules(self.domain_rules@, o.domain_rules@)
    }

    /// Every cell of the grid has committed to a value.
    pub open spec fn spec_all_collapsed(self) -> bool {
        forall|i: int| 0 <= i < self.cells@.len() ==> (#[trigger] self.cells@[i]).is_collapsed
    }

    /// A grid of `rows * cols` fresh cells, each holding the full domain.
    pub fn new(rows: usize, cols: usize, domain_rules: Vec<Vec<usize>>) -> (g: Grid)
        requires
            rules_wf(domain_rules@),
            rows * cols <= usize::MAX,
        ensures
            g.wf(),
            g.rows == rows,
            g.cols == cols,
            g.total_cells == rows * cols,
            g.max_domains == domain_rules@.len(),
            same_rules(g.domain_rules@, domain_rules@),
            forall|i: int|
                0 <= i < g.cells@.len() ==> {
                    &&& (#[trigger] g.cells@[i]).id == i
                    &&& g.cells@[i].domain@ == full_domain(domain_rules@.len() as int)
                    &&& g.cells@[i].collapsed_domain is None
                    &&& !g.cells@[i].is_propagated
                    &&& !g.cells@[i].is_collapsed
                },
    {
        let total = rows * cols;
        let max = domain_rules.len();
        let mut initial: Vec<usize> = Vec::new();
        let mut d: usize = 0;
        while d < max
            invariant
                d <= max,
                initial@ == full_domain(d as int),
            decreases max - d,
        {
            initial.push(d);
            proof {
                assert(full_domain(d as int).push(d) =~= full_domain(d + 1));
            }
            d += 1;
        }
        let cells = fresh_cells(total, &initial);
        Grid { cells, max_domains: max, domain_rules, rows, cols, total_cells: total }
    }

    pub fn all_collapsed(&self) -> (b: bool)
        ensures
            b == self.spec_all_collapsed(),
    {
        let mut i: usize = 0;
        while i < self.cells.len()
            invariant
                i <= self.cells@.len(),
                forall|k: int| 0 <= k < i ==> (#[trigger] self.cells@[k]).is_collapsed,
            decreases self.cells@.len() - i,
        {
            if !self.cells[i].is_collapsed {
                return false;
            }
            i += 1;
        }
        true
    }

    /// The orthogonal neighbor indices of `id`, in the order top, bottom,
    /// right, left; none crosses a row boundary of the grid.
    pub fn generate_valid_neighbor_for_tile(&self, id: usize) -> (r: Vec<usize>)
        requires
            self.wf(),
            id < self.total_cells,
        ensures
            r@ == spec_neighbors(id, self.cols, self.total_cells),
            forall|k: int| 0 <= k < r@.len() ==> r@[k] < self.total_cells,
            forall|k: int| 0 <= k < r@.len() ==> r@[k] != id,
    {
        proof {
            if self.cols == 0 {
                assert(self.total_cells == self.rows * 0);
                assert(self.total_cells == 0) by (nonlinear_arith)
                    requires
                        self.total_cells == self.rows * 0,
                ;
            }
        }
        let mut neighbors: Vec<usize> = Vec::new();
        if id >= self.cols {
            neighbors.push(id - self.cols);
        }
        if self.cols <= self.total_cells - 1 - id {
            neighbors.push(id + self.cols);
        }
        if (id + 1) % self.cols != 0 && id + 1 < self.total_cells {
            neighbors.push(id + 1);
        }
        if id >= 1 && (id - 1) % self.cols < self.cols - 1 {
            neighbors.push(id - 1);
        }
        proof {
            assert(neighbors@ =~= spec_neighbors(id, self.cols, self.total_cells));
        }
        neighbors
    }
}

/// Every cell of a grid with at least two cells has an orthogonal neighbor.
#[verifier::rlimit(50)]
pub proof fn lemma_neighbors_nonempty(id: usize, rows: usize, cols: usize, total: usize)
    requires
        total == rows * cols,
        id < total,
        total >= 2,
    ensures
        spec_neighbors(id, cols, total).len() >= 1,
{
    if cols == 0 {
        assert(total == 0) by (nonlinear_arith)
            requires
                total == rows * 0,
        ;
    }
    if cols == 1 {
        if id >= 1 {
            // top neighbor exists
        } else {
            assert(id + cols < total);
        }
    } else {
        let c = id as int % cols as int;
        let q = id as int / cols as int;
        lemma_fundamental_div_mod(id as int, cols as int);
        assert(q * cols == cols * q) by (nonlinear_arith);
        if c == 0 {
            // the right neighbor exists: (id + 1) % cols == 1
            lemma_fundamental_div_mod_converse(id + 1, cols as int, q, 1);
            if id + 1 == total {
                assert(total == rows * cols);
                lemma_fundamental_div_mod_converse(total as int, cols as int, rows as int, 0);
            }
            assert(id + 1 < total);
        } else {
            // the left neighbor exists: (id - 1) % cols == c - 1 < cols - 1
            lemma_fundamental_div_mod_converse(id - 1, cols as int, q, c - 1);
        }
    }
}

/// The union, over every candidate value in `domain`, of the rule-table row
/// for that value: the set of values a neighbor could reach.
pub open spec fn reachable_from(rules: Seq<Vec<usize>>, domain: Seq<usize>) -> Set<usize> {
    Set::new(
        |x: usize|
            exists|k: int| 0 <= k < domain.len() && rules[domain[k] as int]@.contains(x),
    )
}

/// The intersection, across all neighbors of `index`, of the values each
/// neighbor's current domain can reach: the domain `propagate` writes.
pub open spec fn propagated_domain(g: Grid, index: usize) -> Set<usize> {
    let ns = spec_neighbors(index, g.cols, g.total_cells);
    Set::new(
        |x: usize|
            forall|k: int|
                0 <= k < ns.len() ==> #[trigger] reachable_from(
                    g.domain_rules@,
                    g.cells@[ns[k] as int].domain@,
                ).contains(x),
    )
}

/// The subsequence of `ns` whose cells are not yet propagated.
pub open spec fn keep_unpropagated(ns: Seq<usize>, cells: Seq<Cell>) -> Seq<usize>
    decreases ns.len(),
{
    if ns.len() == 0 {
        Seq::empty()
    } else {
        let rest = keep_unpropagated(ns.drop_last(), cells);
        if !cells[ns.last() as int].is_propagated {
            rest.push(ns.last())
        } else {
            rest
        }
    }
}

/// The exact transition one `propagate(index)` call makes, with `ret` the
/// returned frontier: a collapsed cell is untouched and yields nothing;
/// an uncollapsed cell keeps everything but its domain, which becomes the
/// intersection of its neighbors' reachable values, and the not-yet
/// propagated neighbors come back in adjacency order.
#[verifier::opaque]
pub open spec fn propagate_rel(g0: Grid, index: usize, g1: Grid, ret: Seq<usize>) -> bool {
    &&& g1.same_shape(g0)
    &&& g1.cells@.len() == g0.cells@.len()
    &&& forall|i: int|
        0 <= i < g0.cells@.len() && i != index ==> same_cell(
            #[trigger] g1.cells@[i],
            g0.cells@[i],
        )
    &&& if g0.cells@[index as int].is_collapsed {
        ret.len() == 0 && same_cell(g1.cells@[index as int], g0.cells@[index as int])
    } else {
        &&& g1.cells@[index as int].id == g0.cells@[index as int].id
        &&& g1.cells@[index as int].is_propagated
        &&& !g1.cells@[index as int].is_collapsed
        &&& g1.cells@[index as int].collapsed_domain == g0.cells@[index as int].collapsed_domain
        &&& g1.cells@[index as int].domain@.to_set() == propagated_domain(g0, index)
        &&& ret == keep_unpropagated(spec_neighbors(index, g0.cols, g0.total_cells), g0.cells@)
    }
}

/// The elements of `xs` appended to `acc` in order, skipping any already
/// present.
pub open spec fn dedup_append(acc: Seq<usize>, xs: Seq<usize>) -> Seq<usize>
    decreases xs.len(),
{
    if xs.len() == 0 {
        acc
    } else {
        let prev = dedup_append(acc, xs.drop_last());
        if prev.contains(xs.last()) {
            prev
        } else {
            prev.push(xs.last())
        }
    }
}

/// The frontiers returned by one wave round, concatenated in order and
/// deduplicated.
pub open spec fn dedup_concat(rets: Seq<Seq<usize>>) -> Seq<usize>
    decreases rets.len(),
{
    if rets.len() == 0 {
        Seq::empty()
    } else {
        dedup_append(dedup_concat(rets.drop_last()), rets.last())
    }
}

/// One wave round through its witnesses: `mids` holds the grid before and
/// after each call, `rets` each call's returned frontier.
#[verifier::opaque]
pub open spec fn wave_round_steps(
    g0: Grid,
    frontier: Seq<usize>,
    g1: Grid,
    next: Seq<usize>,
    mids: Seq<Grid>,
    rets: Seq<Seq<usize>>,
) -> bool {
    &&& mids.len() == frontier.len() + 1
    &&& rets.len() == frontier.len()
    &&& mids[0] == g0
    &&& mids[frontier.len() as int] == g1
    &&& forall|i: int|
        0 <= i < frontier.len() ==> propagate_rel(#[trigger] mids[i], frontier[i], mids[i + 1], rets[i])
    &&& next == dedup_concat(rets)
}

/// One round of the wave: `propagate` runs on every index of the current
/// frontier in order, and the returned unpropagated neighbors, deduplicated
/// in order, form the next frontier.
#[verifier::opaque]
pub open spec fn wave_round(g0: Grid, frontier: Seq<usize>, g1: Grid, next: Seq<usize>) -> bool {
    exists|mids: Seq<Grid>, rets: Seq<Seq<usize>>|
        wave_round_steps(g0, frontier, g1, next, mids, rets)
}

/// The whole fixpoint wave through its witnesses: the grid state and the
/// frontier before each round; rounds repeat while the frontier is
/// non-empty and the final frontier is empty.
#[verifier::opaque]
pub open spec fn wave_trace(
    g0: Grid,
    seed: Seq<usize>,
    g1: Grid,
    states: Seq<Grid>,
    fronts: Seq<Seq<usize>>,
) -> bool {
    &&& states.len() == fronts.len()
    &&& states.len() >= 1
    &&& states[0] == g0
    &&& fronts[0] == seed
    &&& states.last() == g1
    &&& fronts.last().len() == 0
    &&& forall|r: int|
        0 <= r < states.len() - 1 ==> (#[trigger] fronts[r]).len() > 0 && wave_round(
            states[r],
            fronts[r],
            states[r + 1],
            fronts[r + 1],
        )
}

/// `g1` is what the fixpoint wave leaves of `g0` when seeded with `seed`.
#[verifier::opaque]
pub open spec fn wave_rel(g0: Grid, seed: Seq<usize>, g1: Grid) -> bool {
    exists|states: Seq<Grid>, fronts: Seq<Seq<usize>>| wave_trace(g0, seed, g1, states, fronts)
}

/// One collapse: the cell at `c` commits to a value drawn from its current
/// domain and shrinks to that singleton; every other cell is untouched.
pub open spec fn collapsed_at(g0: Grid, c: usize, g1: Grid) -> bool {
    &&& g1.same_shape(g0)
    &&& g1.cells@.len() == g0.cells@.len()
    &&& forall|i: int|
        0 <= i < g0.cells@.len() && i != c ==> same_cell(#[trigger] g1.cells@[i], g0.cells@[i])
    &&& g1.cells@[c as int].id == g0.cells@[c as int].id
    &&& g1.cells@[c as int].is_collapsed
    &&& g1.cells@[c as int].is_propagated
    &&& g1.cells@[c as int].domain@.len() == 1
    &&& g0.cells@[c as int].domain@.contains(g1.cells@[c as int].domain@[0])
    &&& g1.cells@[c as int].collapsed_domain == Some(g1.cells@[c as int].domain@[0])
}

/// One step of the collapse walk through its witness `mid`: the cell at
/// `c` collapses, then the wave runs over all of `c`'s neighbors.
pub open spec fn walk_step_via(g0: Grid, c: usize, mid: Grid, g1: Grid) -> bool {
    &&& collapsed_at(g0, c, mid)
    &&& wave_rel(mid, spec_neighbors(c, g0.cols, g0.total_cells), g1)
}

#[verifier::opaque]
pub open spec fn walk_step(g0: Grid, c: usize, g1: Grid) -> bool {
    exists|mid: Grid| walk_step_via(g0, c, mid, g1)
}

/// The collapse walk through its witnesses: `chain` the cells collapsed in
/// order, starting at `id`, each later one an orthogonal neighbor of its
/// predecessor that was still uncollapsed when chosen; `states` the grid
/// before each step, and after the last.
#[verifier::opaque]
pub open spec fn walk_trace(
    g0: Grid,
    id: usize,
    g1: Grid,
    chain: Seq<usize>,
    states: Seq<Grid>,
) -> bool {
    &&& states.len() == chain.len() + 1
    &&& states[0] == g0
    &&& states.last() == g1
    &&& chain.len() >= 1 ==> chain[0] == id
    &&& forall|i: int|
        0 <= i < chain.len() ==> walk_step(#[trigger] states[i], chain[i], states[i + 1])
    &&& forall|i: int|
        1 <= i < chain.len() ==> spec_neighbors(chain[i - 1], g0.cols, g0.total_cells).contains(
            #[trigger] chain[i],
        ) && !states[i].cells@[chain[i] as int].is_collapsed
}

/// `g1` is reached from `g0` by the collapse walk started at `id` — the
/// steps the call completed before returning, dead-ending, or halting on
/// a contradiction.
#[verifier::opaque]
pub open spec fn walk_rel(g0: Grid, id: usize, g1: Grid) -> bool {
    exists|chain: Seq<usize>, states: Seq<Grid>| walk_trace(g0, id, g1, chain, states)
}

/// Every orthogonal neighbor of `c` is propagated in `g`.
pub open spec fn neighbors_propagated(g: Grid, c: usize) -> bool {
    forall|k: int|
        0 <= k < spec_neighbors(c, g.cols, g.total_cells).len() ==> g.cells@[(
        #[trigger] spec_neighbors(c, g.cols, g.total_cells)[k]) as int].is_propagated
}

/// The members of `r` are the members of `prev` plus the first `j` values
/// of `row`.
spec fn union_progress(r: Seq<usize>, prev: Seq<usize>, row: Seq<usize>, j: int) -> bool {
    forall|x: usize|
        r.contains(x) <==> prev.contains(x) || exists|t: int| 0 <= t < j && (#[trigger] row[t]) == x
}

/// Linear scan for membership.
fn vec_contains(v: &Vec<usize>, x: usize) -> (b: bool)
    ensures
        b == v@.contains(x),
{
    let mut i: usize = 0;
    while i < v.len()
        invariant
            i <= v@.len(),
            forall|k: int| 0 <= k < i ==> v@[k] != x,
        decreases v@.len() - i,
    {
        if v[i] == x {
            return true;
        }
        i += 1;
    }
    false
}

/// The values of `a` that also occur in `b`, in `a`'s order.
fn intersect_values(a: &Vec<usize>, b: &Vec<usize>) -> (r: Vec<usize>)
    requires
        no_dups(a@),
    ensures
        no_dups(r@),
        forall|x: usize| r@.contains(x) <==> a@.contains(x) && b@.contains(x),
{
    let mut r: Vec<usize> = Vec::new();
    let mut i: usize = 0;
    while i < a.len()
        invariant
            i <= a@.len(),
            no_dups(a@),
            no_dups(r@),
            forall|x: usize| r@.contains(x) <==> a@.take(i as int).contains(x) && b@.contains(x),
        decreases a@.len() - i,
    {
        let x = a[i];
        if vec_contains(b, x) {
            proof {
                if r@.contains(x) {
                    let j = choose|j: int| 0 <= j < i && (#[trigger] a@.take(i as int)[j]) == x;
                    assert(a@[j] == a@[i as int]);
                }
            }
            r.push(x);
        }
        proof {
            assert forall|y: usize|
                r@.contains(y) <==> a@.take(i + 1).contains(y) && b@.contains(y) by {
                if a@.take(i + 1).contains(y) {
                    let j = choose|j: int| 0 <= j < i + 1 && (#[trigger] a@.take(i + 1)[j]) == y;
                    if j < i {
                        assert(a@.take(i as int)[j] == y);
                    }
                }
                if a@.take(i as int).contains(y) {
                    let j = choose|j: int| 0 <= j < i && (#[trigger] a@.take(i as int)[j]) == y;
                    assert(a@.take(i + 1)[j] == y);
                }
                if y == x && b@.contains(y) {
                    assert(a@.take(i + 1)[i as int] == x);
                }
            }
        }
        i += 1;
    }
    proof {
        assert(a@.take(a@.len() as int) =~= a@);
    }
    r
}

impl Grid {
    /// The set of values reachable from `domains` through the rule table,
    /// as a duplicate-free vector.
    fn get_rules_from_domain(&self, domains: &Vec<usize>) -> (r: Vec<usize>)
        requires
            self.wf(),
            forall|k: int| 0 <= k < domains@.len() ==> domains@[k] < self.max_domains,
        ensures
            no_dups(r@),
            forall|x: usize| r@.contains(x) <==> reachable_from(
                self.domain_rules@,
                domains@,
            ).contains(x),
            forall|k: int| 0 <= k < r@.len() ==> r@[k] < self.max_domains,
    {
        let mut r: Vec<usize> = Vec::new();
        let mut k: usize = 0;
        while k < domains.len()
            invariant
                self.wf(),
                forall|t: int| 0 <= t < domains@.len() ==> domains@[t] < self.max_domains,
                k <= domains@.len(),
                no_dups(r@),
                forall|x: usize| r@.contains(x) <==> reachable_from(
                    self.domain_rules@,
                    domains@.take(k as int),
                ).contains(x),
                forall|t: int| 0 <= t < r@.len() ==> r@[t] < self.max_domains,
            decreases domains@.len() - k,
        {
            let row = &self.domain_rules[domains[k]];
            let ghost prev = r@;
            let mut j: usize = 0;
            while j < row.len()
                invariant
                    self.wf(),
                    k < domains@.len(),
                    domains@[k as int] < self.max_domains,
                    row@ == self.domain_rules@[domains@[k as int] as int]@,
                    j <= row@.len(),
                    no_dups(r@),
                    union_progress(r@, prev, row@, j as int),
                    forall|x: usize| prev.contains(x) ==> r@.contains(x),
                    forall|t: int| 0 <= t < r@.len() ==> r@[t] < self.max_domains,
                decreases row@.len() - j,
            {
                let x = row[j];
                let ghost r_head = r@;
                if !vec_contains(&r, x) {
                    r.push(x);
                    proof {
                        assert(r@ == r_head.push(x));
                        assert(forall|y: usize|
                            r_head.push(x).contains(y) <==> y == x || r_head.contains(y));
                    }
                }
                let ghost j_prev = j as int;
                j += 1;
                proof {
                    assert forall|y: usize|
                        r@.contains(y) <==> prev.contains(y) || exists|t: int|
                            0 <= t < j && (#[trigger] row@[t]) == y by {
                        assert(union_progress(r_head, prev, row@, j_prev));
                        if r@.contains(y) && !prev.contains(y) {
                            if r_head.contains(y) {
                                let t = choose|t: int| 0 <= t < j_prev && (#[trigger] row@[t]) == y;
                                assert(0 <= t < j && row@[t] == y);
                            } else {
                                assert(y == x);
                                assert(0 <= j_prev < j && row@[j_prev] == y);
                            }
                        }
                        if exists|t: int| 0 <= t < j && (#[trigger] row@[t]) == y {
                            let t = choose|t: int| 0 <= t < j && (#[trigger] row@[t]) == y;
                            if t < j_prev {
                                assert(r_head.contains(y) || prev.contains(y));
                                assert(r@.contains(y) || prev.contains(y));
                            } else {
                                assert(row@[t] == x);
                                assert(r@.contains(x));
                            }
                        }
                    }
                    assert(union_progress(r@, prev, row@, j as int));
                }
            }
            proof {
                assert(forall|y: usize|
                    (exists|t: int| 0 <= t < row@.len() && (#[trigger] row@[t]) == y)
                        <==> row@.contains(y));
                assert forall|y: usize|
                    r@.contains(y) <==> reachable_from(
                        self.domain_rules@,
                        domains@.take(k + 1),
                    ).contains(y) by {
                    if reachable_from(self.domain_rules@, domains@.take(k + 1)).contains(y) {
                        let t = choose|t: int|
                            0 <= t < k + 1 && self.domain_rules@[(#[trigger] domains@.take(
                                k + 1,
                            )[t]) as int]@.contains(y);
                        if t < k {
                            assert(domains@.take(k as int)[t] == domains@[t]);
                            assert(reachable_from(
                                self.domain_rules@,
                                domains@.take(k as int),
                            ).contains(y));
                        } else {
                            assert(row@.contains(y));
                        }
                    }
                    if prev.contains(y) {
                        let t = choose|t: int|
                            0 <= t < k && self.domain_rules@[(#[trigger] domains@.take(
                                k as int,
                            )[t]) as int]@.contains(y);
                        assert(domains@.take(k + 1)[t] == domains@[t]);
                        assert(reachable_from(self.domain_rules@, domains@.take(k + 1)).contains(
                            y,
                        ));
                    }
                    if row@.contains(y) {
                        assert(domains@.take(k + 1)[k as int] == domains@[k as int]);
                        assert(reachable_from(self.domain_rules@, domains@.take(k + 1)).contains(
                            y,
                        ));
                    }
                }
            }
            k += 1;
        }
        proof {
            assert(domains@.take(domains@.len() as int) =~= domains@);
        }
        r
    }
}

/// The members of `acc` are the values reachable from every one of the
/// first `k` neighbors in `ns`.
spec fn inter_progress(acc: Seq<usize>, g: Grid, ns: Seq<usize>, k: int) -> bool {
    forall|x: usize|
        acc.contains(x) <==> forall|jj: int|
            0 <= jj < k ==> #[trigger] reachable_from(
                g.domain_rules@,
                g.cells@[ns[jj] as int].domain@,
            ).contains(x)
}

/// Every index kept by `keep_unpropagated` comes from `ns` and names an
/// unpropagated cell.
proof fn lemma_keep_unpropagated_elems(ns: Seq<usize>, cells: Seq<Cell>)
    ensures
        forall|k: int|
            0 <= k < keep_unpropagated(ns, cells).len() ==> ns.contains(
                #[trigger] keep_unpropagated(ns, cells)[k],
            ) && !cells[keep_unpropagated(ns, cells)[k] as int].is_propagated,
    decreases ns.len(),
{
    if ns.len() > 0 {
        lemma_keep_unpropagated_elems(ns.drop_last(), cells);
        let kept = keep_unpropagated(ns, cells);
        let rest = keep_unpropagated(ns.drop_last(), cells);
        assert forall|k: int|
            0 <= k < kept.len() implies ns.contains(#[trigger] kept[k]) && !cells[kept[k] as int]
            .is_propagated by {
            if k < rest.len() {
                assert(kept[k] == rest[k]);
                assert(ns.drop_last().contains(rest[k]));
                let t = choose|t: int|
                    0 <= t < ns.drop_last().len() && (#[trigger] ns.drop_last()[t]) == rest[k];
                assert(ns[t] == rest[k]);
            } else {
                assert(kept[k] == ns.last());
                assert(ns[ns.len() - 1] == ns.last());
            }
        }
    }
}

impl Grid {
    /// Recomputes the domain of `index` as the intersection, across its
    /// neighbors, of the values each neighbor's domain can reach, marks the
    /// cell propagated, and returns the neighbors not yet propagated, in
    /// adjacency order. A collapsed cell is left untouched and yields no
    /// frontier. The new domain may come out empty: a contradiction, which
    /// is recorded, not rolled back.
    pub fn propagate(&mut self, index: usize) -> (r: Vec<usize>)
        requires
            old(self).wf(),
            index < old(self).total_cells,
            old(self).total_cells >= 2,
        ensures
            final(self).wf(),
            final(self).same_shape(*old(self)),
            final(self).cells@.len() == old(self).cells@.len(),
            forall|i: int|
                0 <= i < old(self).cells@.len() && i != index ==> same_cell(
                    #[trigger] final(self).cells@[i],
                    old(self).cells@[i],
                ),
            forall|i: int|
                0 <= i < old(self).cells@.len() ==> (#[trigger] final(self).cells@[i]).is_collapsed
                    == old(self).cells@[i].is_collapsed,
            forall|i: int|
                0 <= i < old(self).cells@.len() && old(self).cells@[i].is_propagated ==> (
                #[trigger] final(self).cells@[i]).is_propagated,
            forall|i: int|
                0 <= i < old(self).cells@.len() && old(self).cells@[i].is_collapsed ==> same_cell(
                    #[trigger] final(self).cells@[i],
                    old(self).cells@[i],
                ),
            old(self).cells@[index as int].is_collapsed ==> r@.len() == 0 && same_cell(
                final(self).cells@[index as int],
                old(self).cells@[index as int],
            ),
            !old(self).cells@[index as int].is_collapsed ==> {
                &&& final(self).cells@[index as int].id == old(self).cells@[index as int].id
                &&& final(self).cells@[index as int].is_propagated
                &&& !final(self).cells@[index as int].is_collapsed
                &&& final(self).cells@[index as int].collapsed_domain == old(
                    self,
                ).cells@[index as int].collapsed_domain
                &&& final(self).cells@[index as int].domain@.to_set() == propagated_domain(
                    *old(self),
                    index,
                )
                &&& r@ == keep_unpropagated(
                    spec_neighbors(index, old(self).cols, old(self).total_cells),
                    old(self).cells@,
                )
            },
            forall|k: int|
                0 <= k < r@.len() ==> (#[trigger] r@[k]) < old(self).total_cells && r@[k] != index
                    && !old(self).cells@[r@[k] as int].is_propagated
                    && !final(self).cells@[r@[k] as int].is_propagated,
            propagate_rel(*old(self), index, *final(self), r@),
    {
        proof {
            reveal(propagate_rel);
        }
        if self.cells[index].is_collapsed {
            return Vec::new();
        }
        let neighbors = self.generate_valid_neighbor_for_tile(index);
        proof {
            lemma_neighbors_nonempty(index, self.rows, self.cols, self.total_cells);
        }
        let ghost ns = neighbors@;
        let n0 = neighbors[0];
        let mut unpropagated_neighbors: Vec<usize> = Vec::new();
        if !self.cells[n0].is_propagated {
            unpropagated_neighbors.push(n0);
        }
        proof {
            assert(ns.take(1).drop_last() =~= Seq::<usize>::empty());
            assert(keep_unpropagated(Seq::<usize>::empty(), self.cells@) =~= Seq::<usize>::empty());
            assert(ns.take(1).last() == ns[0]);
            assert(unpropagated_neighbors@ =~= keep_unpropagated(ns.take(1), self.cells@));
        }
        let mut acc = self.get_rules_from_domain(&self.cells[n0].domain);
        proof {
            assert forall|x: usize|
                acc@.contains(x) <==> (forall|jj: int|
                    0 <= jj < 1 ==> #[trigger] reachable_from(
                        self.domain_rules@,
                        self.cells@[ns[jj] as int].domain@,
                    ).contains(x)) by {
                if acc@.contains(x) {
                    assert(reachable_from(
                        self.domain_rules@,
                        self.cells@[ns[0] as int].domain@,
                    ).contains(x));
                }
            }
            assert(inter_progress(acc@, *self, ns, 1));
        }
        let mut k: usize = 1;
        while k < neighbors.len()
            invariant
                *self == *old(self),
                self.wf(),
                index < self.total_cells,
                1 <= k <= ns.len(),
                neighbors@ == ns,
                ns == spec_neighbors(index, self.cols, self.total_cells),
                forall|t: int| 0 <= t < ns.len() ==> (#[trigger] ns[t]) < self.total_cells,
                no_dups(acc@),
                forall|t: int| 0 <= t < acc@.len() ==> (#[trigger] acc@[t]) < self.max_domains,
                inter_progress(acc@, *self, ns, k as int),
                unpropagated_neighbors@ == keep_unpropagated(ns.take(k as int), self.cells@),
            decreases ns.len() - k,
        {
            let n = neighbors[k];
            let reach = self.get_rules_from_domain(&self.cells[n].domain);
            let ghost acc_prev = acc@;
            acc = intersect_values(&acc, &reach);
            if !self.cells[n].is_propagated {
                unpropagated_neighbors.push(n);
            }
            let ghost k_prev = k as int;
            k += 1;
            proof {
                assert forall|x: usize|
                    acc@.contains(x) <==> (forall|jj: int|
                        0 <= jj < k ==> #[trigger] reachable_from(
                            self.domain_rules@,
                            self.cells@[ns[jj] as int].domain@,
                        ).contains(x)) by {
                    assert(inter_progress(acc_prev, *self, ns, k_prev));
                    if acc@.contains(x) {
                        assert(acc_prev.contains(x) && reach@.contains(x));
                    }
                    if (forall|jj: int|
                        0 <= jj < k ==> #[trigger] reachable_from(
                            self.domain_rules@,
                            self.cells@[ns[jj] as int].domain@,
                        ).contains(x)) {
                        assert(reachable_from(
                            self.domain_rules@,
                            self.cells@[ns[k_prev] as int].domain@,
                        ).contains(x));
                        assert(reach@.contains(x));
                        assert(acc_prev.contains(x));
                    }
                }
                assert(inter_progress(acc@, *self, ns, k as int));
                assert forall|t: int|
                    0 <= t < acc@.len() implies (#[trigger] acc@[t]) < self.max_domains by {
                    assert(acc@.contains(acc@[t]));
                    assert(acc_prev.contains(acc@[t]));
                    let w = choose|w: int| 0 <= w < acc_prev.len() && (#[trigger] acc_prev[w]) == acc@[t];
                }
                assert(ns.take(k as int).drop_last() =~= ns.take(k_prev));
                assert(ns.take(k as int).last() == ns[k_prev]);
                assert(unpropagated_neighbors@ == keep_unpropagated(ns.take(k as int), self.cells@));
            }
        }
        proof {
            assert(ns.take(ns.len() as int) =~= ns);
            lemma_keep_unpropagated_elems(ns, self.cells@);
            assert forall|x: usize|
                acc@.to_set().contains(x) == propagated_domain(*self, index).contains(x) by {
                assert(acc@.to_set().contains(x) == acc@.contains(x));
                assert(inter_progress(acc@, *self, ns, ns.len() as int));
            }
            assert(acc@.to_set() =~= propagated_domain(*self, index));
        }
        let kept_id = self.cells[index].id;
        let kept_collapsed_domain = self.cells[index].collapsed_domain;
        let updated = Cell {
            id: kept_id,
            domain: acc,
            collapsed_domain: kept_collapsed_domain,
            is_propagated: true,
            is_collapsed: false,
        };
        self.cells.set(index, updated);
        proof {
            assert forall|t: int|
                0 <= t < unpropagated_neighbors@.len() implies (
            #[trigger] unpropagated_neighbors@[t]) != index by {
                assert(ns.contains(unpropagated_neighbors@[t]));
                let w = choose|w: int| 0 <= w < ns.len() && (#[trigger] ns[w]) == unpropagated_neighbors@[t];
            }
        }
        unpropagated_neighbors
    }
}

/// How many cells still await their first propagation.
spec fn count_unpropagated(cells: Seq<Cell>) -> nat
    decreases cells.len(),
{
    if cells.len() == 0 {
        0
    } else {
        count_unpropagated(cells.drop_last()) + if !cells.last().is_propagated {
            1nat
        } else {
            0nat
        }
    }
}

/// Some index in `fr` names a cell not yet propagated.
spec fn has_unprop(fr: Seq<usize>, cells: Seq<Cell>) -> bool {
    exists|k: int| 0 <= k < fr.len() && !cells[(#[trigger] fr[k]) as int].is_propagated
}

/// Propagation flags only ever go from unset to set, so the count of
/// unpropagated cells cannot grow.
proof fn lemma_count_unpropagated_le(c1: Seq<Cell>, c2: Seq<Cell>)
    requires
        c2.len() == c1.len(),
        forall|i: int|
            0 <= i < c1.len() && !(#[trigger] c2[i]).is_propagated ==> !c1[i].is_propagated,
    ensures
        count_unpropagated(c2) <= count_unpropagated(c1),
    decreases c1.len(),
{
    if c1.len() > 0 {
        lemma_count_unpropagated_le(c1.drop_last(), c2.drop_last());
    }
}

/// Newly setting the flag of cell `w` strictly shrinks the count.
proof fn lemma_count_unpropagated_lt(c1: Seq<Cell>, c2: Seq<Cell>, w: int)
    requires
        c2.len() == c1.len(),
        forall|i: int|
            0 <= i < c1.len() && !(#[trigger] c2[i]).is_propagated ==> !c1[i].is_propagated,
        0 <= w < c1.len(),
        !c1[w].is_propagated,
        c2[w].is_propagated,
    ensures
        count_unpropagated(c2) < count_unpropagated(c1),
    decreases c1.len(),
{
    if w == c1.len() - 1 {
        lemma_count_unpropagated_le(c1.drop_last(), c2.drop_last());
    } else {
        lemma_count_unpropagated_lt(c1.drop_last(), c2.drop_last(), w);
    }
}

/// Equal flags give an equal count.
proof fn lemma_count_unpropagated_same(c1: Seq<Cell>, c2: Seq<Cell>)
    requires
        c2.len() == c1.len(),
        forall|i: int|
            0 <= i < c1.len() ==> (#[trigger] c2[i]).is_propagated == c1[i].is_propagated,
    ensures
        count_unpropagated(c2) == count_unpropagated(c1),
{
    lemma_count_unpropagated_le(c1, c2);
    lemma_count_unpropagated_le(c2, c1);
}

impl Grid {
    /// The fixpoint wave: propagates every index of the current frontier,
    /// gathers the returned not-yet-propagated neighbors (deduplicated)
    /// into the next frontier, and repeats until the frontier is empty;
    /// iterative, so stack use stays bounded whatever the grid size.
    #[verifier::rlimit(100)]
    pub fn propagate_neighbors(&mut self, indexes: Vec<usize>)
        requires
            old(self).wf(),
            forall|k: int| 0 <= k < indexes@.len() ==> (#[trigger] indexes@[k]) < old(self).total_cells,
            indexes@.len() > 0 ==> old(self).total_cells >= 2,
        ensures
            final(self).wf(),
            final(self).same_shape(*old(self)),
            final(self).cells@.len() == old(self).cells@.len(),
            forall|i: int|
                0 <= i < old(self).cells@.len() && old(self).cells@[i].is_collapsed ==> same_cell(
                    #[trigger] final(self).cells@[i],
                    old(self).cells@[i],
                ),
            forall|i: int|
                0 <= i < old(self).cells@.len() ==> (#[trigger] final(self).cells@[i]).is_collapsed
                    == old(self).cells@[i].is_collapsed,
            forall|i: int|
                0 <= i < old(self).cells@.len() && old(self).cells@[i].is_propagated ==> (
                #[trigger] final(self).cells@[i]).is_propagated,
            forall|k: int|
                0 <= k < indexes@.len() ==> final(self).cells@[(#[trigger] indexes@[k]) as int]
                    .is_propagated,
            wave_rel(*old(self), indexes@, *final(self)),
    {
        let ghost given = indexes@;
        let ghost mut rounds: nat = 0;
        let ghost mut states: Seq<Grid> = seq![*self];
        let ghost mut fronts: Seq<Seq<usize>> = seq![given];
        let mut frontier = indexes;
        while frontier.len() > 0
            invariant
                self.wf(),
                self.same_shape(*old(self)),
                self.cells@.len() == old(self).cells@.len(),
                forall|k: int|
                    0 <= k < frontier@.len() ==> (#[trigger] frontier@[k]) < self.total_cells,
                frontier@.len() > 0 ==> self.total_cells >= 2,
                rounds == 0 ==> frontier@ == given,
                forall|k: int| 0 <= k < given.len() ==> (#[trigger] given[k]) < self.total_cells,
                rounds > 0 ==> forall|k: int|
                    0 <= k < given.len() ==> self.cells@[(#[trigger] given[k]) as int]
                        .is_propagated,
                forall|i: int|
                    0 <= i < old(self).cells@.len() && old(self).cells@[i].is_collapsed
                        ==> same_cell(#[trigger] self.cells@[i], old(self).cells@[i]),
                forall|i: int|
                    0 <= i < old(self).cells@.len() ==> (#[trigger] self.cells@[i]).is_collapsed
                        == old(self).cells@[i].is_collapsed,
                forall|i: int|
                    0 <= i < old(self).cells@.len() && old(self).cells@[i].is_propagated ==> (
                    #[trigger] self.cells@[i]).is_propagated,
                states.len() == fronts.len(),
                states.len() >= 1,
                states[0] == *old(self),
                fronts[0] == given,
                states.last() == *self,
                fronts.last() == frontier@,
                forall|r: int|
                    0 <= r < states.len() - 1 ==> (#[trigger] fronts[r]).len() > 0 && wave_round(
                        states[r],
                        fronts[r],
                        states[r + 1],
                        fronts[r + 1],
                    ),
            decreases
                    2 * count_unpropagated(self.cells@) + (if has_unprop(frontier@, self.cells@) {
                        0int
                    } else {
                        1int
                    }) + (if frontier@.len() > 0 {
                        1int
                    } else {
                        0int
                    }),
        {
            let ghost cells_head = self.cells@;
            let ghost grid_head = *self;
            let ghost fr = frontier@;
            let ghost mut mids: Seq<Grid> = seq![*self];
            let ghost mut rets: Seq<Seq<usize>> = Seq::empty();
            let mut next: Vec<usize> = Vec::new();
            let mut k: usize = 0;
            while k < frontier.len()
                invariant
                    self.wf(),
                    self.same_shape(*old(self)),
                    self.cells@.len() == old(self).cells@.len(),
                    self.cells@.len() == cells_head.len(),
                    frontier@ == fr,
                    k <= fr.len(),
                    fr.len() > 0,
                    self.total_cells >= 2,
                    forall|t: int| 0 <= t < fr.len() ==> (#[trigger] fr[t]) < self.total_cells,
                    forall|i: int|
                        0 <= i < old(self).cells@.len() && old(self).cells@[i].is_collapsed
                            ==> same_cell(#[trigger] self.cells@[i], old(self).cells@[i]),
                    forall|i: int|
                        0 <= i < old(self).cells@.len() ==> (#[trigger] self.cells@[i]).is_collapsed
                            == old(self).cells@[i].is_collapsed,
                    forall|i: int|
                        0 <= i < old(self).cells@.len() && old(self).cells@[i].is_propagated ==> (
                        #[trigger] self.cells@[i]).is_propagated,
                    forall|i: int|
                        0 <= i < cells_head.len() && cells_head[i].is_propagated ==> (
                        #[trigger] self.cells@[i]).is_propagated,
                    rounds == 0 ==> fr == given,
                    forall|t: int| 0 <= t < given.len() ==> (#[trigger] given[t]) < self.total_cells,
                    forall|t: int|
                        0 <= t < k ==> self.cells@[(#[trigger] fr[t]) as int].is_propagated,
                    rounds > 0 ==> forall|t: int|
                        0 <= t < given.len() ==> self.cells@[(#[trigger] given[t]) as int]
                            .is_propagated,
                    count_unpropagated(self.cells@) <= count_unpropagated(cells_head),
                    (exists|t: int|
                        0 <= t < k && !cells_head[(#[trigger] fr[t]) as int].is_propagated)
                        ==> count_unpropagated(self.cells@) < count_unpropagated(cells_head),
                    !has_unprop(fr, cells_head) ==> forall|i: int|
                        0 <= i < cells_head.len() ==> (#[trigger] self.cells@[i]).is_propagated
                            == cells_head[i].is_propagated,
                    forall|t: int| 0 <= t < next@.len() ==> (#[trigger] next@[t]) < self.total_cells,
                    !has_unprop(fr, cells_head) ==> forall|t: int|
                        0 <= t < next@.len() ==> !self.cells@[(#[trigger] next@[t]) as int]
                            .is_propagated,
                    mids.len() == k + 1,
                    rets.len() == k,
                    mids[0] == grid_head,
                    mids.last() == *self,
                    forall|t: int|
                        0 <= t < k ==> propagate_rel(
                            #[trigger] mids[t],
                            fr[t],
                            mids[t + 1],
                            rets[t],
                        ),
                    next@ == dedup_concat(rets),
                decreases fr.len() - k,
            {
                let i = frontier[k];
                let ghost cells_pre = self.cells@;
                let ghost grid_pre = *self;
                let ret = self.propagate(i);
                proof {
                    lemma_count_unpropagated_le(cells_pre, self.cells@);
                    if !cells_pre[i as int].is_propagated {
                        assert(!cells_pre[i as int].is_collapsed);
                        assert(self.cells@[i as int].is_propagated);
                        lemma_count_unpropagated_lt(cells_pre, self.cells@, i as int);
                    }
                    if exists|t: int|
                        0 <= t < k + 1 && !cells_head[(#[trigger] fr[t]) as int].is_propagated {
                        let t = choose|t: int|
                            0 <= t < k + 1 && !cells_head[(#[trigger] fr[t]) as int].is_propagated;
                        if t == k {
                            if cells_pre[i as int].is_propagated {
                                lemma_count_unpropagated_lt(cells_head, cells_pre, i as int);
                            }
                        }
                    }
                }
                let ghost next_base = next@;
                proof {
                    assert(ret@.take(0) =~= Seq::<usize>::empty());
                    assert(dedup_append(next_base, Seq::<usize>::empty()) == next_base);
                }
                let mut m: usize = 0;
                while m < ret.len()
                    invariant
                        m <= ret@.len(),
                        self.total_cells >= 2,
                        forall|t: int|
                            0 <= t < ret@.len() ==> (#[trigger] ret@[t]) < self.total_cells
                                && !self.cells@[ret@[t] as int].is_propagated,
                        forall|t: int|
                            0 <= t < next@.len() ==> (#[trigger] next@[t]) < self.total_cells,
                        !has_unprop(fr, cells_head) ==> forall|t: int|
                            0 <= t < next@.len() ==> !self.cells@[(#[trigger] next@[t]) as int]
                                .is_propagated,
                        next@ == dedup_append(next_base, ret@.take(m as int)),
                    decreases ret@.len() - m,
                {
                    let x = ret[m];
                    let ghost m_prev = m as int;
                    if !vec_contains(&next, x) {
                        next.push(x);
                    }
                    m += 1;
                    proof {
                        assert(ret@.take(m as int).drop_last() =~= ret@.take(m_prev));
                        assert(ret@.take(m as int).last() == ret@[m_prev]);
                        assert(next@ == dedup_append(next_base, ret@.take(m as int)));
                    }
                }
                proof {
                    assert(ret@.take(ret@.len() as int) =~= ret@);
                    assert(propagate_rel(grid_pre, fr[k as int], *self, ret@));
                    let rets_prev = rets;
                    mids = mids.push(*self);
                    rets = rets.push(ret@);
                    assert(rets.drop_last() =~= rets_prev);
                    assert(rets.last() == ret@);
                    assert(dedup_concat(rets) == dedup_append(dedup_concat(rets_prev), ret@));
                    assert(next@ == dedup_concat(rets));
                }
                k += 1;
            }
            proof {
                if has_unprop(fr, cells_head) {
                    let t = choose|t: int|
                        0 <= t < fr.len() && !cells_head[(#[trigger] fr[t]) as int].is_propagated;
                    assert(count_unpropagated(self.cells@) < count_unpropagated(cells_head));
                } else {
                    lemma_count_unpropagated_same(cells_head, self.cells@);
                    if next@.len() > 0 {
                        assert(!self.cells@[next@[0] as int].is_propagated);
                        assert(has_unprop(next@, self.cells@));
                    }
                }
            }
            proof {
                reveal(wave_round_steps);
                reveal(wave_round);
                assert(wave_round_steps(grid_head, fr, *self, next@, mids, rets));
                assert(wave_round(grid_head, fr, *self, next@));
                states = states.push(*self);
                fronts = fronts.push(next@);
                rounds = rounds + 1;
            }
            frontier = next;
        }
        proof {
            reveal(wave_trace);
            reveal(wave_rel);
            assert(wave_trace(*old(self), given, *self, states, fronts));
            assert(wave_rel(*old(self), given, *self));
        }
    }
}

/// Every cell collapsed by some call (collapsed in `g` but not in `g0`)
/// has had the wave run over it: all its orthogonal neighbors are
/// propagated in `g`.
#[verifier::opaque]
pub open spec fn new_collapses_propagated(g0: Grid, g: Grid) -> bool {
    forall|i: int|
        0 <= i < g0.cells@.len() && !g0.cells@[i].is_collapsed && (
        #[trigger] g.cells@[i]).is_collapsed ==> neighbors_propagated(g, i as usize)
}

/// Appending one collapse-then-wave step to a walk trace keeps it a walk
/// trace.
proof fn lemma_walk_extend(
    g0: Grid,
    id: usize,
    chain: Seq<usize>,
    trail: Seq<Grid>,
    g_iter: Grid,
    g_mid: Grid,
    g_post: Grid,
    current: usize,
)
    requires
        walk_trace(g0, id, g_iter, chain, trail),
        g_iter.cols == g0.cols,
        g_iter.total_cells == g0.total_cells,
        chain.len() == 0 ==> current == id,
        chain.len() >= 1 ==> spec_neighbors(chain.last(), g0.cols, g0.total_cells).contains(current)
            && !g_iter.cells@[current as int].is_collapsed,
        collapsed_at(g_iter, current, g_mid),
        wave_rel(g_mid, spec_neighbors(current, g0.cols, g0.total_cells), g_post),
    ensures
        walk_trace(g0, id, g_post, chain.push(current), trail.push(g_post)),
{
    reveal(walk_trace);
    reveal(walk_step);
    let chain2 = chain.push(current);
    let trail2 = trail.push(g_post);
    assert(walk_step_via(g_iter, current, g_mid, g_post));
    assert(walk_step(g_iter, current, g_post));
    assert(trail2.last() == g_post);
    assert(trail2[chain.len() as int] == trail[chain.len() as int]);
    assert(trail[chain.len() as int] == g_iter);
    if chain.len() == 0 {
        assert(chain2[0] == current);
    } else {
        assert(chain2[0] == chain[0]);
    }
    assert forall|i: int|
        0 <= i < chain2.len() implies walk_step(#[trigger] trail2[i], chain2[i], trail2[i + 1]) by {
        if i < chain.len() {
            assert(trail2[i] == trail[i]);
            assert(trail2[i + 1] == trail[i + 1]);
            assert(chain2[i] == chain[i]);
        } else {
            assert(chain2[i] == current);
            assert(trail2[i] == g_iter);
            assert(trail2[i + 1] == g_post);
        }
    }
    assert forall|i: int|
        1 <= i < chain2.len() implies spec_neighbors(chain2[i - 1], g0.cols, g0.total_cells)
        .contains(#[trigger] chain2[i]) && !trail2[i].cells@[chain2[i] as int].is_collapsed by {
        if i < chain.len() {
            assert(trail2[i] == trail[i]);
            assert(chain2[i] == chain[i]);
            assert(chain2[i - 1] == chain[i - 1]);
        } else {
            assert(chain2[i] == current);
            assert(chain2[i - 1] == chain.last());
            assert(trail2[i] == g_iter);
        }
    }
}

/// One collapse-then-wave step keeps `new_collapses_propagated`: the
/// newly collapsed cell had the wave run over its whole neighborhood, and
/// the flags of everyone else's neighborhoods only ever gain.
proof fn lemma_new_collapses_step(
    g0: Grid,
    g_iter: Grid,
    g_mid: Grid,
    g_post: Grid,
    current: usize,
)
    requires
        new_collapses_propagated(g0, g_iter),
        collapsed_at(g_iter, current, g_mid),
        g0.cells@.len() == g_iter.cells@.len(),
        g_mid.cells@.len() == g_iter.cells@.len(),
        g_post.cells@.len() == g_mid.cells@.len(),
        g_post.cols == g_iter.cols && g_post.total_cells == g_iter.total_cells,
        g0.cols == g_iter.cols && g0.total_cells == g_iter.total_cells,
        g_iter.cells@.len() == g_iter.total_cells,
        forall|i: int|
            0 <= i < g_mid.cells@.len() ==> (#[trigger] g_post.cells@[i]).is_collapsed
                == g_mid.cells@[i].is_collapsed,
        forall|i: int|
            0 <= i < g_mid.cells@.len() && g_mid.cells@[i].is_propagated ==> (
            #[trigger] g_post.cells@[i]).is_propagated,
        neighbors_propagated(g_post, current),
    ensures
        new_collapses_propagated(g0, g_post),
{
    reveal(new_collapses_propagated);
    assert forall|i: int|
        0 <= i < g0.cells@.len() && !g0.cells@[i].is_collapsed && (
        #[trigger] g_post.cells@[i]).is_collapsed implies neighbors_propagated(
        g_post,
        i as usize,
    ) by {
        if i != current {
            assert(same_cell(g_mid.cells@[i], g_iter.cells@[i]));
            assert(g_iter.cells@[i].is_collapsed);
            assert(neighbors_propagated(g_iter, i as usize));
            let ns = spec_neighbors(i as usize, g_iter.cols, g_iter.total_cells);
            assert forall|k: int|
                0 <= k < ns.len() implies g_post.cells@[(#[trigger] ns[k]) as int]
                .is_propagated by {
                let n = ns[k] as int;
                if 0 <= n < g_iter.cells@.len() {
                    assert(g_iter.cells@[n].is_propagated);
                    if n != current {
                        assert(same_cell(g_mid.cells@[n], g_iter.cells@[n]));
                    }
                    assert(g_mid.cells@[n].is_propagated);
                }
            }
        }
    }
}

/// How many cells are not yet collapsed.
spec fn count_uncollapsed(cells: Seq<Cell>) -> nat
    decreases cells.len(),
{
    if cells.len() == 0 {
        0
    } else {
        count_uncollapsed(cells.drop_last()) + if !cells.last().is_collapsed {
            1nat
        } else {
            0nat
        }
    }
}

/// Collapse flags only ever go from unset to set, so the count of
/// uncollapsed cells cannot grow.
proof fn lemma_count_uncollapsed_le(c1: Seq<Cell>, c2: Seq<Cell>)
    requires
        c2.len() == c1.len(),
        forall|i: int|
            0 <= i < c1.len() && !(#[trigger] c2[i]).is_collapsed ==> !c1[i].is_collapsed,
    ensures
        count_uncollapsed(c2) <= count_uncollapsed(c1),
    decreases c1.len(),
{
    if c1.len() > 0 {
        lemma_count_uncollapsed_le(c1.drop_last(), c2.drop_last());
    }
}

/// Newly collapsing cell `w` strictly shrinks the count.
proof fn lemma_count_uncollapsed_lt(c1: Seq<Cell>, c2: Seq<Cell>, w: int)
    requires
        c2.len() == c1.len(),
        forall|i: int|
            0 <= i < c1.len() && !(#[trigger] c2[i]).is_collapsed ==> !c1[i].is_collapsed,
        0 <= w < c1.len(),
        !c1[w].is_collapsed,
        c2[w].is_collapsed,
    ensures
        count_uncollapsed(c2) < count_uncollapsed(c1),
    decreases c1.len(),
{
    if w == c1.len() - 1 {
        lemma_count_uncollapsed_le(c1.drop_last(), c2.drop_last());
    } else {
        lemma_count_uncollapsed_lt(c1.drop_last(), c2.drop_last(), w);
    }
}

impl Grid {
    /// The randomized depth-first collapse driver: collapses the cell at
    /// `id`, propagates the wave through its neighbors, then walks on to a
    /// random uncollapsed neighbor, until the walk dead-ends or every cell
    /// is collapsed; iterative, so stack use stays bounded. Halts with
    /// `EmptyDomainCollapse` when the walk reaches a contradicted cell.
    #[verifier::rlimit(100)]
    pub fn build(&mut self, id: usize) -> (r: Result<(), WfcError>)
        requires
            old(self).wf(),
            id < old(self).total_cells || old(self).spec_all_collapsed(),
        ensures
            final(self).wf(),
            final(self).same_shape(*old(self)),
            final(self).cells@.len() == old(self).cells@.len(),
            forall|i: int|
                0 <= i < old(self).cells@.len() && old(self).cells@[i].is_collapsed ==> same_cell(
                    #[trigger] final(self).cells@[i],
                    old(self).cells@[i],
                ),
            forall|i: int|
                0 <= i < old(self).cells@.len() && old(self).cells@[i].is_collapsed ==> (
                #[trigger] final(self).cells@[i]).is_collapsed,
            forall|i: int|
                0 <= i < old(self).cells@.len() && old(self).cells@[i].is_propagated ==> (
                #[trigger] final(self).cells@[i]).is_propagated,
            r is Ok && id < old(self).total_cells ==> final(self).cells@[id as int].is_collapsed,
            r matches Err(e) ==> e is EmptyDomainCollapse && exists|i: int|
                0 <= i < final(self).cells@.len() && (#[trigger] final(self).cells@[i]).id == e->0
                    && final(self).cells@[i].domain@.len() == 0,
            walk_rel(*old(self), id, *final(self)),
            !old(self).spec_all_collapsed() && id < old(self).total_cells && old(
                self,
            ).cells@[id as int].domain@.len() > 0 ==> final(self).cells@[id as int].is_collapsed
                && (final(self).cells@[id as int].collapsed_domain matches Some(v) && old(
                self,
            ).cells@[id as int].domain@.contains(v)),
            new_collapses_propagated(*old(self), *final(self)),
    {
        proof {
            reveal(walk_trace);
            reveal(walk_rel);
            reveal(new_collapses_propagated);
        }
        if self.all_collapsed() {
            proof {
                let chain = Seq::<usize>::empty();
                let states = seq![*self];
                assert(walk_trace(*old(self), id, *self, chain, states));
                assert(walk_rel(*old(self), id, *self));
            }
            return Ok(());
        }
        let ghost mut chain: Seq<usize> = Seq::empty();
        let ghost mut trail: Seq<Grid> = seq![*old(self)];
        proof {
            assert(walk_trace(*old(self), id, *self, chain, trail));
            assert(new_collapses_propagated(*old(self), *self));
        }
        let mut current = id;
        loop
            invariant
                old(self).wf(),
                id < old(self).total_cells,
                self.wf(),
                self.same_shape(*old(self)),
                self.cells@.len() == old(self).cells@.len(),
                current < self.total_cells,
                self.cells@[id as int].is_collapsed || current == id,
                walk_trace(*old(self), id, *self, chain, trail),
                chain.len() == 0 ==> *self == *old(self) && current == id,
                chain.len() >= 1 ==> spec_neighbors(
                    chain.last(),
                    old(self).cols,
                    old(self).total_cells,
                ).contains(current) && !self.cells@[current as int].is_collapsed,
                chain.len() >= 1 ==> self.cells@[id as int].is_collapsed && (self.cells@[id as int].collapsed_domain matches Some(v)
                    && old(self).cells@[id as int].domain@.contains(v)),
                new_collapses_propagated(*old(self), *self),
                forall|i: int|
                    0 <= i < old(self).cells@.len() && old(self).cells@[i].is_collapsed
                        ==> same_cell(#[trigger] self.cells@[i], old(self).cells@[i]),
                forall|i: int|
                    0 <= i < old(self).cells@.len() && old(self).cells@[i].is_collapsed ==> (
                    #[trigger] self.cells@[i]).is_collapsed,
                forall|i: int|
                    0 <= i < old(self).cells@.len() && old(self).cells@[i].is_propagated ==> (
                    #[trigger] self.cells@[i]).is_propagated,
            decreases
                    2 * count_uncollapsed(self.cells@) + (if self.cells@[current as int].is_collapsed {
                        1int
                    } else {
                        0int
                    }),
        {
            if self.all_collapsed() {
                proof {
                    reveal(walk_rel);
                    assert(walk_rel(*old(self), id, *self));
                }
                return Ok(());
            }
            let ghost cells_entry = self.cells@;
            let ghost g_iter = *self;
            let mut cell = self.cells[current].clone();
            match cell.collapse() {
                Err(e) => {
                    proof {
                        reveal(walk_rel);
                        assert(self.cells@[current as int].domain@.len() == 0);
                        assert(walk_rel(*old(self), id, *self));
                    }
                    return Err(e);
                },
                Ok(_u) => {},
            }
            self.cells.set(current, cell);
            proof {
                if cells_entry[current as int].is_collapsed {
                    assert(cell.domain@ =~= cells_entry[current as int].domain@);
                    assert(same_cell(self.cells@[current as int], cells_entry[current as int]));
                    lemma_count_uncollapsed_le(cells_entry, self.cells@);
                } else {
                    lemma_count_uncollapsed_lt(cells_entry, self.cells@, current as int);
                }
                assert(collapsed_at(g_iter, current, *self));
            }
            let ghost g_mid = *self;
            let neighbor_ids = self.generate_valid_neighbor_for_tile(current);
            let ghost ns_view = neighbor_ids@;
            let mut neighbor_ids_uncollapsed: Vec<usize> = Vec::new();
            let mut u: usize = 0;
            while u < neighbor_ids.len()
                invariant
                    u <= neighbor_ids@.len(),
                    self.cells@.len() == self.total_cells,
                    forall|t: int|
                        0 <= t < neighbor_ids@.len() ==> (#[trigger] neighbor_ids@[t])
                            < self.total_cells,
                    forall|t: int|
                        0 <= t < neighbor_ids_uncollapsed@.len() ==> (
                        #[trigger] neighbor_ids_uncollapsed@[t]) < self.total_cells
                            && !self.cells@[neighbor_ids_uncollapsed@[t] as int].is_collapsed
                            && neighbor_ids@.contains(neighbor_ids_uncollapsed@[t]),
                decreases neighbor_ids@.len() - u,
            {
                let n = neighbor_ids[u];
                if !self.cells[n].is_collapsed {
                    proof {
                        assert(neighbor_ids@[u as int] == n);
                    }
                    neighbor_ids_uncollapsed.push(n);
                }
                u += 1;
            }
            let ghost cells_before_wave = self.cells@;
            proof {
                if neighbor_ids@.len() > 0 {
                    assert(neighbor_ids@[0] != current);
                    assert(self.total_cells >= 2);
                }
            }
            self.propagate_neighbors(neighbor_ids);
            proof {
                assert(forall|i: int|
                    0 <= i < cells_before_wave.len() ==> (#[trigger] self.cells@[i]).is_collapsed
                        == cells_before_wave[i].is_collapsed);
                lemma_count_uncollapsed_le(cells_before_wave, self.cells@);
                lemma_count_uncollapsed_le(self.cells@, cells_before_wave);
                assert(wave_rel(g_mid, ns_view, *self));
                assert(ns_view == spec_neighbors(current, old(self).cols, old(self).total_cells));
                lemma_walk_extend(*old(self), id, chain, trail, g_iter, g_mid, *self, current);
                assert(neighbors_propagated(*self, current));
                lemma_new_collapses_step(*old(self), g_iter, g_mid, *self, current);
                chain = chain.push(current);
                trail = trail.push(*self);
            }
            if neighbor_ids_uncollapsed.len() > 0 {
                let pick = random_below(neighbor_ids_uncollapsed.len());
                current = neighbor_ids_uncollapsed[pick];
                proof {
                    assert(ns_view.contains(current));
                }
            } else {
                proof {
                    reveal(walk_rel);
                    assert(walk_rel(*old(self), id, *self));
                }
                return Ok(());
            }
        }
    }
}

/// A row-major index below `rows * cols` decomposes into a row below
/// `rows` and a column below `cols`.
pub(crate) proof fn lemma_row_major_bounds(t: int, rows: int, cols: int)
    requires
        cols > 0,
        rows >= 0,
        0 <= t < rows * cols,
    ensures
        0 <= t / cols < rows,
        0 <= t % cols < cols,
        t == (t / cols) * cols + t % cols,
{
    lemma_fundamental_div_mod(t, cols);
    assert((t / cols) * cols == cols * (t / cols)) by (nonlinear_arith);
    let q = t / cols;
    let m = t % cols;
    assert(0 <= m < cols);
    if q < 0 {
        assert(t == cols * q + m);
        assert(cols * q <= -cols) by (nonlinear_arith)
            requires
                q <= -1,
                cols > 0,
        ;
    }
    if q >= rows {
        assert(cols * q >= cols * rows) by (nonlinear_arith)
            requires
                q >= rows,
                cols > 0,
        ;
        assert(rows * cols == cols * rows) by (nonlinear_arith);
    }
}

/// Composing a row below `rows` and a column below `cols` gives an index
/// below `rows * cols` that decomposes back into the same pair.
pub(crate) proof fn lemma_row_major_index(r: int, c: int, rows: int, cols: int)
    requires
        0 <= r < rows,
        0 <= c < cols,
    ensures
        0 <= r * cols + c < rows * cols,
        (r * cols + c) / cols == r,
        (r * cols + c) % cols == c,
{
    assert(0 <= r * cols + c < rows * cols) by (nonlinear_arith)
        requires
            0 <= r < rows,
            0 <= c < cols,
    ;
    lemma_fundamental_div_mod_converse(r * cols + c, cols, r, c);
}

/// Whether row-major index `t` falls inside the window that `merge` writes.
pub open spec fn in_merge_window(t: int, cols: int, sub_rows: int, sub_cols: int, ro: int, co: int) -> bool {
    let tr = t / cols;
    let tc = t % cols;
    ro <= tr < ro + sub_rows && co <= tc < co + sub_cols
}

/// What `merge(sub, ro, co)` leaves behind: inside the window each cell
/// carries the corresponding subgrid payload under its new row-major id;
/// outside it every cell is untouched. A subgrid cell whose target falls
/// beyond the grid's extent is skipped.
pub open spec fn merged(g0: Grid, sub: Grid, ro: int, co: int, g1: Grid) -> bool {
    &&& g1.same_shape(g0)
    &&& g1.cells@.len() == g0.cells@.len()
    &&& forall|t: int|
        0 <= t < g0.cells@.len() ==> {
            let tr = t / (g0.cols as int);
            let tc = t % (g0.cols as int);
            if in_merge_window(t, g0.cols as int, sub.rows as int, sub.cols as int, ro, co) {
                same_payload(
                    #[trigger] g1.cells@[t],
                    sub.cells@[(tr - ro) * (sub.cols as int) + (tc - co)],
                ) && g1.cells@[t].id == t
            } else {
                same_cell(g1.cells@[t], g0.cells@[t])
            }
        }
}

impl Grid {
    /// Copies every cell of `subgrid` into this grid at the given row and
    /// column offset, overwriting each target cell and reassigning its id
    /// to the destination index; subgrid cells landing outside the grid's
    /// extent are silently skipped.
    pub fn merge(&mut self, subgrid: Grid, grid_row: usize, grid_col: usize)
        requires
            old(self).wf(),
            subgrid.wf(),
            subgrid.max_domains <= old(self).max_domains,
        ensures
            final(self).wf(),
            merged(*old(self), subgrid, grid_row as int, grid_col as int, *final(self)),
    {
        let ghost g0 = *old(self);
        let ghost ro = grid_row as int;
        let ghost co = grid_col as int;
        let mut r: usize = 0;
        while r < subgrid.rows
            invariant
                self.wf(),
                self.same_shape(g0),
                self.cells@.len() == g0.cells@.len(),
                *old(self) == g0,
                subgrid.wf(),
                subgrid.max_domains <= self.max_domains,
                ro == grid_row as int,
                co == grid_col as int,
                r <= subgrid.rows,
                forall|t: int|
                    0 <= t < g0.cells@.len() ==> {
                        let tr = t / (g0.cols as int);
                        let tc = t % (g0.cols as int);
                        if in_merge_window(t, g0.cols as int, subgrid.rows as int, subgrid.cols as int, ro, co)
                            && tr - ro < r {
                            same_payload(
                                #[trigger] self.cells@[t],
                                subgrid.cells@[(tr - ro) * (subgrid.cols as int) + (tc - co)],
                            ) && self.cells@[t].id == t
                        } else {
                            same_cell(self.cells@[t], g0.cells@[t])
                        }
                    },
            decreases subgrid.rows - r,
        {
            let mut c: usize = 0;
            while c < subgrid.cols
                invariant
                    self.wf(),
                    self.same_shape(g0),
                    self.cells@.len() == g0.cells@.len(),
                    *old(self) == g0,
                    subgrid.wf(),
                    subgrid.max_domains <= self.max_domains,
                    ro == grid_row as int,
                    co == grid_col as int,
                    r < subgrid.rows,
                    c <= subgrid.cols,
                    forall|t: int|
                        0 <= t < g0.cells@.len() ==> {
                            let tr = t / (g0.cols as int);
                            let tc = t % (g0.cols as int);
                            if in_merge_window(t, g0.cols as int, subgrid.rows as int, subgrid.cols as int, ro, co)
                                && (tr - ro < r || (tr - ro == r && tc - co < c)) {
                                same_payload(
                                    #[trigger] self.cells@[t],
                                    subgrid.cells@[(tr - ro) * (subgrid.cols as int) + (tc - co)],
                                ) && self.cells@[t].id == t
                            } else {
                                same_cell(self.cells@[t], g0.cells@[t])
                            }
                        },
                decreases subgrid.cols - c,
            {
                proof {
                    lemma_row_major_index(r as int, c as int, subgrid.rows as int, subgrid.cols as int);
                }
                let sub_index = r * subgrid.cols + c;
                let in_rows = grid_row < self.rows && r < self.rows - grid_row;
                let in_cols = grid_col < self.cols && c < self.cols - grid_col;
                if in_rows && in_cols {
                    proof {
                        lemma_row_major_index(
                            ro + r,
                            co + c,
                            self.rows as int,
                            self.cols as int,
                        );
                    }
                    let target_index = (grid_row + r) * self.cols + (grid_col + c);
                    let mut moved = subgrid.cells[sub_index].clone();
                    moved.id = target_index;
                    let ghost before = self.cells@;
                    self.cells.set(target_index, moved);
                    proof {
                        assert forall|i: int|
                            0 <= i < self.cells@.len() implies (#[trigger] self.cells@[i]).wf(
                            self.max_domains as int,
                        ) by {
                            if i == target_index {
                                assert(subgrid.cells@[sub_index as int].wf(
                                    subgrid.max_domains as int,
                                ));
                            } else {
                                assert(self.cells@[i] == before[i]);
                            }
                        }
                        assert forall|t: int| 0 <= t < g0.cells@.len() implies {
                            let tr = t / (g0.cols as int);
                            let tc = t % (g0.cols as int);
                            if in_merge_window(t, g0.cols as int, subgrid.rows as int, subgrid.cols as int, ro, co)
                                && (tr - ro < r || (tr - ro == r && tc - co < c + 1)) {
                                same_payload(
                                    #[trigger] self.cells@[t],
                                    subgrid.cells@[(tr - ro) * (subgrid.cols as int) + (tc - co)],
                                ) && self.cells@[t].id == t
                            } else {
                                same_cell(self.cells@[t], g0.cells@[t])
                            }
                        } by {
                            lemma_row_major_bounds(t, g0.rows as int, g0.cols as int);
                            if t != target_index {
                                assert(self.cells@[t] == before[t]);
                            }
                        }
                    }
                } else {
                    proof {
                        assert forall|t: int| 0 <= t < g0.cells@.len() implies {
                            let tr = t / (g0.cols as int);
                            let tc = t % (g0.cols as int);
                            if in_merge_window(t, g0.cols as int, subgrid.rows as int, subgrid.cols as int, ro, co)
                                && (tr - ro < r || (tr - ro == r && tc - co < c + 1)) {
                                same_payload(
                                    #[trigger] self.cells@[t],
                                    subgrid.cells@[(tr - ro) * (subgrid.cols as int) + (tc - co)],
                                ) && self.cells@[t].id == t
                            } else {
                                same_cell(self.cells@[t], g0.cells@[t])
                            }
                        } by {
                            lemma_row_major_bounds(t, g0.rows as int, g0.cols as int);
                        }
                    }
                }
                c += 1;
            }
            r += 1;
        }
    }
}

/// A row-for-row copy of a rule table.
pub(crate) fn clone_rules(rules: &Vec<Vec<usize>>) -> (r: Vec<Vec<usize>>)
    ensures
        same_rules(r@, rules@),
{
    let mut r: Vec<Vec<usize>> = Vec::new();
    let mut i: usize = 0;
    while i < rules.len()
        invariant
            i <= rules@.len(),
            r@.len() == i,
            forall|t: int| 0 <= t < i ==> (#[trigger] r@[t])@ == rules@[t]@,
        decreases rules@.len() - i,
    {
        r.push(copy_values(&rules[i]));
        i += 1;
    }
    r
}

/// A cell-for-cell copy of a cell array.
fn clone_cells(cells: &Vec<Cell>) -> (r: Vec<Cell>)
    ensures
        r@.len() == cells@.len(),
        forall|i: int| 0 <= i < cells@.len() ==> same_cell(#[trigger] r@[i], cells@[i]),
{
    let mut r: Vec<Cell> = Vec::new();
    let mut i: usize = 0;
    while i < cells.len()
        invariant
            i <= cells@.len(),
            r@.len() == i,
            forall|t: int| 0 <= t < i ==> same_cell(#[trigger] r@[t], cells@[t]),
        decreases cells@.len() - i,
    {
        r.push(cells[i].clone());
        i += 1;
    }
    r
}

impl Clone for Grid {
    /// A copy with the same extent, rule table, and cell states.
    fn clone(&self) -> (r: Self)
        ensures
            r.same_shape(*self),
            r.cells@.len() == self.cells@.len(),
            forall|i: int| 0 <= i < self.cells@.len() ==> same_cell(#[trigger] r.cells@[i], self.cells@[i]),
    {
        Grid {
            cells: clone_cells(&self.cells),
            max_domains: self.max_domains,
            domain_rules: clone_rules(&self.domain_rules),
            rows: self.rows,
            cols: self.cols,
            total_cells: self.total_cells,
        }
    }
}

/// What `range` hands back on success: a fresh grid of the requested
/// extent whose cell at (rr, cc) is a copy, id included, of this grid's
/// cell at (from_row + rr, from_col + cc).
pub open spec fn ranged(
    g: Grid,
    from_row: int,
    from_col: int,
    row_size: int,
    col_size: int,
    out: Grid,
) -> bool {
    &&& out.rows == row_size
    &&& out.cols == col_size
    &&& out.total_cells == row_size * col_size
    &&& out.max_domains == g.max_domains
    &&& same_rules(out.domain_rules@, g.domain_rules@)
    &&& out.cells@.len() == row_size * col_size
    &&& forall|t: int|
        0 <= t < out.cells@.len() ==> {
            let rr = t / col_size;
            let cc = t % col_size;
            same_cell(
                #[trigger] out.cells@[t],
                g.cells@[(from_row + rr) * (g.cols as int) + from_col + cc],
            )
        }
}

impl Grid {
    /// A new grid populated from the rectangular window of this grid that
    /// starts at (from_row, from_col) and spans row_size x col_size; a
    /// window that exceeds the grid's extent is refused whole.
    pub fn range(
        &self,
        from_row: usize,
        from_col: usize,
        row_size: usize,
        col_size: usize,
    ) -> (r: Result<Grid, WfcError>)
        requires
            self.wf(),
        ensures
            from_row + row_size <= self.rows && from_col + col_size <= self.cols ==> {
                &&& r is Ok
                &&& r->Ok_0.wf()
                &&& ranged(
                    *self,
                    from_row as int,
                    from_col as int,
                    row_size as int,
                    col_size as int,
                    r->Ok_0,
                )
            },
            from_row + row_size > self.rows || from_col + col_size > self.cols ==> r == Err::<
                Grid,
                WfcError,
            >(WfcError::OutOfBoundsRequest),
    {
        if row_size > self.rows || from_row > self.rows - row_size || col_size > self.cols
            || from_col > self.cols - col_size {
            return Err(WfcError::OutOfBoundsRequest);
        }
        proof {
            assert(row_size * col_size <= self.rows * self.cols) by (nonlinear_arith)
                requires
                    0 <= row_size <= self.rows,
                    0 <= col_size <= self.cols,
            ;
        }
        let total = row_size * col_size;
        let mut cells: Vec<Cell> = Vec::new();
        let mut rr: usize = 0;
        while rr < row_size
            invariant
                self.wf(),
                from_row + row_size <= self.rows,
                from_col + col_size <= self.cols,
                rr <= row_size,
                cells@.len() == rr * col_size,
                row_size * col_size <= self.rows * self.cols,
                forall|t: int|
                    0 <= t < cells@.len() ==> {
                        let a = t / (col_size as int);
                        let b = t % (col_size as int);
                        same_cell(
                            #[trigger] cells@[t],
                            self.cells@[(from_row + a) * (self.cols as int) + from_col + b],
                        )
                    },
            decreases row_size - rr,
        {
            let mut cc: usize = 0;
            while cc < col_size
                invariant
                    self.wf(),
                    from_row + row_size <= self.rows,
                    from_col + col_size <= self.cols,
                    rr < row_size,
                    cc <= col_size,
                    cells@.len() == rr * col_size + cc,
                    row_size * col_size <= self.rows * self.cols,
                    forall|t: int|
                        0 <= t < cells@.len() ==> {
                            let a = t / (col_size as int);
                            let b = t % (col_size as int);
                            same_cell(
                                #[trigger] cells@[t],
                                self.cells@[(from_row + a) * (self.cols as int) + from_col + b],
                            )
                        },
                decreases col_size - cc,
            {
                proof {
                    lemma_row_major_index(rr as int, cc as int, row_size as int, col_size as int);
                    lemma_row_major_index(
                        from_row + rr,
                        from_col + cc,
                        self.rows as int,
                        self.cols as int,
                    );
                }
                let source_index = (from_row + rr) * self.cols + (from_col + cc);
                let ghost before = cells@;
                cells.push(self.cells[source_index].clone());
                proof {
                    assert forall|t: int| 0 <= t < cells@.len() implies {
                        let a = t / (col_size as int);
                        let b = t % (col_size as int);
                        same_cell(
                            #[trigger] cells@[t],
                            self.cells@[(from_row + a) * (self.cols as int) + from_col + b],
                        )
                    } by {
                        if t < before.len() {
                            assert(cells@[t] == before[t]);
                        } else {
                            assert(t == rr * col_size + cc);
                        }
                    }
                }
                cc += 1;
            }
            proof {
                assert(rr * col_size + col_size == (rr + 1) * col_size) by (nonlinear_arith);
            }
            rr += 1;
        }
        let out = Grid {
            cells,
            max_domains: self.max_domains,
            domain_rules: clone_rules(&self.domain_rules),
            rows: row_size,
            cols: col_size,
            total_cells: total,
        };
        proof {
            assert forall|i: int|
                0 <= i < out.cells@.len() implies (#[trigger] out.cells@[i]).wf(
                out.max_domains as int,
            ) by {
                if row_size == 0 || col_size == 0 {
                    assert(row_size * col_size == 0) by (nonlinear_arith)
                        requires
                            row_size == 0 || col_size == 0,
                    ;
                } else {
                    lemma_row_major_bounds(i, row_size as int, col_size as int);
                    let a = i / (col_size as int);
                    let b = i % (col_size as int);
                    lemma_row_major_index(
                        from_row + a,
                        from_col + b,
                        self.rows as int,
                        self.cols as int,
                    );
                }
            }
        }
        Ok(out)
    }
}

impl Grid {
    /// Resumes the collapse walk from every still-uncollapsed cell in index
    /// order, so that on success the whole grid is collapsed. The plain
    /// walk may dead-end with part of the grid still open; callers that
    /// need every cell committed use this driver instead.
    #[verifier::loop_isolation(false)]
    pub fn collapse_remaining(&mut self) -> (r: Result<(), WfcError>)
        requires
            old(self).wf(),
        ensures
            final(self).wf(),
            final(self).same_shape(*old(self)),
            final(self).cells@.len() == old(self).cells@.len(),
            forall|i: int|
                0 <= i < old(self).cells@.len() && old(self).cells@[i].is_collapsed ==> same_cell(
                    #[trigger] final(self).cells@[i],
                    old(self).cells@[i],
                ),
            forall|i: int|
                0 <= i < old(self).cells@.len() && old(self).cells@[i].is_collapsed ==> (
                #[trigger] final(self).cells@[i]).is_collapsed,
            r is Ok ==> final(self).spec_all_collapsed(),
            r matches Err(e) ==> e is EmptyDomainCollapse && exists|i: int|
                0 <= i < final(self).cells@.len() && (#[trigger] final(self).cells@[i]).id == e->0
                    && final(self).cells@[i].domain@.len() == 0,
    {
        let mut i: usize = 0;
        while i < self.cells.len()
            invariant
                self.wf(),
                self.same_shape(*old(self)),
                self.cells@.len() == old(self).cells@.len(),
                i <= self.cells@.len(),
                forall|t: int| 0 <= t < i ==> (#[trigger] self.cells@[t]).is_collapsed,
                forall|t: int|
                    0 <= t < old(self).cells@.len() && old(self).cells@[t].is_collapsed
                        ==> same_cell(#[trigger] self.cells@[t], old(self).cells@[t]),
                forall|t: int|
                    0 <= t < old(self).cells@.len() && old(self).cells@[t].is_collapsed ==> (
                    #[trigger] self.cells@[t]).is_collapsed,
            decreases self.cells@.len() - i,
        {
            if !self.cells[i].is_collapsed {
                match self.build(i) {
                    Err(e) => {
                        return Err(e);
                    },
                    Ok(_u) => {},
                }
            }
            i += 1;
        }
        Ok(())
    }

    /// The committed value of the cell at `index`; `None` while the cell
    /// is still uncollapsed.
    pub fn collapsed_value(&self, index: usize) -> (r: Option<usize>)
        requires
            self.wf(),
            index < self.total_cells,
        ensures
            r == self.cells@[index as int].collapsed_domain,
    {
        self.cells[index].collapsed_domain
    }

    /// The current candidate domain of the cell at `index`.
    pub fn domain_values(&self, index: usize) -> (r: Vec<usize>)
        requires
            self.wf(),
            index < self.total_cells,
        ensures
            r@ == self.cells@[index as int].domain@,
    {
        copy_values(&self.cells[index].domain)
    }
}

/// `propagate` is idempotent while its neighborhood stands still: a grid
/// reached by propagating `index` once, and then again with every neighbor
/// domain unchanged in between, carries the same domain at `index` after
/// both runs. The two runs are given by the result clause of `propagate`'s
/// contract.
pub proof fn lemma_propagate_idempotent(g0: Grid, g1: Grid, g2: Grid, index: usize)
    requires
        g0.wf(),
        index < g0.total_cells,
        g1.same_shape(g0),
        g1.cells@.len() == g0.cells@.len(),
        forall|k: int|
            0 <= k < spec_neighbors(index, g0.cols, g0.total_cells).len()
                ==> g1.cells@[(#[trigger] spec_neighbors(index, g0.cols, g0.total_cells)[k]) as int]
                .domain@ == g0.cells@[spec_neighbors(index, g0.cols, g0.total_cells)[k] as int]
                .domain@,
        g1.cells@[index as int].domain@.to_set() == propagated_domain(g0, index),
        g2.cells@[index as int].domain@.to_set() == propagated_domain(g1, index),
    ensures
        g2.cells@[index as int].domain@.to_set() == g1.cells@[index as int].domain@.to_set(),
{
    let ns = spec_neighbors(index, g0.cols, g0.total_cells);
    assert forall|x: usize|
        propagated_domain(g1, index).contains(x) == propagated_domain(g0, index).contains(
            x,
        ) by {
        assert forall|k: int| 0 <= k < ns.len() implies reachable_from(
            g1.domain_rules@,
            g1.cells@[(#[trigger] ns[k]) as int].domain@,
        ).contains(x) == reachable_from(
            g0.domain_rules@,
            g0.cells@[ns[k] as int].domain@,
        ).contains(x) by {
            let n = ns[k] as int;
            let d1 = g1.cells@[n].domain@;
            let d0 = g0.cells@[n].domain@;
            assert(d1 == d0);
            assert forall|y: usize|
                reachable_from(g1.domain_rules@, d1).contains(y) == reachable_from(
                    g0.domain_rules@,
                    d0,
                ).contains(y) by {
                if reachable_from(g1.domain_rules@, d1).contains(y) {
                    let t = choose|t: int|
                        0 <= t < d1.len() && g1.domain_rules@[(#[trigger] d1[t]) as int]@.contains(
                            y,
                        );
                    assert(g0.domain_rules@[d0[t] as int]@ == g1.domain_rules@[d1[t] as int]@);
                    assert(reachable_from(g0.domain_rules@, d0).contains(y));
                }
                if reachable_from(g0.domain_rules@, d0).contains(y) {
                    let t = choose|t: int|
                        0 <= t < d0.len() && g0.domain_rules@[(#[trigger] d0[t]) as int]@.contains(
                            y,
                        );
                    assert(g1.domain_rules@[d1[t] as int]@ == g0.domain_rules@[d0[t] as int]@);
                    assert(reachable_from(g1.domain_rules@, d1).contains(y));
                }
            }
        }
    }
    assert(propagated_domain(g1, index) =~= propagated_domain(g0, index));
}

/// What a freshly propagated cell may still become respects each of its
/// neighbors: every candidate that `propagate` leaves at `c` is reachable,
/// through the rule table, from every neighbor's current domain. In
/// particular, when a neighbor is collapsed to a single value, every
/// candidate of `c` lies in that value's rule row.
pub proof fn lemma_propagated_domain_respects_neighbors(g: Grid, c: usize, k: int, x: usize)
    requires
        0 <= k < spec_neighbors(c, g.cols, g.total_cells).len(),
        propagated_domain(g, c).contains(x),
    ensures
        reachable_from(
            g.domain_rules@,
            g.cells@[spec_neighbors(c, g.cols, g.total_cells)[k] as int].domain@,
        ).contains(x),
{
}

/// `range` after `merge` round-trips: extracting the merged window gives
/// back every subgrid cell's payload, with only the ids renumbered. The
/// two steps are given by the result relations of `merge` and `range`.
pub proof fn lemma_merge_range_round_trip(
    g0: Grid,
    sub: Grid,
    g1: Grid,
    g2: Grid,
    ro: usize,
    co: usize,
)
    requires
        g0.wf(),
        sub.wf(),
        ro + sub.rows <= g0.rows,
        co + sub.cols <= g0.cols,
        merged(g0, sub, ro as int, co as int, g1),
        ranged(g1, ro as int, co as int, sub.rows as int, sub.cols as int, g2),
    ensures
        g2.cells@.len() == sub.cells@.len(),
        forall|i: int|
            0 <= i < sub.cells@.len() ==> same_payload(#[trigger] g2.cells@[i], sub.cells@[i]),
{
    assert(g2.cells@.len() == sub.cells@.len());
    assert forall|i: int|
        0 <= i < sub.cells@.len() implies same_payload(
        #[trigger] g2.cells@[i],
        sub.cells@[i],
    ) by {
        if sub.cols == 0 || sub.rows == 0 {
            assert(sub.rows * sub.cols == 0) by (nonlinear_arith)
                requires
                    sub.cols == 0 || sub.rows == 0,
            ;
        } else {
            lemma_row_major_bounds(i, sub.rows as int, sub.cols as int);
            let a = i / (sub.cols as int);
            let b = i % (sub.cols as int);
            lemma_row_major_index(ro + a, co + b, g0.rows as int, g0.cols as int);
            let t = (ro + a) * (g0.cols as int) + co + b;
            assert(same_cell(g2.cells@[i], g1.cells@[t]));
            assert(in_merge_window(t, g0.cols as int, sub.rows as int, sub.cols as int, ro as int, co as int));
            assert(same_payload(g1.cells@[t], sub.cells@[i]));
        }
    }
}

/// Relies on rayon: an indexed parallel iterator collected into a `Vec`
/// keeps index order, so slot `i` holds the cell built by `new_cell(i, ..)`.
#[verifier::external_body]
fn fresh_cells(count: usize, initial: &Vec<usize>) -> (r: Vec<Cell>)
    ensures
        r@.len() == count,
        forall|i: int|
            0 <= i < count ==> {
                &&& (#[trigger] r@[i]).id == i
                &&& r@[i].domain@ == initial@
                &&& r@[i].collapsed_domain is None
                &&& !r@[i].is_propagated
                &&& !r@[i].is_collapsed
            },
{
    (0..count).into_par_iter().map(|i| new_cell(i, copy_values(initial))).collect()
}

} // verus!
