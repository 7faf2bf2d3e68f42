use vstd::prelude::*;

use crate::grid::{
    clone_rules, lemma_row_major_bounds, lemma_row_major_index, merged, ranged, same_rules, Grid,
};
use crate::cell::{same_cell, same_payload};
use crate::rules_wf;
use crate::WfcError;

verus! {

/// A growing square terrain: the current side length, the rule table, and
/// the grid being collapsed.
pub struct Terrain {
    pub size: usize,
    pub rules: Vec<Vec<usize>>,
    pub grid: Grid,
}

/// Where the cell at row-major index `i` of a square grid of side
/// `old_size` lands after the grid is merged at offset (1, 1) into a grid
/// of side `old_size + 2`.
pub open spec fn expanded_index(i: int, old_size: int) -> int {
    (i / old_size + 1) * (old_size + 2) + (i % old_size + 1)
}

/// Where index `i` of a square grid of side `s` lands after `n`
/// expansions, each shifting the cell one row and one column inward.
pub open spec fn shifted_index(i: int, s: int, n: nat) -> int
    decreases n,
{
    if n == 0 {
        i
    } else {
        shifted_index(expanded_index(i, s), s + 2, (n - 1) as nat)
    }
}

/// Unrolling `shifted_index` from the far end: one more expansion shifts
/// the already-shifted position once more.
proof fn lemma_shifted_snoc(i: int, s: int, n: nat)
    ensures
        shifted_index(i, s, n + 1) == expanded_index(shifted_index(i, s, n), s + 2 * n),
    decreases n,
{
    if n == 0 {
        assert(shifted_index(i, s, 1) == shifted_index(expanded_index(i, s), s + 2, 0));
        assert(shifted_index(expanded_index(i, s), s + 2, 0) == expanded_index(i, s));
        assert(shifted_index(i, s, 0) == i);
    } else {
        lemma_shifted_snoc(expanded_index(i, s), s + 2, (n - 1) as nat);
        assert(shifted_index(i, s, n + 1) == shifted_index(expanded_index(i, s), s + 2, n));
        assert(shifted_index(i, s, n) == shifted_index(expanded_index(i, s), s + 2, (n - 1) as nat));
    }
}

/// The center cell `init` starts the collapse walk from.
pub open spec fn center_of(s: int) -> int {
    s * s / 2
}

/// How many expansions `init` performs toward a target side.
pub open spec fn growth_steps(start: int, target: int) -> nat {
    if target <= start {
        0
    } else {
        ((target - start + 1) / 2) as nat
    }
}

/// The side length after `init` has grown a terrain of side `start`
/// toward a target of `target`: `+2` per expansion, one expansion per two
/// missing cells of side, rounded up.
pub open spec fn grown_size(start: int, target: int) -> int {
    if target <= start {
        start
    } else {
        start + 2 * ((target - start + 1) / 2)
    }
}

/// How many expansions `Window` performs for a window that ends at row
/// `fr + rs` and column `fc + cs` of a terrain of side `size`.
pub open spec fn spec_window_growth(size: int, fr: int, rs: int, fc: int, cs: int) -> int {
    let dr = if fr + rs > size {
        fr + rs - size
    } else {
        0
    };
    let dc = if fc + cs > size {
        fc + cs - size
    } else {
        0
    };
    if dr > dc {
        dr
    } else {
        dc
    }
}

/// The transition a successful `expand` makes: the side grows by two, the
/// rule table is kept, and every collapsed cell carries its whole state to
/// its shifted position in the new grid.
pub open spec fn expand_step(t0: Terrain, t1: Terrain) -> bool {
    &&& t1.wf()
    &&& same_rules(t1.rules@, t0.rules@)
    &&& t1.size == t0.size + 2
    &&& forall|i: int|
        0 <= i < t0.grid.cells@.len() && (#[trigger] t0.grid.cells@[i]).is_collapsed ==> {
            let t = expanded_index(i, t0.size as int);
            &&& 0 <= t < t1.grid.cells@.len()
            &&& t1.grid.cells@[t].is_collapsed
            &&& t1.grid.cells@[t].collapsed_domain == t0.grid.cells@[i].collapsed_domain
            &&& t1.grid.cells@[t].domain@ == t0.grid.cells@[i].domain@
        }
}

/// A chain of successful expansions: each terrain in `steps` is reached
/// from its predecessor by one `expand_step`.
pub open spec fn expansion_chain(t0: Terrain, steps: Seq<Terrain>, t1: Terrain) -> bool {
    &&& steps.len() >= 1
    &&& steps[0] == t0
    &&& steps.last() == t1
    &&& forall|i: int| 0 <= i < steps.len() - 1 ==> expand_step(#[trigger] steps[i], steps[i + 1])
}

/// `t1` is reached from `t0` by exactly `n` successful expansions.
pub open spec fn expansions_rel(t0: Terrain, n: nat, t1: Terrain) -> bool {
    exists|steps: Seq<Terrain>| steps.len() == n + 1 && #[trigger] expansion_chain(t0, steps, t1)
}

impl Terrain {
    /// The terrain invariant: a well-formed square grid of the current
    /// side, driven by this terrain's rule table.
    pub open spec fn wf(self) -> bool {
        &&& self.grid.wf()
        &&& self.grid.rows == self.size
        &&& self.grid.cols == self.size
        &&& same_rules(self.grid.domain_rules@, self.rules@)
        &&& rules_wf(self.rules@)
        &&& self.grid.max_domains == self.rules@.len()
    }

    /// A terrain of side `size` whose cells all start fully unconstrained.
    pub fn new(size: usize, rules: Vec<Vec<usize>>) -> (t: Terrain)
        requires
            rules_wf(rules@),
            size * size <= usize::MAX,
        ensures
            t.wf(),
            t.size == size,
            same_rules(t.rules@, rules@),
            t.grid.total_cells == size * size,
            forall|i: int|
                0 <= i < t.grid.cells@.len() ==> {
                    &&& (#[trigger] t.grid.cells@[i]).id == i
                    &&& t.grid.cells@[i].domain@ == crate::grid::full_domain(rules@.len() as int)
                    &&& t.grid.cells@[i].collapsed_domain is None
                    &&& !t.grid.cells@[i].is_collapsed
                    &&& !t.grid.cells@[i].is_propagated
                },
    {
        let grules = clone_rules(&rules);
        Terrain { size, rules, grid: Grid::new(size, size, grules) }
    }

    /// Grows the terrain by a one-cell border ring: merges the current
    /// grid at offset (1, 1) into a fresh grid two larger, propagates the
    /// single representative border cell at index 1, resumes the collapse
    /// walk from that cell into the ring, and installs the new grid. Every
    /// previously collapsed cell keeps its value at its shifted position.
    /// On failure the terrain is left exactly as it was. The walk may
    /// dead-end before the whole new ring is collapsed.
    pub fn expand(&mut self) -> (r: Result<(), WfcError>)
        requires
            old(self).wf(),
            (old(self).size + 2) * (old(self).size + 2) <= usize::MAX,
        ensures
            final(self).wf(),
            same_rules(final(self).rules@, old(self).rules@),
            r is Ok ==> expand_step(*old(self), *final(self)),
            r is Err ==> *final(self) == *old(self),
            r matches Err(e) ==> e is EmptyDomainCollapse,
    {
        proof {
            assert(self.size + 2 <= (self.size + 2) * (self.size + 2)) by (nonlinear_arith)
                requires
                    self.size >= 0,
            ;
        }
        let new_size = self.size + 2;
        let mut grid = Grid::new(new_size, new_size, clone_rules(&self.rules));
        let ghost g_fresh = grid;
        let snapshot = self.grid.clone();
        let ghost sub = snapshot;
        grid.merge(snapshot, 1, 1);
        let ghost g_merged = grid;
        proof {
            assert(1 < grid.total_cells) by (nonlinear_arith)
                requires
                    grid.total_cells == new_size * new_size,
                    new_size >= 2,
            ;
        }
        grid.propagate(1);
        let ghost g_propagated = grid;
        match grid.build(1) {
            Err(e) => {
                return Err(e);
            },
            Ok(_u) => {},
        }
        proof {
            let osize = old(self).size as int;
            let ocells = old(self).grid.cells@;
            assert forall|i: int|
                0 <= i < ocells.len() && (#[trigger] ocells[i]).is_collapsed implies {
                let t = expanded_index(i, osize);
                &&& 0 <= t < grid.cells@.len()
                &&& grid.cells@[t].is_collapsed
                &&& grid.cells@[t].collapsed_domain == ocells[i].collapsed_domain
                &&& grid.cells@[t].domain@ == ocells[i].domain@
            } by {
                assert(ocells.len() == osize * osize);
                lemma_row_major_bounds(i, osize, osize);
                let a = i / osize;
                let b = i % osize;
                lemma_row_major_index(a + 1, b + 1, osize + 2, osize + 2);
                let t = (a + 1) * (osize + 2) + (b + 1);
                assert(t == expanded_index(i, osize));
                assert(merged(g_fresh, sub, 1, 1, g_merged));
                assert(same_payload(g_merged.cells@[t], sub.cells@[i]));
                assert(same_payload(g_merged.cells@[t], ocells[i]));
                assert(t != 1) by (nonlinear_arith)
                    requires
                        t == (a + 1) * (osize + 2) + (b + 1),
                        a >= 0,
                        b >= 0,
                        osize >= 1,
                ;
                assert(same_cell(g_propagated.cells@[t], g_merged.cells@[t]));
                assert(same_cell(grid.cells@[t], g_propagated.cells@[t]));
            }
        }
        self.grid = grid;
        self.size = new_size;
        Ok(())
    }

    /// Expansion with a guaranteed fully-collapsed result: the plain walk
    /// of `expand` may dead-end with part of the new border ring still
    /// open, so this mode finishes by resuming the walk from every cell
    /// left uncollapsed. Previously collapsed cells keep their values at
    /// their shifted positions.
    pub fn expand_full(&mut self) -> (r: Result<(), WfcError>)
        requires
            old(self).wf(),
            (old(self).size + 2) * (old(self).size + 2) <= usize::MAX,
        ensures
            final(self).wf(),
            same_rules(final(self).rules@, old(self).rules@),
            r is Ok ==> expand_step(*old(self), *final(self))
                && final(self).grid.spec_all_collapsed(),
            r is Err ==> *final(self) == *old(self) || expand_step(*old(self), *final(self)),
            r matches Err(e) ==> e is EmptyDomainCollapse,
    {
        match self.expand() {
            Err(e) => {
                return Err(e);
            },
            Ok(_u) => {},
        }
        let r = self.grid.collapse_remaining();
        match r {
            Err(e) => Err(e),
            Ok(_u) => Ok(()),
        }
    }

    /// Runs the collapse walk from the center cell of the current grid,
    /// then expands toward the target side length, two cells at a time,
    /// until the side is at least `size`. Collapse begins centrally and
    /// propagates outward before any expansion. Halts with the first
    /// contradiction the walk reaches.
    pub fn init(&mut self, size: usize) -> (r: Result<(), WfcError>)
        requires
            old(self).wf(),
            size > old(self).size ==> (size + 1) * (size + 1) <= usize::MAX,
        ensures
            final(self).wf(),
            same_rules(final(self).rules@, old(self).rules@),
            r is Ok ==> final(self).size == grown_size(old(self).size as int, size as int),
            r is Ok ==> forall|i: int|
                0 <= i < old(self).grid.cells@.len() && (
                #[trigger] old(self).grid.cells@[i]).is_collapsed ==> {
                    let t = shifted_index(
                        i,
                        old(self).size as int,
                        growth_steps(old(self).size as int, size as int),
                    );
                    &&& 0 <= t < final(self).grid.cells@.len()
                    &&& final(self).grid.cells@[t].is_collapsed
                    &&& final(self).grid.cells@[t].collapsed_domain == old(
                        self,
                    ).grid.cells@[i].collapsed_domain
                },
            r is Ok && !old(self).grid.spec_all_collapsed() && old(self).grid.cells@[center_of(
                old(self).size as int,
            )].domain@.len() > 0 ==> {
                let t = shifted_index(
                    center_of(old(self).size as int),
                    old(self).size as int,
                    growth_steps(old(self).size as int, size as int),
                );
                &&& 0 <= t < final(self).grid.cells@.len()
                &&& final(self).grid.cells@[t].is_collapsed
                &&& (final(self).grid.cells@[t].collapsed_domain matches Some(v) && old(
                    self,
                ).grid.cells@[center_of(old(self).size as int) as int].domain@.contains(v))
            },
            r matches Err(e) ==> e is EmptyDomainCollapse,
    {
        proof {
            assert(self.size * self.size == self.grid.total_cells);
            if self.grid.total_cells > 0 {
                assert(self.size * self.size / 2 < self.size * self.size) by (nonlinear_arith)
                    requires
                        self.size * self.size > 0,
                ;
            }
        }
        let center = self.size * self.size / 2;
        match self.grid.build(center) {
            Err(e) => {
                return Err(e);
            },
            Ok(_u) => {},
        }
        proof {
            if size > self.size {
                assert(size + 1 <= (size + 1) * (size + 1)) by (nonlinear_arith)
                    requires
                        size >= 0,
                ;
            }
        }
        let loop_count = if size > self.size {
            (size - self.size + 1) / 2
        } else {
            0
        };
        let ghost base = self.size as int;
        let ghost target = size as int;
        let mut n: usize = 0;
        while n < loop_count
            invariant
                self.wf(),
                same_rules(self.rules@, old(self).rules@),
                base == old(self).size as int,
                n <= loop_count,
                loop_count == (if target <= base {
                    0int
                } else {
                    (target - base + 1) / 2
                }),
                self.size == base + 2 * n,
                forall|i: int|
                    0 <= i < old(self).grid.cells@.len() && (
                    #[trigger] old(self).grid.cells@[i]).is_collapsed ==> {
                        let t = shifted_index(i, base, n as nat);
                        &&& 0 <= t < self.grid.cells@.len()
                        &&& self.grid.cells@[t].is_collapsed
                        &&& self.grid.cells@[t].collapsed_domain == old(
                            self,
                        ).grid.cells@[i].collapsed_domain
                    },
                !old(self).grid.spec_all_collapsed() && old(self).grid.cells@[center_of(
                    base,
                )].domain@.len() > 0 ==> {
                    let t = shifted_index(center_of(base), base, n as nat);
                    &&& 0 <= t < self.grid.cells@.len()
                    &&& self.grid.cells@[t].is_collapsed
                    &&& (self.grid.cells@[t].collapsed_domain matches Some(v) && old(
                        self,
                    ).grid.cells@[center_of(base) as int].domain@.contains(v))
                },
                loop_count > 0 ==> target > base,
                target > base ==> base + 2 * loop_count <= target + 1,
                target > base ==> (target + 1) * (target + 1) <= usize::MAX,
            decreases loop_count - n,
        {
            proof {
                assert((self.size + 2) * (self.size + 2) <= (target + 1) * (target + 1))
                    by (nonlinear_arith)
                    requires
                        0 <= self.size + 2 <= target + 1,
                ;
            }
            let ghost pre_expand = *self;
            let ghost n_prev = n as nat;
            match self.expand() {
                Err(e) => {
                    return Err(e);
                },
                Ok(_u) => {},
            }
            n += 1;
            proof {
                assert(expand_step(pre_expand, *self));
                assert forall|i: int|
                    0 <= i < old(self).grid.cells@.len() && (
                    #[trigger] old(self).grid.cells@[i]).is_collapsed implies {
                    let t = shifted_index(i, base, n as nat);
                    &&& 0 <= t < self.grid.cells@.len()
                    &&& self.grid.cells@[t].is_collapsed
                    &&& self.grid.cells@[t].collapsed_domain == old(
                        self,
                    ).grid.cells@[i].collapsed_domain
                } by {
                    lemma_shifted_snoc(i, base, n_prev);
                    let t_old = shifted_index(i, base, n_prev);
                    assert(pre_expand.grid.cells@[t_old].is_collapsed);
                }
                if !old(self).grid.spec_all_collapsed() && old(self).grid.cells@[center_of(
                    base,
                )].domain@.len() > 0 {
                    lemma_shifted_snoc(center_of(base), base, n_prev);
                    let t_old = shifted_index(center_of(base), base, n_prev);
                    assert(pre_expand.grid.cells@[t_old].is_collapsed);
                }
            }
        }
        Ok(())
    }
}

/// Expands `terrain` until the requested window fits inside its grid,
/// then extracts that window with `range`.
#[allow(non_snake_case)]
pub fn Window(
    terrain: Terrain,
    from_row: usize,
    from_col: usize,
    row_size: usize,
    col_size: usize,
) -> (r: Result<Grid, WfcError>)
    requires
        terrain.wf(),
        from_row + row_size <= usize::MAX,
        from_col + col_size <= usize::MAX,
        (terrain.size + 2 * spec_window_growth(
            terrain.size as int,
            from_row as int,
            row_size as int,
            from_col as int,
            col_size as int,
        )) * (terrain.size + 2 * spec_window_growth(
            terrain.size as int,
            from_row as int,
            row_size as int,
            from_col as int,
            col_size as int,
        )) <= usize::MAX,
    ensures
        r is Ok ==> r->Ok_0.wf() && r->Ok_0.rows == row_size && r->Ok_0.cols == col_size,
        r is Ok ==> exists|g: Terrain|
            #[trigger] expansions_rel(
                terrain,
                spec_window_growth(
                    terrain.size as int,
                    from_row as int,
                    row_size as int,
                    from_col as int,
                    col_size as int,
                ) as nat,
                g,
            ) && ranged(
                g.grid,
                from_row as int,
                from_col as int,
                row_size as int,
                col_size as int,
                r->Ok_0,
            ),
        from_row + row_size <= terrain.size && from_col + col_size <= terrain.size ==> r is Ok
            && ranged(
            terrain.grid,
            from_row as int,
            from_col as int,
            row_size as int,
            col_size as int,
            r->Ok_0,
        ),
        r matches Err(e) ==> e is EmptyDomainCollapse,
{
    let ghost t0 = terrain;
    let ghost growth = spec_window_growth(
        terrain.size as int,
        from_row as int,
        row_size as int,
        from_col as int,
        col_size as int,
    );
    let mut grown = terrain;
    let diff_row = if from_row + row_size > grown.size {
        from_row + row_size - grown.size
    } else {
        0
    };
    let diff_col = if from_col + col_size > grown.size {
        from_col + col_size - grown.size
    } else {
        0
    };
    let diff = if diff_row > diff_col {
        diff_row
    } else {
        diff_col
    };
    let ghost base = grown.size as int;
    let ghost mut steps: Seq<Terrain> = seq![terrain];
    let mut n: usize = 0;
    while n < diff
        invariant
            grown.wf(),
            n <= diff,
            diff == growth,
            t0 == terrain,
            base == t0.size,
            grown.size == base + 2 * n,
            (base + 2 * growth) * (base + 2 * growth) <= usize::MAX,
            n == 0 ==> grown == t0,
            steps.len() == n + 1,
            steps[0] == t0,
            steps.last() == grown,
            forall|i: int| 0 <= i < steps.len() - 1 ==> expand_step(#[trigger] steps[i], steps[i + 1]),
            from_row + row_size <= base + diff,
            from_col + col_size <= base + diff,
            diff > 0 ==> from_row + row_size > base || from_col + col_size > base,
        decreases diff - n,
    {
        proof {
            assert((grown.size + 2) * (grown.size + 2) <= (base + 2 * growth) * (base + 2
                * growth)) by (nonlinear_arith)
                requires
                    0 <= grown.size + 2 <= base + 2 * growth,
            ;
        }
        let ghost pre_expand = grown;
        let ghost n_prev = n as nat;
        match grown.expand() {
            Err(e) => {
                return Err(e);
            },
            Ok(_u) => {},
        }
        n += 1;
        proof {
            assert(expand_step(pre_expand, grown));
            let steps_prev = steps;
            steps = steps.push(grown);
            assert(steps.last() == grown);
            assert forall|i: int|
                0 <= i < steps.len() - 1 implies expand_step(#[trigger] steps[i], steps[i + 1]) by {
                if i < steps_prev.len() - 1 {
                    assert(steps[i] == steps_prev[i]);
                    assert(steps[i + 1] == steps_prev[i + 1]);
                } else {
                    assert(steps[i] == pre_expand);
                    assert(steps[i + 1] == grown);
                }
            }
        }
    }
    proof {
        assert(from_row + row_size <= grown.size);
        assert(from_col + col_size <= grown.size);
        assert(expansion_chain(t0, steps, grown));
        assert(expansions_rel(t0, growth as nat, grown));
    }
    match grown.grid.range(from_row, from_col, row_size, col_size) {
        Ok(g) => {
            proof {
                assert(ranged(
                    grown.grid,
                    from_row as int,
                    from_col as int,
                    row_size as int,
                    col_size as int,
                    g,
                ));
            }
            Ok(g)
        },
        Err(e) => {
            proof {
                assert(false);
            }
            Err(e)
        },
    }
}

} // verus!
