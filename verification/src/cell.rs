use vstd::prelude::*;

use crate::random::random_below;
use crate::WfcError;

verus! {

/// One grid slot: the candidate domain values it may still become, plus its
/// collapse and propagation flags.
#[derive(Debug)]
pub struct Cell {
    pub id: usize,
    pub domain: Vec<usize>,
    pub collapsed_domain: Option<usize>,
    pub is_propagated: bool,
    pub is_collapsed: bool,
}

/// No value occurs twice.
pub open spec fn no_dups(s: Seq<usize>) -> bool {
    forall|i: int, j: int| 0 <= i < j < s.len() ==> s[i] != s[j]
}

/// The fields that carry the cell's solver state; everything but the id.
pub open spec fn same_payload(a: Cell, b: Cell) -> bool {
    &&& a.domain@ == b.domain@
    &&& a.collapsed_domain == b.collapsed_domain
    &&& a.is_propagated == b.is_propagated
    &&& a.is_collapsed == b.is_collapsed
}

/// Equal id and equal payload.
pub open spec fn same_cell(a: Cell, b: Cell) -> bool {
    a.id == b.id && same_payload(a, b)
}

impl Cell {
    /// The domain stays inside `{0..max-1}` without repeats, and a collapsed
    /// cell holds exactly its committed value and counts as propagated.
    pub open spec fn wf(self, max: int) -> bool {
        &&& no_dups(self.domain@)
        &&& forall|k: int| 0 <= k < self.domain@.len() ==> self.domain@[k] < max
        &&& self.is_collapsed ==> self.domain@.len() == 1
        &&& self.is_collapsed ==> self.collapsed_domain == Some(self.domain@[0])
        &&& self.is_collapsed ==> self.is_propagated
    }

    /// Commits the cell to one candidate chosen at random from its current
    /// domain; irreversible. A cell with no candidates left reports
    /// `EmptyDomainCollapse` and stays as it was.
    pub fn collapse(&mut self) -> (r: Result<(), WfcError>)
        ensures
            final(self).id == old(self).id,
            old(self).domain@.len() == 0 ==> r == Err::<(), WfcError>(
                WfcError::EmptyDomainCollapse(old(self).id),
            ) && same_cell(*final(self), *old(self)),
            old(self).domain@.len() > 0 ==> {
                &&& r is Ok
                &&& final(self).is_collapsed
                &&& final(self).is_propagated
                &&& final(self).domain@.len() == 1
                &&& old(self).domain@.contains(final(self).domain@[0])
                &&& final(self).collapsed_domain == Some(final(self).domain@[0])
            },
    {
        if self.domain.len() == 0 {
            return Err(WfcError::EmptyDomainCollapse(self.id));
        }
        let random_index = random_below(self.domain.len());
        let picked = self.domain[random_index];
        self.is_collapsed = true;
        self.is_propagated = true;
        self.collapsed_domain = Some(picked);
        let mut single: Vec<usize> = Vec::new();
        single.push(picked);
        self.domain = single;
        Ok(())
    }
}

/// A fresh, fully unconstrained cell over the given candidate values.
pub fn new_cell(id: usize, initial_domains: Vec<usize>) -> (c: Cell)
    ensures
        c.id == id,
        c.domain@ == initial_domains@,
        c.collapsed_domain is None,
        !c.is_propagated,
        !c.is_collapsed,
{
    Cell {
        id,
        domain: initial_domains,
        collapsed_domain: None,
        is_propagated: false,
        is_collapsed: false,
    }
}

/// An element-for-element copy of a vector of domain values.
pub(crate) fn copy_values(v: &Vec<usize>) -> (r: Vec<usize>)
    ensures
        r@ == v@,
{
    let mut r: Vec<usize> = Vec::new();
    let mut i: usize = 0;
    while i < v.len()
        invariant
            i <= v@.len(),
            r@ == v@.take(i as int),
        decreases v@.len() - i,
    {
        r.push(v[i]);
        proof {
            assert(v@.take(i + 1) =~= v@.take(i as int).push(v@[i as int]));
        }
        i += 1;
    }
    proof {
        assert(v@.take(v@.len() as int) =~= v@);
    }
    r
}

impl Clone for Cell {
    /// A copy that carries the same id and payload.
    fn clone(&self) -> (r: Self)
        ensures
            same_cell(r, *self),
    {
        Cell {
            id: self.id,
            domain: copy_values(&self.domain),
            collapsed_domain: self.collapsed_domain,
            is_propagated: self.is_propagated,
            is_collapsed: self.is_collapsed,
        }
    }
}

} // verus!
