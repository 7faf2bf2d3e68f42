use vstd::prelude::*;

pub mod cell;
pub mod grid;
pub mod random;
pub mod terrain;

verus! {

/// The defects that the solver reports instead of panicking.
#[derive(Clone, Copy, Debug, PartialEq, Eq, Structural)]
pub enum WfcError {
    /// A collapse was asked of a cell whose candidate domain is empty;
    /// the payload names the offending cell id.
    EmptyDomainCollapse(usize),
    /// A requested window exceeds the grid's extent.
    OutOfBoundsRequest,
}

/// Every value that a rule row mentions names another row of the table.
pub open spec fn rules_wf(rules: Seq<Vec<usize>>) -> bool {
    forall|i: int, j: int|
        0 <= i < rules.len() && 0 <= j < rules[i]@.len() ==> rules[i]@[j] < rules.len()
}

/// Checks that every domain value referenced by the table is below the
/// table's length, handing the table back only when that holds.
pub fn build_rule_table(rules: Vec<Vec<usize>>) -> (r: Option<Vec<Vec<usize>>>)
    ensures
        r is Some <==> rules_wf(rules@),
        r is Some ==> r->0@ == rules@,
{
    let n = rules.len();
    let mut i: usize = 0;
    while i < n
        invariant
            i <= n,
            n == rules@.len(),
            forall|a: int, b: int|
                0 <= a < i && 0 <= b < rules@[a]@.len() ==> rules@[a]@[b] < n,
        decreases n - i,
    {
        let row = &rules[i];
        let mut j: usize = 0;
        while j < row.len()
            invariant
                j <= row@.len(),
                n == rules@.len(),
                i < n,
                row@ == rules@[i as int]@,
                forall|b: int| 0 <= b < j ==> row@[b] < n,
            decreases row@.len() - j,
        {
            if row[j] >= n {
                return None;
            }
            j += 1;
        }
        i += 1;
    }
    Some(rules)
}

} // verus!
