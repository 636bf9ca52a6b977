//! The constraint of the queens problem: no two queens on a board attack
//! each other. A variable is a column, its value the row of its queen.
use crate::csp::{agree_on, well_behaved, Constraint};
use std::collections::HashMap;
use vstd::prelude::*;
use vstd::std_specs::hash::*;

verus! {

broadcast use vstd::std_specs::hash::group_hash_axioms;

/// The columns whose queens must not attack each other.
#[derive(Clone, Debug)]
pub struct QueensConstraint {
    pub columns: Vec<i32>,
}

/// The distance between two numbers.
pub open spec fn distance(a: int, b: int) -> int {
    if a <= b {
        b - a
    } else {
        a - b
    }
}

/// The queens in the columns `c1` and `c2` stand in one row or on one diagonal.
pub open spec fn attack(assignment: Map<i32, i32>, c1: int, c2: int) -> bool {
    let r1 = assignment[c1 as i32];
    let r2 = assignment[c2 as i32];
    r1 == r2 || distance(r1 as int, r2 as int) == distance(c1, c2)
}

impl QueensConstraint {
    /// No queen of one of the first `upto` columns of the constraint
    /// attacks a queen in a column to its right, before `before` and no
    /// further right than there are columns.
    pub open spec fn peaceful(&self, assignment: Map<i32, i32>, upto: int, before: int) -> bool {
        forall|i: int, c2: int|
            #![trigger self.columns@[i], assignment.contains_key(c2 as i32)]
            0 <= i < self.columns@.len() && self.columns@[i] < c2 <= self.columns@.len() && c2 <= i32::MAX
                && assignment.contains_key(self.columns@[i]) && assignment.contains_key(c2 as i32) && (i < upto
                || (i == upto && c2 < before)) ==> !attack(assignment, self.columns@[i] as int, c2)
    }

    /// The columns are numbered from one on.
    pub open spec fn standard(&self) -> bool {
        &&& self.columns@.len() <= i32::MAX
        &&& forall|i: int| 0 <= i < self.columns@.len() ==> #[trigger] self.columns@[i] == i + 1
    }

    /// Where the columns are numbered from one on, the constraint looks at
    /// them only, and holds of every part of a placement that it holds of.
    pub proof fn lemma_well_behaved(self)
        requires
            self.standard(),
        ensures
            well_behaved::<i32, i32, QueensConstraint>(self),
    {
        assert forall|a: Map<i32, i32>, b: Map<i32, i32>| agree_on(self.scope(), a, b) implies #[trigger] self.holds(
            a,
        ) == #[trigger] self.holds(b) by {
            assert(agree_on(self.scope(), b, a));
            if self.holds(a) {
                self.lemma_agree(a, b);
            }
            if self.holds(b) {
                self.lemma_agree(b, a);
            }
        }
        assert forall|a: Map<i32, i32>, b: Map<i32, i32>| #[trigger] self.holds(a) && b.submap_of(a) implies #[trigger] self.holds(
            b,
        ) by {
            assert forall|i: int, c2: int|
                #![trigger self.columns@[i], b.contains_key(c2 as i32)]
                0 <= i < self.columns@.len() && self.columns@[i] < c2 <= self.columns@.len() && c2 <= i32::MAX
                    && b.contains_key(self.columns@[i]) && b.contains_key(c2 as i32) implies !attack(
                b,
                self.columns@[i] as int,
                c2,
            ) by {
                assert(a.contains_key(self.columns@[i]) && a.contains_key(c2 as i32));
                assert(!attack(a, self.columns@[i] as int, c2));
            }
        }
    }

    /// What holds of one placement holds of another that agrees with it on
    /// the columns.
    proof fn lemma_agree(self, a: Map<i32, i32>, b: Map<i32, i32>)
        requires
            self.standard(),
            agree_on(self.scope(), a, b),
            self.holds(a),
        ensures
            self.holds(b),
    {
        assert forall|i: int, c2: int|
            #![trigger self.columns@[i], b.contains_key(c2 as i32)]
            0 <= i < self.columns@.len() && self.columns@[i] < c2 <= self.columns@.len() && c2 <= i32::MAX
                && b.contains_key(self.columns@[i]) && b.contains_key(c2 as i32) implies !attack(
            b,
            self.columns@[i] as int,
            c2,
        ) by {
            let c1 = self.columns@[i];
            assert(self.scope()[i] == c1);
            assert(self.columns@[c2 - 1] == c2);
            assert(self.scope()[c2 - 1] == c2 as i32);
            assert(a.contains_key(c1) && a.contains_key(c2 as i32));
            assert(!attack(a, c1 as int, c2));
        }
    }
}

impl Constraint<i32, i32> for QueensConstraint {
    open spec fn scope(&self) -> Seq<i32> {
        self.columns@
    }

    open spec fn holds(&self, assignment: Map<i32, i32>) -> bool {
        self.peaceful(assignment, self.columns@.len() as int, i32::MIN as int)
    }

    fn variables(&self) -> (vars: Vec<i32>) {
        self.columns.clone()
    }

    fn is_satisfied(&self, assignment: &HashMap<i32, i32>) -> (ok: bool) {
        let count = self.columns.len();
        let mut i: usize = 0;
        while i < count
            invariant
                0 <= i <= count,
                count == self.columns@.len(),
                self.peaceful(assignment@, i as int, i32::MIN as int),
            decreases count - i,
        {
            let q1c: i32 = self.columns[i];
            match assignment.get(&q1c) {
                None => {},
                Some(first_row) => {
                    let q1r: i32 = *first_row;
                    let mut q2: i64 = q1c as i64 + 1;
                    while q2 <= i32::MAX as i64 && (q2 <= 0 || (q2 as usize) <= count)
                        invariant
                            0 <= i < count,
                            count == self.columns@.len(),
                            q1c == self.columns@[i as int],
                            assignment@.contains_key(q1c),
                            assignment@[q1c] == q1r,
                            q1c < q2 <= i32::MAX + 1,
                            self.peaceful(assignment@, i as int, q2 as int),
                        decreases i32::MAX + 1 - q2,
                    {
                        let q2c: i32 = q2 as i32;
                        match assignment.get(&q2c) {
                            None => {},
                            Some(second_row) => {
                                let q2r: i32 = *second_row;
                                let rows: i64 = if q1r <= q2r {
                                    q2r as i64 - q1r as i64
                                } else {
                                    q1r as i64 - q2r as i64
                                };
                                let columns: i64 = q2 - q1c as i64;
                                if q1r == q2r || rows == columns {
                                    assert(attack(assignment@, self.columns@[i as int] as int, q2 as int));
                                    assert(assignment@.contains_key(q2 as i32));
                                    return false;
                                }
                            },
                        }
                        q2 += 1;
                    }
                },
            }
            i += 1;
        }
        true
    }
}

} // verus!
