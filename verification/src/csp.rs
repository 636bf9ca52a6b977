//! A constraint-satisfaction problem over finite domains, solved by
//! chronological backtracking.
use std::collections::HashMap;
use std::hash::Hash;
use vstd::prelude::*;
use vstd::std_specs::hash::*;

verus! {

broadcast use vstd::std_specs::hash::group_hash_axioms;

/// What the solver needs of a variable type: hashing and equality agree with
/// mathematical equality, and a clone equals what it was cloned from.
pub open spec fn lawful_variable<V: Clone>() -> bool {
    &&& obeys_key_model::<V>()
    &&& forall|a: V, b: V| #[trigger] cloned(a, b) ==> a == b
}

/// A clone of a value of this type equals what it was cloned from.
pub open spec fn lawful_clone<X: Clone>() -> bool {
    forall|a: X, b: X| #[trigger] cloned(a, b) ==> a == b
}

/// A rule over some of the variables of a problem. The problem at hand says
/// which variables the rule names and when an assignment meets it.
pub trait Constraint<V, D> {
    /// The variables that the rule names.
    spec fn scope(&self) -> Seq<V>;

    /// Whether `assignment` meets the rule.
    spec fn holds(&self, assignment: Map<V, D>) -> bool;

    fn variables(&self) -> (vars: Vec<V>)
        ensures
            vars@ == self.scope(),
    ;

    fn is_satisfied(&self, assignment: &HashMap<V, D>) -> (ok: bool)
        ensures
            ok == self.holds(assignment@),
    ;
}

/// A problem: its variables in the order in which they are assigned, the
/// candidate values of each in the order in which they are tried, and for
/// each variable the constraints that name it.
pub struct CSP<V, D, C> where C: Constraint<V, D> {
    pub variables: Vec<V>,
    pub domains: HashMap<V, Vec<D>>,
    pub constraints: HashMap<V, Vec<C>>,
}

/// The list of a variable's constraints after `c` was attached to each
/// occurrence of the variable in `scope`.
pub open spec fn attached<V, C>(list: Seq<C>, scope: Seq<V>, v: V, c: C) -> Seq<C>
    decreases scope.len(),
{
    if scope.len() == 0 {
        list
    } else if scope.last() == v {
        attached(list, scope.drop_last(), v, c).push(c)
    } else {
        attached(list, scope.drop_last(), v, c)
    }
}

/// Attaching keeps what was in the list, adds nothing but `c`, and adds `c`
/// where `scope` names the variable.
pub proof fn lemma_attached<V, C>(list: Seq<C>, scope: Seq<V>, v: V, c: C)
    ensures
        forall|i: int| 0 <= i < list.len() ==> attached(list, scope, v, c).contains(#[trigger] list[i]),
        forall|i: int|
            0 <= i < attached(list, scope, v, c).len() ==> list.contains(#[trigger] attached(list, scope, v, c)[i])
                || attached(list, scope, v, c)[i] == c,
        scope.contains(v) ==> attached(list, scope, v, c).contains(c),
    decreases scope.len(),
{
    if scope.len() > 0 {
        let rest = scope.drop_last();
        let shorter = attached(list, rest, v, c);
        let longer = attached(list, scope, v, c);
        lemma_attached(list, rest, v, c);
        if scope.last() == v {
            assert(longer == shorter.push(c));
            assert(longer[shorter.len() as int] == c);
            assert forall|i: int| 0 <= i < list.len() implies longer.contains(#[trigger] list[i]) by {
                let k = choose|k: int| 0 <= k < shorter.len() && shorter[k] == list[i];
                assert(longer[k] == list[i]);
            }
        } else {
            if scope.contains(v) {
                let k = choose|k: int| 0 <= k < scope.len() && scope[k] == v;
                assert(rest[k] == v);
            }
        }
    } else {
        assert forall|i: int| 0 <= i < list.len() implies attached(list, scope, v, c).contains(
            #[trigger] list[i],
        ) by {
            assert(attached(list, scope, v, c)[i] == list[i]);
        }
    }
}

/// The position of the first variable at or after `from` that `assignment`
/// leaves open, or the number of variables if there is none.
pub open spec fn first_unassigned<V, D>(variables: Seq<V>, assignment: Map<V, D>, from: int) -> int
    decreases variables.len() - from,
{
    if from < 0 || from >= variables.len() {
        variables.len() as int
    } else if !assignment.contains_key(variables[from]) {
        from
    } else {
        first_unassigned(variables, assignment, from + 1)
    }
}

/// The scan for an open variable answers with a position at or after its
/// start, before which everything is assigned.
pub proof fn lemma_first_unassigned<V, D>(variables: Seq<V>, assignment: Map<V, D>, from: int)
    requires
        0 <= from <= variables.len(),
    ensures
        from <= first_unassigned(variables, assignment, from) <= variables.len(),
        forall|i: int|
            from <= i < first_unassigned(variables, assignment, from) ==> assignment.contains_key(
                #[trigger] variables[i],
            ),
        first_unassigned(variables, assignment, from) < variables.len() ==> !assignment.contains_key(
            variables[first_unassigned(variables, assignment, from)],
        ),
    decreases variables.len() - from,
{
    if from < variables.len() && assignment.contains_key(variables[from]) {
        lemma_first_unassigned(variables, assignment, from + 1);
    }
}

/// Assigning the first open variable moves the scan forward.
pub proof fn lemma_scan_advances<V, D>(variables: Seq<V>, assignment: Map<V, D>, value: D)
    requires
        first_unassigned(variables, assignment, 0) < variables.len(),
    ensures
        first_unassigned(
            variables,
            assignment.insert(variables[first_unassigned(variables, assignment, 0)], value),
            0,
        ) > first_unassigned(variables, assignment, 0),
{
    let k = first_unassigned(variables, assignment, 0);
    lemma_first_unassigned(variables, assignment, 0);
    let local = assignment.insert(variables[k], value);
    lemma_scan_from(variables, local, 0, k + 1);
    lemma_first_unassigned(variables, local, k + 1);
}

/// Where everything between `from` and `to` is assigned, the scan from
/// `from` answers as the scan from `to` does.
pub proof fn lemma_scan_from<V, D>(variables: Seq<V>, assignment: Map<V, D>, from: int, to: int)
    requires
        0 <= from <= to <= variables.len(),
        forall|i: int| from <= i < to ==> assignment.contains_key(#[trigger] variables[i]),
    ensures
        first_unassigned(variables, assignment, from) == first_unassigned(variables, assignment, to),
    decreases to - from,
{
    if from < to {
        lemma_scan_from(variables, assignment, from + 1, to);
    }
}

/// A copy of `x`, equal to it where clones of its type are.
fn duplicate<X: Clone>(x: &X) -> (r: X)
    ensures
        lawful_clone::<X>() ==> r == *x,
{
    let r = x.clone();
    assert(cloned(*x, r));
    r
}

impl<V, D, C> CSP<V, D, C> where C: Constraint<V, D> {
    /// Every variable has a list of candidate values and a list of
    /// constraints, and no other variable has a list of constraints.
    pub open spec fn wf(&self) -> bool {
        &&& forall|i: int|
            0 <= i < self.variables@.len() ==> self.domains@.contains_key(#[trigger] self.variables@[i])
        &&& forall|v: V| #[trigger] self.constraints@.contains_key(v) <==> self.variables@.contains(v)
    }

    /// Every constraint attached to `variable` holds of `assignment`.
    pub open spec fn consistent_at(&self, variable: V, assignment: Map<V, D>) -> bool {
        self.constraints@.contains_key(variable) ==> forall|i: int|
            0 <= i < self.constraints@[variable]@.len() ==> (#[trigger] self.constraints@[variable]@[i]).holds(
                assignment,
            )
    }

    /// The candidate values of the variable at position `k`, none if it has
    /// no entry.
    pub open spec fn candidates(&self, k: int) -> Seq<D> {
        if 0 <= k < self.variables@.len() && self.domains@.contains_key(self.variables@[k]) {
            self.domains@[self.variables@[k]]@
        } else {
            Seq::empty()
        }
    }

    /// What the search answers for `assignment` when the candidate values
    /// before position `j` of its first open variable have been ruled out:
    /// the assignment itself if it has as many entries as there are
    /// variables; otherwise what the search answers for the first candidate
    /// from `j` on that is consistent and for which it answers at all.
    pub open spec fn search_from(&self, assignment: Map<V, D>, j: int) -> Option<Map<V, D>>
        decreases
            self.variables@.len() - first_unassigned(self.variables@, assignment, 0),
            self.candidates(first_unassigned(self.variables@, assignment, 0)).len() - j,
    {
        let k = first_unassigned(self.variables@, assignment, 0);
        if assignment.len() == self.variables@.len() {
            Some(assignment)
        } else if j < 0 || j >= self.candidates(k).len() {
            None
        } else {
            let local = assignment.insert(self.variables@[k], self.candidates(k)[j]);
            proof {
                lemma_first_unassigned(self.variables@, assignment, 0);
                lemma_scan_advances(self.variables@, assignment, self.candidates(k)[j]);
                lemma_first_unassigned(self.variables@, local, 0);
            }
            if self.consistent_at(self.variables@[k], local) && self.search_from(local, 0).is_some() {
                self.search_from(local, 0)
            } else {
                self.search_from(assignment, j + 1)
            }
        }
    }
}

/// The two assignments give the variables of `scope` the same values, and
/// leave the same ones open.
pub open spec fn agree_on<V, D>(scope: Seq<V>, a: Map<V, D>, b: Map<V, D>) -> bool {
    forall|i: int|
        0 <= i < scope.len() ==> (a.contains_key(#[trigger] scope[i]) <==> b.contains_key(scope[i])) && (
        a.contains_key(scope[i]) ==> a[scope[i]] == b[scope[i]])
}

/// The constraint looks at the variables it names and at nothing else, and
/// it holds of every part of an assignment that it holds of.
pub open spec fn well_behaved<V, D, C: Constraint<V, D>>(c: C) -> bool {
    &&& forall|a: Map<V, D>, b: Map<V, D>|
        agree_on(c.scope(), a, b) ==> #[trigger] c.holds(a) == #[trigger] c.holds(b)
    &&& forall|a: Map<V, D>, b: Map<V, D>| #[trigger] c.holds(a) && b.submap_of(a) ==> #[trigger] c.holds(b)
}

/// The constraint holds as long as one of the variables it names is open.
pub open spec fn vacuous_while_open<V, D, C: Constraint<V, D>>(c: C) -> bool {
    forall|a: Map<V, D>, i: int|
        0 <= i < c.scope().len() && !a.contains_key(#[trigger] c.scope()[i]) ==> #[trigger] c.holds(a)
}

/// A constraint that looks at the variables it names only, and holds as
/// long as one of them is open, is well behaved.
pub proof fn lemma_vacuous_is_well_behaved<V, D, C: Constraint<V, D>>(c: C)
    requires
        forall|a: Map<V, D>, b: Map<V, D>|
            agree_on(c.scope(), a, b) ==> #[trigger] c.holds(a) == #[trigger] c.holds(b),
        vacuous_while_open(c),
    ensures
        well_behaved(c),
{
    assert forall|a: Map<V, D>, b: Map<V, D>| #[trigger] c.holds(a) && b.submap_of(a) implies #[trigger] c.holds(
        b,
    ) by {
        if forall|i: int| 0 <= i < c.scope().len() ==> b.contains_key(#[trigger] c.scope()[i]) {
            assert forall|i: int| 0 <= i < c.scope().len() implies (a.contains_key(#[trigger] c.scope()[i])
                <==> b.contains_key(c.scope()[i])) && (a.contains_key(c.scope()[i]) ==> a[c.scope()[i]]
                == b[c.scope()[i]]) by {
                assert(b.contains_key(c.scope()[i]));
            }
            assert(agree_on(c.scope(), a, b));
        } else {
            let i = choose|i: int| 0 <= i < c.scope().len() && !b.contains_key(#[trigger] c.scope()[i]);
            assert(c.holds(b));
        }
    }
}

impl<V, D, C> CSP<V, D, C> where C: Constraint<V, D> {
    /// The first `k` variables.
    pub open spec fn prefix(&self, k: int) -> Set<V> {
        Set::new(|v: V| exists|i: int| 0 <= i < k && i < self.variables@.len() && self.variables@[i] == v)
    }

    /// Every assigned value is a candidate value of its variable.
    pub open spec fn within_domains(&self, a: Map<V, D>) -> bool {
        forall|v: V| #[trigger]
            a.contains_key(v) ==> self.domains@.contains_key(v) && self.domains@[v]@.contains(a[v])
    }

    /// Every constraint attached to a variable holds of `a`.
    pub open spec fn satisfies_all(&self, a: Map<V, D>) -> bool {
        forall|v: V, i: int|
            self.constraints@.contains_key(v) && 0 <= i < self.constraints@[v]@.len() ==> (
            #[trigger] self.constraints@[v]@[i]).holds(a)
    }

    /// `a` assigns a candidate value to every variable, and to nothing
    /// else, and every attached constraint holds of it.
    pub open spec fn is_solution(&self, a: Map<V, D>) -> bool {
        &&& forall|v: V| #[trigger] a.contains_key(v) <==> self.variables@.contains(v)
        &&& self.within_domains(a)
        &&& self.satisfies_all(a)
    }

    /// No variable is listed twice, every variable has its two lists, and
    /// every attached constraint is well behaved, names variables of the
    /// problem only and is attached to each of them.
    pub open spec fn well_posed(&self) -> bool {
        &&& self.variables@.no_duplicates()
        &&& self.wf()
        &&& forall|v: V, i: int|
            self.constraints@.contains_key(v) && 0 <= i < self.constraints@[v]@.len() ==> {
                let c = #[trigger] self.constraints@[v]@[i];
                &&& well_behaved(c)
                &&& forall|m: int|
                    0 <= m < c.scope().len() ==> self.variables@.contains(#[trigger] c.scope()[m])
                        && self.constraints@[c.scope()[m]]@.contains(c)
            }
    }

    /// `a` assigns candidate values to the first `k` variables and to
    /// nothing else, and each of them was consistent when it was assigned.
    pub open spec fn prefix_ok(&self, a: Map<V, D>, k: int) -> bool {
        &&& 0 <= k <= self.variables@.len()
        &&& a.dom() == self.prefix(k)
        &&& self.within_domains(a)
        &&& forall|i: int|
            0 <= i < k ==> self.consistent_at(#[trigger] self.variables@[i], a.restrict(self.prefix(i + 1)))
    }

    /// The first `k` of the variables are `k` in number.
    pub proof fn lemma_prefix_len(&self, k: int)
        requires
            self.variables@.no_duplicates(),
            0 <= k <= self.variables@.len(),
        ensures
            self.prefix(k).finite(),
            self.prefix(k).len() == k,
    {
        let head = self.variables@.take(k);
        assert(head.no_duplicates());
        head.unique_seq_to_set();
        vstd::seq_lib::seq_to_set_is_finite(head);
        assert(head.to_set() =~= self.prefix(k)) by {
            assert forall|v: V| head.to_set().contains(v) <==> self.prefix(k).contains(v) by {
                if head.to_set().contains(v) {
                    let i = choose|i: int| 0 <= i < head.len() && head[i] == v;
                    assert(self.variables@[i] == v);
                }
                if self.prefix(k).contains(v) {
                    let i = choose|i: int| 0 <= i < k && i < self.variables@.len() && self.variables@[i] == v;
                    assert(head[i] == v);
                }
            }
        }
    }

    /// With the first `k` variables assigned and nothing else, the first
    /// open variable is the one at position `k`.
    pub proof fn lemma_prefix_scan(&self, a: Map<V, D>, k: int)
        requires
            self.variables@.no_duplicates(),
            0 <= k <= self.variables@.len(),
            a.dom() == self.prefix(k),
        ensures
            first_unassigned(self.variables@, a, 0) == k,
            a.dom().finite(),
            a.len() == k,
    {
        self.lemma_prefix_len(k);
        assert forall|i: int| 0 <= i < k implies a.contains_key(#[trigger] self.variables@[i]) by {
            assert(self.prefix(k).contains(self.variables@[i]));
        }
        lemma_scan_from(self.variables@, a, 0, k);
        if k < self.variables@.len() {
            if a.contains_key(self.variables@[k]) {
                assert(self.prefix(k).contains(self.variables@[k]));
            }
        }
    }

    /// What the search answers for the first `k` variables assigned
    /// consistently assigns every variable, each consistently.
    pub proof fn lemma_search_sound(&self, assignment: Map<V, D>, j: int, k: int)
        requires
            self.well_posed(),
            self.prefix_ok(assignment, k),
            self.search_from(assignment, j).is_some(),
        ensures
            self.prefix_ok(self.search_from(assignment, j).unwrap(), self.variables@.len() as int),
        decreases self.variables@.len() - k, self.candidates(k).len() - j,
    {
        self.lemma_prefix_scan(assignment, k);
        if assignment.len() != self.variables@.len() {
            let value = self.candidates(k)[j];
            let name = self.variables@[k];
            let local = assignment.insert(name, value);
            if self.consistent_at(name, local) && self.search_from(local, 0).is_some() {
                assert(local.dom() =~= self.prefix(k + 1)) by {
                    assert(self.prefix(k + 1).contains(name));
                }
                assert forall|i: int| 0 <= i < k + 1 implies self.consistent_at(
                    #[trigger] self.variables@[i],
                    local.restrict(self.prefix(i + 1)),
                ) by {
                    if i < k {
                        if self.prefix(i + 1).contains(name) {
                            let m = choose|m: int| 0 <= m < i + 1 && m < self.variables@.len() && self.variables@[m] == name;
                            assert(m == k);
                        }
                        assert(local.restrict(self.prefix(i + 1)) =~= assignment.restrict(self.prefix(i + 1)));
                    } else {
                        assert(local.restrict(self.prefix(k + 1)) =~= local);
                    }
                }
                assert(self.within_domains(local)) by {
                    assert(self.domains@[name]@[j] == value);
                }
                self.lemma_search_sound(local, 0, k + 1);
            } else {
                self.lemma_search_sound(assignment, j + 1, k);
            }
        }
    }

    /// A constraint attached to the variable at position `at` holds of what
    /// a consistently built assignment gives the first `upto` variables.
    pub proof fn lemma_holds_upward(&self, a: Map<V, D>, c: C, at: int, upto: int)
        requires
            self.well_posed(),
            self.prefix_ok(a, self.variables@.len() as int),
            0 <= at < upto <= self.variables@.len(),
            self.constraints@[self.variables@[at]]@.contains(c),
        ensures
            c.holds(a.restrict(self.prefix(upto))),
        decreases upto - at,
    {
        let owner = self.variables@[at];
        assert(self.variables@.contains(owner));
        assert(self.constraints@.contains_key(owner));
        let i = choose|i: int| 0 <= i < self.constraints@[owner]@.len() && self.constraints@[owner]@[i] == c;
        assert(self.constraints@[owner]@[i] == c);
        assert(well_behaved(c));
        if upto == at + 1 {
            assert(self.consistent_at(owner, a.restrict(self.prefix(at + 1))));
        } else {
            self.lemma_holds_upward(a, c, at, upto - 1);
            let last = self.variables@[upto - 1];
            assert(self.variables@.contains(last));
            if c.scope().contains(last) {
                let m = choose|m: int| 0 <= m < c.scope().len() && c.scope()[m] == last;
                assert(self.constraints@[c.scope()[m]]@.contains(c));
                let n = choose|n: int| 0 <= n < self.constraints@[last]@.len() && self.constraints@[last]@[n] == c;
                assert(self.consistent_at(last, a.restrict(self.prefix(upto))));
                assert(self.constraints@[last]@[n].holds(a.restrict(self.prefix(upto))));
            } else {
                let lower = a.restrict(self.prefix(upto - 1));
                let upper = a.restrict(self.prefix(upto));
                assert forall|m: int| 0 <= m < c.scope().len() implies (lower.contains_key(
                    #[trigger] c.scope()[m],
                ) <==> upper.contains_key(c.scope()[m])) && (lower.contains_key(c.scope()[m])
                    ==> lower[c.scope()[m]] == upper[c.scope()[m]]) by {
                    let x = c.scope()[m];
                    assert(c.scope().contains(x));
                    if self.prefix(upto).contains(x) {
                        let q = choose|q: int| 0 <= q < upto && q < self.variables@.len() && self.variables@[q] == x;
                        assert(q != upto - 1);
                        assert(self.prefix(upto - 1).contains(x));
                    }
                    if self.prefix(upto - 1).contains(x) {
                        assert(self.prefix(upto).contains(x));
                    }
                }
                assert(agree_on(c.scope(), lower, upper));
            }
        }
    }

    /// An assignment of every variable that was built consistently is a solution.
    pub proof fn lemma_built_is_solution(&self, a: Map<V, D>)
        requires
            self.well_posed(),
            self.prefix_ok(a, self.variables@.len() as int),
        ensures
            self.is_solution(a),
    {
        let n = self.variables@.len() as int;
        assert forall|v: V| #[trigger] a.contains_key(v) <==> self.variables@.contains(v) by {
            assert(a.contains_key(v) <==> self.prefix(n).contains(v));
        }
        assert(a.restrict(self.prefix(n)) =~= a);
        assert forall|v: V, i: int|
            self.constraints@.contains_key(v) && 0 <= i < self.constraints@[v]@.len() implies (
        #[trigger] self.constraints@[v]@[i]).holds(a) by {
            let c = self.constraints@[v]@[i];
            assert(self.variables@.contains(v));
            let at = choose|at: int| 0 <= at < self.variables@.len() && self.variables@[at] == v;
            assert(self.constraints@[self.variables@[at]]@.contains(c));
            self.lemma_holds_upward(a, c, at, n);
        }
    }

    /// Where a solution exists and `assignment` is its part over the first
    /// `k` variables, the search answers, provided the solution's value for
    /// the next variable is among the candidates from `j` on.
    pub proof fn lemma_search_complete(&self, solution: Map<V, D>, assignment: Map<V, D>, j: int, k: int)
        requires
            self.well_posed(),
            self.is_solution(solution),
            0 <= k <= self.variables@.len(),
            0 <= j,
            assignment == solution.restrict(self.prefix(k)),
            k < self.variables@.len() ==> exists|at: int|
                j <= at < self.candidates(k).len() && #[trigger] self.candidates(k)[at]
                    == solution[self.variables@[k]],
        ensures
            self.search_from(assignment, j).is_some(),
        decreases self.variables@.len() - k, self.candidates(k).len() - j,
    {
        assert(assignment.dom() =~= self.prefix(k)) by {
            assert forall|v: V| self.prefix(k).contains(v) implies solution.contains_key(v) by {
                let i = choose|i: int| 0 <= i < k && i < self.variables@.len() && self.variables@[i] == v;
                assert(self.variables@.contains(v));
            }
        }
        self.lemma_prefix_scan(assignment, k);
        if assignment.len() != self.variables@.len() {
            let name = self.variables@[k];
            let value = self.candidates(k)[j];
            let local = assignment.insert(name, value);
            let at = choose|at: int|
                j <= at < self.candidates(k).len() && #[trigger] self.candidates(k)[at] == solution[name];
            assert(self.variables@.contains(name));
            if value == solution[name] {
                assert(local =~= solution.restrict(self.prefix(k + 1))) by {
                    assert(self.prefix(k + 1).contains(name));
                    assert forall|v: V| self.prefix(k + 1).contains(v) && v != name implies self.prefix(
                        k,
                    ).contains(v) by {
                        let i = choose|i: int| 0 <= i < k + 1 && i < self.variables@.len() && self.variables@[i] == v;
                        assert(i < k);
                    }
                }
                assert(self.consistent_at(name, local)) by {
                    assert forall|i: int| 0 <= i < self.constraints@[name]@.len() implies (
                    #[trigger] self.constraints@[name]@[i]).holds(local) by {
                        let c = self.constraints@[name]@[i];
                        assert(well_behaved(c));
                        assert(c.holds(solution));
                        assert(local.submap_of(solution));
                    }
                }
                if k + 1 < self.variables@.len() {
                    let next = self.variables@[k + 1];
                    assert(self.variables@.contains(next));
                    assert(solution.contains_key(next));
                    assert(self.domains@[next]@.contains(solution[next]));
                    let q = choose|q: int| 0 <= q < self.domains@[next]@.len() && self.domains@[next]@[q] == solution[next];
                    assert(self.candidates(k + 1)[q] == solution[next]);
                }
                self.lemma_search_complete(solution, local, 0, k + 1);
            } else {
                assert(at != j);
                assert(self.candidates(k)[at] == solution[self.variables@[k]]);
                self.lemma_search_complete(solution, assignment, j + 1, k);
            }
        }
    }

    /// What the search from nothing finds is a solution.
    pub proof fn lemma_found_is_solution(&self)
        requires
            self.well_posed(),
            self.search_from(Map::empty(), 0).is_some(),
        ensures
            self.is_solution(self.search_from(Map::empty(), 0).unwrap()),
    {
        let nothing = Map::<V, D>::empty();
        assert(nothing.dom() =~= self.prefix(0));
        self.lemma_search_sound(nothing, 0, 0);
        self.lemma_built_is_solution(self.search_from(nothing, 0).unwrap());
    }

    /// Where a solution exists, the search from nothing finds one.
    pub proof fn lemma_solvable_is_found(&self, solution: Map<V, D>)
        requires
            self.well_posed(),
            self.is_solution(solution),
        ensures
            self.search_from(Map::empty(), 0).is_some(),
    {
        let nothing = Map::<V, D>::empty();
        assert(nothing =~= solution.restrict(self.prefix(0)));
        if 0 < self.variables@.len() {
            let first = self.variables@[0];
            assert(self.variables@.contains(first));
            assert(solution.contains_key(first));
            assert(self.domains@[first]@.contains(solution[first]));
            let q = choose|q: int| 0 <= q < self.domains@[first]@.len() && self.domains@[first]@[q] == solution[first];
            assert(self.candidates(0)[q] == solution[first]);
        }
        self.lemma_search_complete(solution, nothing, 0, 0);
    }
}

/// The view of what a search returned.
pub open spec fn view_of<V, D>(result: Option<HashMap<V, D>>) -> Option<Map<V, D>> {
    match result {
        Some(found) => Some(found@),
        None => None,
    }
}

impl<V, D, C> CSP<V, D, C> where V: Clone + Hash + Eq, D: Clone, C: Clone + Constraint<V, D> {
    /// A problem over `variables` with the candidate values `domains` and no
    /// constraint yet. Fails if a variable has no entry in `domains`.
    pub fn new(variables: Vec<V>, domains: HashMap<V, Vec<D>>) -> (result: Result<Self, &'static str>)
        requires
            lawful_variable::<V>(),
        ensures
            result.is_ok() <==> forall|i: int|
                0 <= i < variables@.len() ==> domains@.contains_key(#[trigger] variables@[i]),
            match result {
                Ok(csp) => {
                    &&& csp.variables == variables
                    &&& csp.domains == domains
                    &&& csp.wf()
                    &&& forall|v: V| #[trigger]
                        csp.constraints@.contains_key(v) ==> csp.constraints@[v]@.len() == 0
                    &&& variables@.no_duplicates() ==> csp.well_posed()
                },
                Err(message) => message@ == "Every variable should have a domain assigned to it."@,
            },
    {
        let mut constraints = HashMap::<V, Vec<C>>::new();
        let mut i: usize = 0;
        while i < variables.len()
            invariant
                lawful_variable::<V>(),
                0 <= i <= variables@.len(),
                forall|k: int| 0 <= k < i ==> domains@.contains_key(#[trigger] variables@[k]),
                forall|v: V| #[trigger]
                    constraints@.contains_key(v) <==> exists|k: int| 0 <= k < i && variables@[k] == v,
                forall|v: V| #[trigger] constraints@.contains_key(v) ==> constraints@[v]@.len() == 0,
            decreases variables@.len() - i,
        {
            if !domains.contains_key(&variables[i]) {
                return Err("Every variable should have a domain assigned to it.");
            }
            let ghost before = constraints@;
            constraints.insert(duplicate(&variables[i]), Vec::new());
            proof {
                let added = variables@[i as int];
                assert forall|v: V| #[trigger] constraints@.contains_key(v) <==> exists|k: int|
                    0 <= k < i + 1 && variables@[k] == v by {
                    if constraints@.contains_key(v) {
                        if v != added {
                            assert(before.contains_key(v));
                            let k = choose|k: int| 0 <= k < i && variables@[k] == v;
                            assert(0 <= k < i + 1 && variables@[k] == v);
                        } else {
                            assert(variables@[i as int] == v);
                        }
                    }
                    if exists|k: int| 0 <= k < i + 1 && variables@[k] == v {
                        let k = choose|k: int| 0 <= k < i + 1 && variables@[k] == v;
                        if k < i {
                            assert(before.contains_key(v));
                        }
                    }
                }
            }
            i += 1;
        }
        Ok(Self { variables, domains, constraints })
    }

    /// Attaches `constraint` to every variable that it names, once for each
    /// time it names it. Fails, and changes nothing, if it names a variable
    /// that the problem does not have.
    pub fn add_constraint(&mut self, constraint: C) -> (result: Result<(), &'static str>)
        requires
            lawful_variable::<V>(),
            old(self).wf(),
        ensures
            result.is_ok() <==> forall|i: int|
                0 <= i < constraint.scope().len() ==> old(self).variables@.contains(
                    #[trigger] constraint.scope()[i],
                ),
            final(self).variables == old(self).variables,
            final(self).domains == old(self).domains,
            final(self).wf(),
            match result {
                Ok(_) => forall|v: V| #[trigger]
                    final(self).constraints@.contains_key(v) ==> {
                        &&& final(self).constraints@[v]@.len() == attached(
                            old(self).constraints@[v]@,
                            constraint.scope(),
                            v,
                            constraint,
                        ).len()
                        &&& lawful_clone::<C>() ==> final(self).constraints@[v]@ == attached(
                            old(self).constraints@[v]@,
                            constraint.scope(),
                            v,
                            constraint,
                        )
                    },
                Err(message) => {
                    &&& final(self).constraints == old(self).constraints
                    &&& message@ == "Variable in constraint is not in CSP"@
                },
            },
            old(self).well_posed() && well_behaved(constraint) && lawful_clone::<C>() ==> final(self).well_posed(),
    {
        let names = constraint.variables();
        let mut i: usize = 0;
        while i < names.len()
            invariant
                lawful_variable::<V>(),
                self.wf(),
                *self == *old(self),
                names@ == constraint.scope(),
                0 <= i <= names@.len(),
                forall|k: int| 0 <= k < i ==> self.variables@.contains(#[trigger] names@[k]),
            decreases names@.len() - i,
        {
            if !self.constraints.contains_key(&names[i]) {
                assert(!self.variables@.contains(constraint.scope()[i as int]));
                return Err("Variable in constraint is not in CSP");
            }
            i += 1;
        }
        let ghost before = self.constraints@;
        let mut i: usize = 0;
        while i < names.len()
            invariant
                lawful_variable::<V>(),
                0 <= i <= names@.len(),
                names@ == constraint.scope(),
                self.variables == old(self).variables,
                self.domains == old(self).domains,
                before == old(self).constraints@,
                forall|v: V| #[trigger] self.constraints@.contains_key(v) <==> before.contains_key(v),
                forall|v: V| #[trigger]
                    self.constraints@.contains_key(v) ==> {
                        &&& self.constraints@[v]@.len() == attached(
                            before[v]@,
                            names@.take(i as int),
                            v,
                            constraint,
                        ).len()
                        &&& lawful_clone::<C>() ==> self.constraints@[v]@ == attached(
                            before[v]@,
                            names@.take(i as int),
                            v,
                            constraint,
                        )
                    },
            decreases names@.len() - i,
        {
            let ghost earlier = self.constraints@;
            let ghost name = names@[i as int];
            proof {
                assert(names@.take(i + 1).drop_last() =~= names@.take(i as int));
                assert(names@.take(i + 1).last() == name);
            }
            let taken = self.constraints.remove(&names[i]);
            if let Some(mut list) = taken {
                list.push(duplicate(&constraint));
                self.constraints.insert(duplicate(&names[i]), list);
                proof {
                    assert forall|v: V| #[trigger] self.constraints@.contains_key(v) implies {
                        &&& self.constraints@[v]@.len() == attached(
                            before[v]@,
                            names@.take(i + 1),
                            v,
                            constraint,
                        ).len()
                        &&& lawful_clone::<C>() ==> self.constraints@[v]@ == attached(
                            before[v]@,
                            names@.take(i + 1),
                            v,
                            constraint,
                        )
                    } by {
                        assert(earlier.contains_key(v));
                        if v != name {
                            assert(self.constraints@[v] == earlier[v]);
                        }
                    }
                }
            } else {
                proof {
                    assert(self.constraints@ =~= earlier);
                    assert forall|v: V| #[trigger] self.constraints@.contains_key(v) implies v != name by {}
                }
            }
            i += 1;
        }
        proof {
            assert(names@.take(names@.len() as int) =~= names@);
            if old(self).well_posed() && well_behaved(constraint) && lawful_clone::<C>() {
                let scope = constraint.scope();
                assert forall|v: V, i: int|
                    self.constraints@.contains_key(v) && 0 <= i < self.constraints@[v]@.len() implies {
                    let c = #[trigger] self.constraints@[v]@[i];
                    &&& well_behaved(c)
                    &&& forall|m: int|
                        0 <= m < c.scope().len() ==> self.variables@.contains(#[trigger] c.scope()[m])
                            && self.constraints@[c.scope()[m]]@.contains(c)
                } by {
                    let c = self.constraints@[v]@[i];
                    lemma_attached(before[v]@, scope, v, constraint);
                    assert(self.constraints@[v]@ == attached(before[v]@, scope, v, constraint));
                    if c != constraint {
                        let at = choose|at: int| 0 <= at < before[v]@.len() && before[v]@[at] == c;
                        assert(before[v]@[at] == c);
                    }
                    assert forall|m: int| 0 <= m < c.scope().len() implies self.variables@.contains(
                        #[trigger] c.scope()[m],
                    ) && self.constraints@[c.scope()[m]]@.contains(c) by {
                        let u = c.scope()[m];
                        assert(self.variables@.contains(u));
                        assert(self.constraints@.contains_key(u));
                        lemma_attached(before[u]@, scope, u, constraint);
                        assert(self.constraints@[u]@ == attached(before[u]@, scope, u, constraint));
                        if c == constraint {
                            assert(scope.contains(u));
                        } else {
                            assert(before[u]@.contains(c));
                            let at = choose|at: int| 0 <= at < before[u]@.len() && before[u]@[at] == c;
                            assert(attached(before[u]@, scope, u, constraint).contains(before[u]@[at]));
                        }
                    }
                }
            }
        }
        Ok(())
    }

    /// Whether every constraint attached to `variable` holds of `assignment`.
    pub fn is_consistent(&self, variable: V, assignment: &HashMap<V, D>) -> (ok: bool)
        requires
            lawful_variable::<V>(),
        ensures
            ok == self.consistent_at(variable, assignment@),
    {
        match self.constraints.get(&variable) {
            None => true,
            Some(list) => {
                let mut i: usize = 0;
                while i < list.len()
                    invariant
                        0 <= i <= list@.len(),
                        self.constraints@.contains_key(variable),
                        self.constraints@[variable] == *list,
                        forall|k: int| 0 <= k < i ==> (#[trigger] list@[k]).holds(assignment@),
                    decreases list@.len() - i,
                {
                    if !list[i].is_satisfied(assignment) {
                        assert(!self.constraints@[variable]@[i as int].holds(assignment@));
                        return false;
                    }
                    i += 1;
                }
                true
            },
        }
    }

    /// The position of the first variable that `assignment` leaves open.
    fn first_open(&self, assignment: &HashMap<V, D>) -> (k: usize)
        requires
            lawful_variable::<V>(),
        ensures
            k == first_unassigned(self.variables@, assignment@, 0),
    {
        let mut k: usize = 0;
        while k < self.variables.len() && assignment.contains_key(&self.variables[k])
            invariant
                lawful_variable::<V>(),
                0 <= k <= self.variables@.len(),
                first_unassigned(self.variables@, assignment@, 0) == first_unassigned(
                    self.variables@,
                    assignment@,
                    k as int,
                ),
            decreases self.variables@.len() - k,
        {
            assert(first_unassigned(self.variables@, assignment@, k as int) == first_unassigned(
                self.variables@,
                assignment@,
                k + 1,
            ));
            k += 1;
        }
        k
    }

    /// Extends `assignment` to one with as many entries as there are
    /// variables: the first open variable takes its candidate values in
    /// turn, each is kept only if every constraint attached to the variable
    /// holds, and the search goes on with the next open variable. When no
    /// value of a variable leads anywhere, the variable before it takes its
    /// next value.
    pub fn backtracking_search_with_assignment(&self, assignment: HashMap<V, D>) -> (result: Option<
        HashMap<V, D>,
    >)
        requires
            lawful_variable::<V>(),
            lawful_clone::<D>(),
        ensures
            view_of(result) == self.search_from(assignment@, 0),
        decreases self.variables@.len() - first_unassigned(self.variables@, assignment@, 0),
    {
        if assignment.len() == self.variables.len() {
            return Some(assignment);
        }
        let k = self.first_open(&assignment);
        if k >= self.variables.len() {
            return None;
        }
        match self.domains.get(&self.variables[k]) {
            None => None,
            Some(values) => {
                let mut j: usize = 0;
                while j < values.len()
                    invariant
                        lawful_variable::<V>(),
                        lawful_clone::<D>(),
                        0 <= j <= values@.len(),
                        k == first_unassigned(self.variables@, assignment@, 0),
                        k < self.variables@.len(),
                        assignment@.len() != self.variables@.len(),
                        values@ == self.candidates(k as int),
                        self.search_from(assignment@, 0) == self.search_from(assignment@, j as int),
                    decreases values@.len() - j,
                {
                    let mut local_assignment = assignment.clone();
                    local_assignment.insert(duplicate(&self.variables[k]), duplicate(&values[j]));
                    if self.is_consistent(duplicate(&self.variables[k]), &local_assignment) {
                        proof {
                            lemma_scan_advances(self.variables@, assignment@, values@[j as int]);
                            lemma_first_unassigned(self.variables@, local_assignment@, 0);
                        }
                        let result = self.backtracking_search_with_assignment(local_assignment);
                        if result.is_some() {
                            return result;
                        }
                    }
                    j += 1;
                }
                None
            },
        }
    }

    /// Searches for an assignment of every variable, starting from none.
    pub fn backtracking_search(&self) -> (result: Option<HashMap<V, D>>)
        requires
            lawful_variable::<V>(),
            lawful_clone::<D>(),
        ensures
            view_of(result) == self.search_from(Map::empty(), 0),
            self.well_posed() ==> match result {
                Some(found) => self.is_solution(found@),
                None => forall|a: Map<V, D>| !self.is_solution(a),
            },
    {
        proof {
            if self.well_posed() {
                if self.search_from(Map::empty(), 0).is_some() {
                    self.lemma_found_is_solution();
                } else {
                    assert forall|a: Map<V, D>| !self.is_solution(a) by {
                        if self.is_solution(a) {
                            self.lemma_solvable_is_found(a);
                        }
                    }
                }
            }
        }
        self.backtracking_search_with_assignment(HashMap::new())
    }
}

} // verus!
