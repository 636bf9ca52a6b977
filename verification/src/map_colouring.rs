//! The constraint of map colouring: two places that share a border take
//! different colours. Places and colours are numbered.
use crate::csp::{
    agree_on, attached, lawful_clone, lemma_attached, lemma_vacuous_is_well_behaved, well_behaved, Constraint, CSP,
};
use std::collections::HashMap;
use vstd::prelude::*;
use vstd::std_specs::hash::*;

verus! {

broadcast use vstd::std_specs::hash::group_hash_axioms;

/// Two places that must not take the same colour.
#[derive(Clone, Copy, Debug)]
pub struct MapColouringConstraint {
    pub place_1: u32,
    pub place_2: u32,
}

impl MapColouringConstraint {
    pub fn new(place_1: u32, place_2: u32) -> (constraint: Self)
        ensures
            constraint.place_1 == place_1,
            constraint.place_2 == place_2,
    {
        Self { place_1, place_2 }
    }

    /// The constraint looks at its two places only, and holds while one of
    /// them has no colour.
    pub proof fn lemma_well_behaved(self)
        ensures
            well_behaved::<u32, u32, MapColouringConstraint>(self),
    {
        assert forall|a: Map<u32, u32>, b: Map<u32, u32>| agree_on(self.scope(), a, b) implies #[trigger] self.holds(
            a,
        ) == #[trigger] self.holds(b) by {
            assert(self.scope()[0] == self.place_1);
            assert(self.scope()[1] == self.place_2);
        }
        assert forall|a: Map<u32, u32>, i: int|
            0 <= i < self.scope().len() && !a.contains_key(#[trigger] self.scope()[i]) implies #[trigger] self.holds(
            a,
        ) by {}
        lemma_vacuous_is_well_behaved::<u32, u32, MapColouringConstraint>(self);
    }
}

impl Constraint<u32, u32> for MapColouringConstraint {
    open spec fn scope(&self) -> Seq<u32> {
        seq![self.place_1, self.place_2]
    }

    open spec fn holds(&self, assignment: Map<u32, u32>) -> bool {
        assignment.contains_key(self.place_1) && assignment.contains_key(self.place_2)
            ==> assignment[self.place_1] != assignment[self.place_2]
    }

    fn variables(&self) -> (vars: Vec<u32>) {
        let mut vars = Vec::new();
        vars.push(self.place_1);
        vars.push(self.place_2);
        proof {
            assert(vars@ =~= self.scope());
        }
        vars
    }

    fn is_satisfied(&self, assignment: &HashMap<u32, u32>) -> (ok: bool) {
        let colour_1 = assignment.get(&self.place_1);
        let colour_2 = assignment.get(&self.place_2);
        match (colour_1, colour_2) {
            (Some(a), Some(b)) => *a != *b,
            _ => true,
        }
    }
}

/// `a` gives every place, and nothing else, one of the colours, and the two
/// places of every border different ones.
pub open spec fn proper_colouring(
    places: Seq<u32>,
    colours: Seq<u32>,
    borders: Seq<(u32, u32)>,
    a: Map<u32, u32>,
) -> bool {
    &&& forall|p: u32| #[trigger] a.contains_key(p) <==> places.contains(p)
    &&& forall|p: u32| #[trigger] a.contains_key(p) ==> colours.contains(a[p])
    &&& forall|i: int| 0 <= i < borders.len() ==> a[(#[trigger] borders[i]).0] != a[borders[i].1]
}

/// The constraint of the border at position `j`.
pub open spec fn border_constraint(borders: Seq<(u32, u32)>, j: int) -> MapColouringConstraint {
    MapColouringConstraint { place_1: borders[j].0, place_2: borders[j].1 }
}

/// The problem holds the constraints of the first `upto` borders and no
/// others, each attached to its first place.
pub open spec fn holds_borders(
    csp: CSP<u32, u32, MapColouringConstraint>,
    borders: Seq<(u32, u32)>,
    upto: int,
) -> bool {
    &&& forall|v: u32, k: int|
        #![trigger csp.constraints@[v]@[k]]
        csp.constraints@.contains_key(v) && 0 <= k < csp.constraints@[v]@.len() ==> exists|j: int|
            0 <= j < upto && csp.constraints@[v]@[k] == #[trigger] border_constraint(borders, j)
    &&& forall|j: int|
        0 <= j < upto ==> {
            &&& csp.variables@.contains((#[trigger] borders[j]).0)
            &&& csp.variables@.contains(borders[j].1)
            &&& csp.constraints@[borders[j].0]@.contains(border_constraint(borders, j))
        }
}

/// Colours the places of a map so that the two places of every border
/// differ, if that can be done with the colours given. Fails if a border
/// names a place that is not among `places`.
pub fn colour_map(places: Vec<u32>, colours: Vec<u32>, borders: Vec<(u32, u32)>) -> (result: Result<
    Option<HashMap<u32, u32>>,
    &'static str,
>)
    requires
        places@.no_duplicates(),
    ensures
        result.is_ok() <==> forall|i: int|
            0 <= i < borders@.len() ==> places@.contains((#[trigger] borders@[i]).0) && places@.contains(
                borders@[i].1,
            ),
        match result {
            Ok(Some(found)) => proper_colouring(places@, colours@, borders@, found@),
            Ok(None) => forall|a: Map<u32, u32>| !proper_colouring(places@, colours@, borders@, a),
            Err(_) => true,
        },
{
    let mut domains: HashMap<u32, Vec<u32>> = HashMap::new();
    let mut i: usize = 0;
    while i < places.len()
        invariant
            0 <= i <= places@.len(),
            forall|k: int| 0 <= k < i ==> domains@.contains_key(#[trigger] places@[k]),
            forall|p: u32| #[trigger] domains@.contains_key(p) ==> domains@[p]@ == colours@,
        decreases places@.len() - i,
    {
        let copy = colours.clone();
        assert(copy@ =~= colours@);
        domains.insert(places[i], copy);
        i += 1;
    }
    let ghost names = places@;
    let made: Result<CSP<u32, u32, MapColouringConstraint>, &'static str> = CSP::new(places, domains);
    let mut csp = match made {
        Ok(csp) => csp,
        Err(message) => {
            return Err(message);
        },
    };
    assert(lawful_clone::<MapColouringConstraint>());
    let mut j: usize = 0;
    while j < borders.len()
        invariant
            0 <= j <= borders@.len(),
            lawful_clone::<MapColouringConstraint>(),
            csp.well_posed(),
            names == places@,
            csp.variables@ == names,
            forall|p: u32| #[trigger] csp.domains@.contains_key(p) ==> csp.domains@[p]@ == colours@,
            holds_borders(csp, borders@, j as int),
        decreases borders@.len() - j,
    {
        let ghost before = csp;
        let constraint = MapColouringConstraint::new(borders[j].0, borders[j].1);
        proof {
            constraint.lemma_well_behaved();
            assert(constraint == border_constraint(borders@, j as int));
            assert(constraint.scope()[0] == borders@[j as int].0);
            assert(constraint.scope()[1] == borders@[j as int].1);
        }
        match csp.add_constraint(constraint) {
            Err(message) => {
                proof {
                    let border = borders@[j as int];
                    if names.contains(border.0) && names.contains(border.1) {
                        assert forall|m: int| 0 <= m < constraint.scope().len() implies before.variables@.contains(
                            #[trigger] constraint.scope()[m],
                        ) by {}
                    }
                }
                return Err(message);
            },
            Ok(_) => {
                proof {
                    let scope = constraint.scope();
                    assert(names.contains(scope[0]) && names.contains(scope[1]));
                    assert forall|v: u32, k: int|
                        #![trigger csp.constraints@[v]@[k]]
                        csp.constraints@.contains_key(v) && 0 <= k < csp.constraints@[v]@.len() implies exists|
                        b: int,
                    |
                        0 <= b < j + 1 && csp.constraints@[v]@[k] == #[trigger] border_constraint(borders@, b) by {
                        lemma_attached(before.constraints@[v]@, scope, v, constraint);
                        let c = csp.constraints@[v]@[k];
                        assert(csp.constraints@[v]@ == attached(before.constraints@[v]@, scope, v, constraint));
                        if c == constraint {
                            assert(c == border_constraint(borders@, j as int));
                        } else {
                            let at = choose|at: int|
                                0 <= at < before.constraints@[v]@.len() && before.constraints@[v]@[at] == c;
                            assert(before.constraints@.contains_key(v));
                            let b = choose|b: int|
                                0 <= b < j && before.constraints@[v]@[at] == #[trigger] border_constraint(borders@, b);
                            assert(c == border_constraint(borders@, b));
                        }
                    }
                    assert forall|b: int| 0 <= b < j + 1 implies {
                        &&& csp.variables@.contains((#[trigger] borders@[b]).0)
                        &&& csp.variables@.contains(borders@[b].1)
                        &&& csp.constraints@[borders@[b].0]@.contains(border_constraint(borders@, b))
                    } by {
                        let v = borders@[b].0;
                        assert(csp.constraints@.contains_key(v));
                        lemma_attached(before.constraints@[v]@, scope, v, constraint);
                        assert(csp.constraints@[v]@ == attached(before.constraints@[v]@, scope, v, constraint));
                        if b == j {
                            assert(scope.contains(v));
                        } else {
                            let c = border_constraint(borders@, b);
                            assert(before.constraints@[v]@.contains(c));
                            let at = choose|at: int|
                                0 <= at < before.constraints@[v]@.len() && before.constraints@[v]@[at] == c;
                            assert(attached(before.constraints@[v]@, scope, v, constraint).contains(
                                before.constraints@[v]@[at],
                            ));
                        }
                    }
                }
            },
        }
        j += 1;
    }
    let result = csp.backtracking_search();
    proof {
        assert forall|a: Map<u32, u32>| csp.is_solution(a) <==> proper_colouring(names, colours@, borders@, a) by {
            if csp.is_solution(a) {
                assert forall|p: u32| #[trigger] a.contains_key(p) implies colours@.contains(a[p]) by {}
                assert forall|b: int| 0 <= b < borders@.len() implies a[(#[trigger] borders@[b]).0] != a[borders@[b].1] by {
                    let v = borders@[b].0;
                    let c = border_constraint(borders@, b);
                    assert(csp.constraints@[v]@.contains(c));
                    let at = choose|at: int| 0 <= at < csp.constraints@[v]@.len() && csp.constraints@[v]@[at] == c;
                    assert(csp.constraints@.contains_key(v));
                    assert(csp.constraints@[v]@[at].holds(a));
                    assert(a.contains_key(borders@[b].0) && a.contains_key(borders@[b].1));
                }
            }
            if proper_colouring(names, colours@, borders@, a) {
                assert forall|v: u32| #[trigger] a.contains_key(v) implies csp.domains@.contains_key(v)
                    && csp.domains@[v]@.contains(a[v]) by {
                    let k = choose|k: int| 0 <= k < names.len() && names[k] == v;
                    assert(csp.domains@.contains_key(csp.variables@[k]));
                }
                assert forall|v: u32, k: int|
                    csp.constraints@.contains_key(v) && 0 <= k < csp.constraints@[v]@.len() implies (
                #[trigger] csp.constraints@[v]@[k]).holds(a) by {
                    let b = choose|b: int|
                        0 <= b < borders@.len() && csp.constraints@[v]@[k] == #[trigger] border_constraint(
                            borders@,
                            b,
                        );
                    assert(a[borders@[b].0] != a[borders@[b].1]);
                }
            }
        }
        if result.is_none() {
            assert forall|a: Map<u32, u32>| !proper_colouring(names, colours@, borders@, a) by {
                assert(!csp.is_solution(a));
            }
        }
    }
    Ok(result)
}

} // verus!
