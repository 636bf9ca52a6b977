//! Depth-first, breadth-first and A* search over a state graph that the caller
//! describes by a goal test and a successor function.
use std::cmp::Ordering;
use std::collections::{HashMap, HashSet, VecDeque};
use std::hash::Hash;
use vstd::prelude::*;
use vstd::std_specs::cmp::{OrdSpec, PartialEqSpec, PartialEqSpecImpl, PartialOrdSpecImpl};
use vstd::std_specs::hash::*;

verus! {

broadcast use vstd::std_specs::hash::group_hash_axioms;

/// Whether `key` occurs in `xs`, looking at one item after the other.
pub fn linear_contains<T>(xs: &[T], key: T) -> (found: bool) where T: Ord
    ensures
        T::obeys_eq_spec() ==> (found <==> exists|i: int| 0 <= i < xs@.len() && (#[trigger] xs@[i]).eq_spec(&key)),
{
    let mut i: usize = 0;
    while i < xs.len()
        invariant
            0 <= i <= xs@.len(),
            T::obeys_eq_spec() ==> forall|k: int| 0 <= k < i ==> !(#[trigger] xs@[k]).eq_spec(&key),
        decreases xs@.len() - i,
    {
        if xs[i] == key {
            return true;
        }
        i += 1;
    }
    false
}

/// `cmp` orders the items totally, and items that it calls equal stand in
/// the same relation to every other item.
#[verifier::opaque]
pub open spec fn order_laws<T: Ord>() -> bool {
    &&& forall|x: T, y: T| #[trigger] x.cmp_spec(&y) == Ordering::Less <==> y.cmp_spec(&x) == Ordering::Greater
    &&& forall|x: T, y: T, z: T|
        #[trigger] x.cmp_spec(&y) != Ordering::Greater && #[trigger] y.cmp_spec(&z) != Ordering::Greater
            ==> x.cmp_spec(&z) != Ordering::Greater
    &&& forall|x: T, y: T, z: T|
        #[trigger] x.cmp_spec(&y) != Ordering::Greater && #[trigger] y.cmp_spec(&z) == Ordering::Less
            ==> x.cmp_spec(&z) == Ordering::Less
    &&& forall|x: T, y: T, z: T|
        #[trigger] x.cmp_spec(&y) == Ordering::Less && #[trigger] y.cmp_spec(&z) != Ordering::Greater
            ==> x.cmp_spec(&z) == Ordering::Less
}

/// What the binary search needs of an item type: `cmp` computes what the
/// contracts call the order, and that order obeys the laws.
pub open spec fn lawful_order<T: Ord>() -> bool {
    T::obeys_cmp_spec() && order_laws::<T>()
}

/// The laws of the order for three given items.
pub proof fn lemma_order<T: Ord>(x: T, y: T, z: T)
    requires
        order_laws::<T>(),
    ensures
        x.cmp_spec(&y) == Ordering::Less <==> y.cmp_spec(&x) == Ordering::Greater,
        x.cmp_spec(&y) != Ordering::Greater && y.cmp_spec(&z) != Ordering::Greater ==> x.cmp_spec(&z)
            != Ordering::Greater,
        x.cmp_spec(&y) != Ordering::Greater && y.cmp_spec(&z) == Ordering::Less ==> x.cmp_spec(&z)
            == Ordering::Less,
        x.cmp_spec(&y) == Ordering::Less && y.cmp_spec(&z) != Ordering::Greater ==> x.cmp_spec(&z)
            == Ordering::Less,
{
    reveal(order_laws);
}

/// No item of `xs` is greater than an item that stands after it.
pub open spec fn sorted<T: Ord>(xs: Seq<T>) -> bool {
    forall|i: int, j: int| 0 <= i < j < xs.len() ==> #[trigger] xs[i].cmp_spec(&xs[j]) != Ordering::Greater
}

/// Where no item among the first `upto` is greater than its right
/// neighbour, none of them is greater than any that stands after it.
pub proof fn lemma_neighbours_sorted<T: Ord>(xs: Seq<T>, upto: nat, i: int, j: int)
    requires
        lawful_order::<T>(),
        0 <= i < j < upto <= xs.len(),
        forall|k: int| 0 <= k < upto - 1 ==> #[trigger] xs[k].cmp_spec(&xs[k + 1]) != Ordering::Greater,
    ensures
        xs[i].cmp_spec(&xs[j]) != Ordering::Greater,
    decreases j - i,
{
    if j > i + 1 {
        lemma_neighbours_sorted(xs, upto, i, j - 1);
        assert(xs[j - 1].cmp_spec(&xs[j - 1 + 1]) != Ordering::Greater);
        lemma_order(xs[i], xs[j - 1], xs[j]);
    } else {
        assert(xs[i].cmp_spec(&xs[i + 1]) != Ordering::Greater);
    }
}

/// Whether the items stand in ascending order.
pub fn is_sorted<T>(xs: &[T]) -> (ok: bool) where T: Clone + Ord
    requires
        lawful_order::<T>(),
    ensures
        ok == sorted(xs@),
{
    if xs.len() < 2 {
        return true;
    }
    let mut i: usize = 0;
    while i < xs.len() - 1
        invariant
            lawful_order::<T>(),
            xs@.len() >= 2,
            0 <= i <= xs@.len() - 1,
            forall|k: int| 0 <= k < i ==> #[trigger] xs@[k].cmp_spec(&xs@[k + 1]) != Ordering::Greater,
        decreases xs@.len() - i,
    {
        let left = &xs[i];
        let right = &xs[i + 1];
        match left.cmp(right) {
            Ordering::Greater => {
                assert(xs@[i + 0].cmp_spec(&xs@[i + 1]) == Ordering::Greater);
                return false;
            },
            _ => {},
        }
        i += 1;
    }
    proof {
        assert forall|a: int, b: int| 0 <= a < b < xs@.len() implies #[trigger] xs@[a].cmp_spec(&xs@[b])
            != Ordering::Greater by {
            lemma_neighbours_sorted(xs@, xs@.len(), a, b);
        }
    }
    true
}

/// Whether `key` occurs in `xs`, halving the range in which it can stand.
/// Fails if `xs` is not in ascending order.
pub fn binary_contains<T>(xs: &[T], key: T) -> (result: Result<bool, &'static str>) where T: Clone + Ord
    requires
        lawful_order::<T>(),
    ensures
        result.is_ok() <==> sorted(xs@),
        match result {
            Ok(found) => found <==> exists|i: int|
                0 <= i < xs@.len() && (#[trigger] xs@[i]).cmp_spec(&key) == Ordering::Equal,
            Err(message) => message@ == "container must be sorted first"@,
        },
{
    if !is_sorted(xs) {
        return Err("container must be sorted first");
    }
    let mut low: usize = 0;
    let mut high: usize = xs.len();
    while low < high
        invariant
            lawful_order::<T>(),
            sorted(xs@),
            0 <= low <= high <= xs@.len(),
            forall|k: int| 0 <= k < low ==> (#[trigger] xs@[k]).cmp_spec(&key) == Ordering::Less,
            forall|k: int| high <= k < xs@.len() ==> (#[trigger] xs@[k]).cmp_spec(&key) == Ordering::Greater,
        decreases high - low,
    {
        let middle: usize = low + (high - low) / 2;
        let x = &xs[middle];
        match x.cmp(&key) {
            Ordering::Less => {
                proof {
                    assert forall|k: int| 0 <= k < middle + 1 implies (#[trigger] xs@[k]).cmp_spec(&key)
                        == Ordering::Less by {
                        if k < middle {
                            assert(xs@[k].cmp_spec(x) != Ordering::Greater);
                            lemma_order(xs@[k], *x, key);
                        }
                    }
                }
                low = middle + 1;
            },
            Ordering::Greater => {
                proof {
                    assert forall|k: int| middle <= k < xs@.len() implies (#[trigger] xs@[k]).cmp_spec(&key)
                        == Ordering::Greater by {
                        if k > middle {
                            assert(x.cmp_spec(&xs@[k]) != Ordering::Greater);
                            lemma_order(key, *x, xs@[k]);
                            lemma_order(key, xs@[k], *x);
                        }
                    }
                }
                high = middle;
            },
            Ordering::Equal => {
                return Ok(true);
            },
        }
    }
    Ok(false)
}

/// What the searches need of a state type: hashing and equality agree with
/// mathematical equality, and a clone equals what it was cloned from.
pub open spec fn lawful_state<T: Clone>() -> bool {
    &&& obeys_key_model::<T>()
    &&& forall|a: T, b: T| #[trigger] cloned(a, b) ==> a == b
}

/// `b` is among the successors that `succ` may report for `a`.
pub open spec fn edge<T, S: Fn(T) -> Vec<T>>(succ: S, a: T, b: T) -> bool {
    exists|r: Vec<T>| #[trigger] succ.ensures((a,), r) && r@.contains(b)
}

/// Every consecutive pair of `w` is an edge of the graph.
pub open spec fn is_walk<T, S: Fn(T) -> Vec<T>>(succ: S, w: Seq<T>) -> bool {
    forall|i: int| 0 <= i < w.len() - 1 ==> edge(succ, #[trigger] w[i], w[i + 1])
}

/// A walk of the graph leads from `from` to `to`.
pub open spec fn reachable<T, S: Fn(T) -> Vec<T>>(succ: S, from: T, to: T) -> bool {
    exists|w: Seq<T>| #[trigger] is_walk(succ, w) && w.len() > 0 && w[0] == from && w.last() == to
}

/// All states that a walk from `from` reaches.
pub open spec fn reachable_states<T, S: Fn(T) -> Vec<T>>(succ: S, from: T) -> Set<T> {
    Set::new(|s: T| reachable(succ, from, s))
}

/// The goal test may answer `true` on `s`.
pub open spec fn is_goal<T, P: Fn(T) -> bool>(goal: P, s: T) -> bool {
    goal.ensures((s,), true)
}

/// Whatever the successor function reports for `a` holds `b`.
pub open spec fn sure_edge<T, S: Fn(T) -> Vec<T>>(succ: S, a: T, b: T) -> bool {
    forall|r: Vec<T>| #[trigger] succ.ensures((a,), r) ==> r@.contains(b)
}

/// Every consecutive pair of `w` is an edge whatever the successor
/// function reports.
pub open spec fn is_sure_walk<T, S: Fn(T) -> Vec<T>>(succ: S, w: Seq<T>) -> bool {
    forall|i: int| 0 <= i < w.len() - 1 ==> sure_edge(succ, #[trigger] w[i], w[i + 1])
}

/// The goal test never answers `false` on `s`.
pub open spec fn surely_goal<T, P: Fn(T) -> bool>(goal: P, s: T) -> bool {
    !goal.ensures((s,), false)
}

/// The goal test never gives two answers for one state.
pub open spec fn deterministic_goal<T, P: Fn(T) -> bool>(goal: P) -> bool {
    forall|s: T| !(#[trigger] goal.ensures((s,), true) && goal.ensures((s,), false))
}

/// The successor function always reports the same states for one state.
pub open spec fn deterministic_successors<T, S: Fn(T) -> Vec<T>>(succ: S) -> bool {
    forall|a: T, r1: Vec<T>, r2: Vec<T>|
        #[trigger] succ.ensures((a,), r1) && #[trigger] succ.ensures((a,), r2) ==> r1@ == r2@
}

/// A search node: a state, the node it was discovered from, the cost of the
/// path that led to it and the estimate of what remains.
#[derive(Debug)]
pub struct Node<T> {
    pub state: T,
    pub parent: Option<Box<Node<T>>>,
    pub cost: u64,
    pub heuristic: u64,
}

impl<T> Node<T> {
    /// The states from the root down to this node.
    pub open spec fn path(&self) -> Seq<T>
        decreases self,
    {
        match self.parent {
            None => seq![self.state],
            Some(p) => p.path().push(self.state),
        }
    }

    /// The nodes from the root down to this node.
    pub open spec fn chain(&self) -> Seq<Node<T>>
        decreases self,
    {
        match self.parent {
            None => seq![*self],
            Some(p) => p.chain().push(*self),
        }
    }

    /// The number of edges between the root and this node.
    pub open spec fn depth(&self) -> nat {
        (self.path().len() - 1) as nat
    }

    /// The key by which a priority frontier orders nodes.
    pub open spec fn priority(&self) -> int {
        self.cost + self.heuristic
    }

    /// The sum of the costs stored in the nodes from the root down to this one.
    pub open spec fn total_cost(&self) -> int
        decreases self,
    {
        match self.parent {
            None => self.cost as int,
            Some(p) => p.total_cost() + self.cost,
        }
    }

    pub proof fn lemma_path_shape(&self)
        ensures
            self.path().len() >= 1,
            self.path().last() == self.state,
            self.chain().len() == self.path().len(),
            self.chain().last() == *self,
            forall|i: int| 0 <= i < self.path().len() ==> (#[trigger] self.chain()[i]).state == self.path()[i],
        decreases self,
    {
        match self.parent {
            None => {},
            Some(p) => {
                p.lemma_path_shape();
            },
        }
    }

    pub proof fn lemma_total_cost_bounds(&self)
        ensures
            self.cost <= self.total_cost(),
        decreases self,
    {
        match self.parent {
            None => {},
            Some(p) => {
                p.lemma_total_cost_bounds();
            },
        }
    }

    pub fn new(state: T, parent: Option<Box<Node<T>>>) -> (node: Self)
        ensures
            node == (Node { state, parent, cost: 0, heuristic: 0 }),
    {
        Node { state, parent, cost: 0, heuristic: 0 }
    }

    pub fn new_with_cost_and_heuristic(
        state: T,
        parent: Option<Box<Node<T>>>,
        cost: u64,
        heuristic: u64,
    ) -> (node: Self)
        ensures
            node == (Node { state, parent, cost, heuristic }),
    {
        Node { state, parent, cost, heuristic }
    }
}

impl<T> Node<T> {
    /// The key by which a priority frontier orders nodes.
    pub fn priority_key(&self) -> (key: u128)
        ensures
            key == self.priority(),
    {
        self.cost as u128 + self.heuristic as u128
    }
}

impl<T> PartialEq for Node<T> {
    /// Two nodes count as equal where their priorities are: the states are
    /// not looked at.
    fn eq(&self, other: &Self) -> (r: bool) {
        self.priority_key() == other.priority_key()
    }
}

impl<T> PartialEqSpecImpl for Node<T> {
    open spec fn obeys_eq_spec() -> bool {
        true
    }

    open spec fn eq_spec(&self, other: &Self) -> bool {
        self.priority() == other.priority()
    }
}

impl<T> PartialOrd for Node<T> {
    /// Nodes are ordered by their priorities: the states are not looked at.
    fn partial_cmp(&self, other: &Self) -> (r: Option<Ordering>) {
        let mine = self.priority_key();
        let others = other.priority_key();
        if mine < others {
            Some(Ordering::Less)
        } else if mine > others {
            Some(Ordering::Greater)
        } else {
            Some(Ordering::Equal)
        }
    }
}

impl<T> PartialOrdSpecImpl for Node<T> {
    open spec fn obeys_partial_cmp_spec() -> bool {
        true
    }

    open spec fn partial_cmp_spec(&self, other: &Self) -> Option<Ordering> {
        if self.priority() < other.priority() {
            Some(Ordering::Less)
        } else if self.priority() > other.priority() {
            Some(Ordering::Greater)
        } else {
            Some(Ordering::Equal)
        }
    }
}

impl<T: Default> Default for Node<T> {
    /// A root node of no cost that holds the default state.
    fn default() -> (node: Self)
        ensures
            node.parent.is_none(),
            node.cost == 0,
            node.heuristic == 0,
    {
        Node { state: T::default(), parent: None, cost: 0, heuristic: 0 }
    }
}

/// A copy of `x`, equal to it for a lawful state type.
fn clone_state<T: Clone>(x: &T) -> (r: T)
    ensures
        lawful_state::<T>() ==> r == *x,
{
    let r = x.clone();
    assert(cloned(*x, r));
    r
}

impl<T: Clone> Clone for Node<T> {
    fn clone(&self) -> (r: Self)
        ensures
            lawful_state::<T>() ==> r == *self,
        decreases self,
    {
        let parent = match &self.parent {
            None => None,
            Some(p) => {
                let q: Node<T> = (**p).clone();
                Some(Box::new(q))
            },
        };
        Node { state: clone_state(&self.state), parent, cost: self.cost, heuristic: self.heuristic }
    }
}

impl<T: Clone> Node<T> {
    /// Traverse this node's parents, transforming them into a list of nodes
    /// from the root down to this one.
    pub fn to_node_path(&self) -> (path: VecDeque<Node<T>>)
        ensures
            lawful_state::<T>() ==> path@ == self.chain(),
            path@.len() == self.chain().len(),
    {
        let mut path = VecDeque::<Node<T>>::new();
        path.push_front(self.clone());
        let mut current: &Node<T> = self;
        while current.parent.is_some()
            invariant
                path@.len() >= 1,
                path@.len() + current.chain().len() == self.chain().len() + 1,
                lawful_state::<T>() ==> path@[0] == *current && current.chain() + path@.subrange(
                    1,
                    path@.len() as int,
                ) == self.chain(),
            decreases current.chain().len(),
        {
            let ghost below = path@;
            let ghost child = *current;
            let up: &Node<T> = &**current.parent.as_ref().unwrap();
            path.push_front(up.clone());
            current = up;
            proof {
                up.lemma_path_shape();
                if lawful_state::<T>() {
                    assert(path@.subrange(1, path@.len() as int) =~= below);
                    assert(below =~= seq![child] + below.subrange(1, below.len() as int));
                    assert(child.chain() == up.chain().push(child));
                    assert(up.chain() + below =~= child.chain() + below.subrange(1, below.len() as int));
                }
            }
        }
        proof {
            current.lemma_path_shape();
            if lawful_state::<T>() {
                assert(current.chain() =~= seq![*current]);
                assert(path@ =~= seq![path@[0]] + path@.subrange(1, path@.len() as int));
                assert(path@ =~= self.chain());
            }
        }
        path
    }

    /// The states from the root down to this node.
    pub fn to_path(&self) -> (path: VecDeque<T>)
        ensures
            lawful_state::<T>() ==> path@ == self.path(),
            path@.len() == self.path().len(),
    {
        let node_path = self.to_node_path();
        let mut path = VecDeque::<T>::new();
        let mut i: usize = 0;
        proof {
            self.lemma_path_shape();
        }
        while i < node_path.len()
            invariant
                0 <= i <= node_path@.len(),
                node_path@.len() == self.path().len(),
                lawful_state::<T>() ==> node_path@ == self.chain(),
                forall|k: int| 0 <= k < self.path().len() ==> (#[trigger] self.chain()[k]).state == self.path()[k],
                path@.len() == i,
                lawful_state::<T>() ==> forall|k: int| 0 <= k < i ==> path@[k] == self.path()[k],
            decreases node_path@.len() - i,
        {
            path.push_back(clone_state(&node_path[i].state));
            i += 1;
        }
        proof {
            if lawful_state::<T>() {
                assert(path@ =~= self.path());
            }
        }
        path
    }
}

impl<T> Node<T> {
    /// The sum of the costs stored in the nodes from the root down to this one.
    pub fn get_total_cost_of_path(&self) -> (total: u64)
        requires
            self.total_cost() <= u64::MAX,
        ensures
            total == self.total_cost(),
    {
        let mut total: u64 = 0;
        let mut current: &Node<T> = self;
        while current.parent.is_some()
            invariant
                total + current.total_cost() == self.total_cost(),
                self.total_cost() <= u64::MAX,
            decreases current.chain().len(),
        {
            let up: &Node<T> = &**current.parent.as_ref().unwrap();
            proof {
                up.lemma_total_cost_bounds();
                up.lemma_path_shape();
            }
            total = total + current.cost;
            current = up;
        }
        total + current.cost
    }
}

/// `n` lies at the end of a walk of the graph that starts at `initial`.
pub open spec fn node_ok<T, S: Fn(T) -> Vec<T>>(succ: S, initial: T, n: Node<T>) -> bool {
    &&& n.path().len() >= 1
    &&& n.path()[0] == initial
    &&& n.path().last() == n.state
    &&& is_walk(succ, n.path())
}

/// What a search promises of the node it found: its path is a walk of the
/// graph from `initial` to a state that the goal test accepted.
pub open spec fn is_solution<T, P: Fn(T) -> bool, S: Fn(T) -> Vec<T>>(
    goal: P,
    succ: S,
    initial: T,
    n: Node<T>,
) -> bool {
    node_ok(succ, initial, n) && is_goal(goal, n.state)
}

/// What a search promises when it finds nothing: no walk from `initial`
/// that is there whatever the successor function reports ends in a state
/// that the goal test never refuses.
pub open spec fn no_goal_reachable<T, P: Fn(T) -> bool, S: Fn(T) -> Vec<T>>(
    goal: P,
    succ: S,
    initial: T,
) -> bool {
    forall|w: Seq<T>|
        #[trigger] is_sure_walk(succ, w) && w.len() > 0 && w[0] == initial ==> !surely_goal(goal, w.last())
}

/// A walk stays a walk when an edge is added at its end.
pub proof fn lemma_extend_walk<T, S: Fn(T) -> Vec<T>>(succ: S, w: Seq<T>, b: T)
    requires
        is_walk(succ, w),
        w.len() > 0,
        edge(succ, w.last(), b),
    ensures
        is_walk(succ, w.push(b)),
{
    let v = w.push(b);
    assert forall|i: int| 0 <= i < v.len() - 1 implies edge(succ, #[trigger] v[i], v[i + 1]) by {
        if i < w.len() - 1 {
            assert(v[i] == w[i] && v[i + 1] == w[i + 1]);
        }
    }
}

/// A set that holds the first state of a walk and is closed under edges
/// holds the walk's last state.
pub proof fn lemma_closed_set_holds_walk<T, S: Fn(T) -> Vec<T>>(succ: S, closed: Set<T>, w: Seq<T>)
    requires
        is_walk(succ, w),
        w.len() > 0,
        closed.contains(w[0]),
        forall|a: T, b: T| closed.contains(a) && #[trigger] edge(succ, a, b) ==> closed.contains(b),
    ensures
        closed.contains(w.last()),
    decreases w.len(),
{
    if w.len() > 1 {
        let v = w.drop_last();
        assert forall|i: int| 0 <= i < v.len() - 1 implies edge(succ, #[trigger] v[i], v[i + 1]) by {
            assert(v[i] == w[i] && v[i + 1] == w[i + 1]);
        }
        lemma_closed_set_holds_walk(succ, closed, v);
        let k = w.len() - 2;
        assert(edge(succ, w[k], w[k + 1]));
        assert(v.last() == w[k]);
    }
}

/// A set that holds the first state of a sure walk and is closed under
/// sure edges holds the walk's last state.
pub proof fn lemma_closed_set_holds_sure_walk<T, S: Fn(T) -> Vec<T>>(succ: S, closed: Set<T>, w: Seq<T>)
    requires
        is_sure_walk(succ, w),
        w.len() > 0,
        closed.contains(w[0]),
        forall|a: T, b: T| closed.contains(a) && #[trigger] sure_edge(succ, a, b) ==> closed.contains(b),
    ensures
        closed.contains(w.last()),
    decreases w.len(),
{
    if w.len() > 1 {
        let v = w.drop_last();
        assert forall|i: int| 0 <= i < v.len() - 1 implies sure_edge(succ, #[trigger] v[i], v[i + 1]) by {
            assert(v[i] == w[i] && v[i + 1] == w[i + 1]);
        }
        lemma_closed_set_holds_sure_walk(succ, closed, v);
        let k = w.len() - 2;
        assert(sure_edge(succ, w[k], w[k + 1]));
        assert(v.last() == w[k]);
    }
}

/// Where the initial state lies in a finite set that no edge leaves, the
/// states that a walk from it reaches are finitely many.
pub proof fn lemma_bounded_space_is_finite<T, S: Fn(T) -> Vec<T>>(succ: S, initial: T, bound: Set<T>)
    requires
        bound.finite(),
        bound.contains(initial),
        forall|a: T, b: T| bound.contains(a) && #[trigger] edge(succ, a, b) ==> bound.contains(b),
    ensures
        reachable_states(succ, initial).finite(),
        reachable_states(succ, initial).subset_of(bound),
{
    let space = reachable_states(succ, initial);
    assert forall|s: T| space.contains(s) implies bound.contains(s) by {
        let w = choose|w: Seq<T>| #[trigger] is_walk(succ, w) && w.len() > 0 && w[0] == initial && w.last() == s;
        lemma_closed_set_holds_walk(succ, bound, w);
    }
    vstd::set_lib::lemma_len_subset(space, bound);
}

/// What is recorded of the states whose successors were all looked at:
/// the goal test refused each, and `expansion` holds what the successor
/// function reported, all of it explored.
pub open spec fn expanded_ok<T, P: Fn(T) -> bool, S: Fn(T) -> Vec<T>>(
    goal: P,
    succ: S,
    explored: Set<T>,
    closed: Set<T>,
    expansion: Map<T, Seq<T>>,
) -> bool {
    forall|a: T| #[trigger]
        closed.contains(a) ==> {
            &&& explored.contains(a)
            &&& goal.ensures((a,), false)
            &&& exists|r: Vec<T>| #[trigger] succ.ensures((a,), r) && r@ == expansion[a]
            &&& forall|b: T| #[trigger] expansion[a].contains(b) ==> explored.contains(b)
        }
}

/// Once every explored state is expanded, no sure walk from the initial
/// state ends in a sure goal.
pub proof fn lemma_exhausted<T, P: Fn(T) -> bool, S: Fn(T) -> Vec<T>>(
    goal: P,
    succ: S,
    initial: T,
    closed: Set<T>,
    expansion: Map<T, Seq<T>>,
)
    requires
        closed.contains(initial),
        expanded_ok(goal, succ, closed, closed, expansion),
    ensures
        no_goal_reachable(goal, succ, initial),
{
    assert forall|a: T, b: T| closed.contains(a) && #[trigger] sure_edge(succ, a, b) implies closed.contains(b) by {
        let r = choose|r: Vec<T>| #[trigger] succ.ensures((a,), r) && r@ == expansion[a];
        assert(r@.contains(b));
        assert(expansion[a].contains(b));
    }
    assert forall|w: Seq<T>| #[trigger] is_sure_walk(succ, w) && w.len() > 0 && w[0] == initial implies !surely_goal(
        goal,
        w.last(),
    ) by {
        lemma_closed_set_holds_sure_walk(succ, closed, w);
        assert(goal.ensures((w.last(),), false));
    }
}

/// How a run of a search ended.
pub enum Outcome<T> {
    /// The goal test accepted the state of this node.
    Found(Node<T>),
    /// The frontier ran empty.
    Exhausted,
    /// The run was cut short.
    Unfinished,
}

/// The outcome that a search reports by what it returns.
pub open spec fn outcome_of<T>(result: Option<Node<T>>) -> Outcome<T> {
    match result {
        Some(node) => Outcome::Found(node),
        None => Outcome::Exhausted,
    }
}

/// What the successor function reports for `a`, where it is deterministic.
pub open spec fn successors_of<T, S: Fn(T) -> Vec<T>>(succ: S, a: T) -> Seq<T> {
    (choose|r: Vec<T>| #[trigger] succ.ensures((a,), r))@
}

/// The frontier and the explored set after the first `upto` of the states
/// `found` were looked at as successors of `parent`: each that was not
/// explored yet is now, and a node for it stands at the end of the frontier.
pub open spec fn discover<T>(
    parent: Node<T>,
    found: Seq<T>,
    frontier: Seq<Node<T>>,
    explored: Set<T>,
    upto: int,
) -> (Seq<Node<T>>, Set<T>)
    decreases upto,
{
    if upto <= 0 {
        (frontier, explored)
    } else {
        let (nodes, seen) = discover(parent, found, frontier, explored, upto - 1);
        let b = found[upto - 1];
        if seen.contains(b) {
            (nodes, seen)
        } else {
            (nodes.push(Node { state: b, parent: Some(Box::new(parent)), cost: 0, heuristic: 0 }), seen.insert(b))
        }
    }
}

/// The outcome of at most `fuel` rounds of depth-first search from the
/// given frontier and explored set: each round takes the node at the end of
/// the frontier, ends with it if the goal test accepts its state, and
/// otherwise discovers its successors.
pub open spec fn depth_first_run<T, P: Fn(T) -> bool, S: Fn(T) -> Vec<T>>(
    goal: P,
    succ: S,
    frontier: Seq<Node<T>>,
    explored: Set<T>,
    fuel: nat,
) -> Outcome<T>
    decreases fuel,
{
    if frontier.len() == 0 {
        Outcome::Exhausted
    } else if fuel == 0 {
        Outcome::Unfinished
    } else if is_goal(goal, frontier.last().state) {
        Outcome::Found(frontier.last())
    } else {
        let found = successors_of(succ, frontier.last().state);
        let (nodes, seen) = discover(frontier.last(), found, frontier.drop_last(), explored, found.len() as int);
        depth_first_run(goal, succ, nodes, seen, (fuel - 1) as nat)
    }
}

/// The outcome of at most `fuel` rounds of breadth-first search from the
/// given frontier and explored set: each round takes the node at the front
/// of the frontier, ends with it if the goal test accepts its state, and
/// otherwise discovers its successors.
pub open spec fn breadth_first_run<T, P: Fn(T) -> bool, S: Fn(T) -> Vec<T>>(
    goal: P,
    succ: S,
    frontier: Seq<Node<T>>,
    explored: Set<T>,
    fuel: nat,
) -> Outcome<T>
    decreases fuel,
{
    if frontier.len() == 0 {
        Outcome::Exhausted
    } else if fuel == 0 {
        Outcome::Unfinished
    } else if is_goal(goal, frontier.first().state) {
        Outcome::Found(frontier.first())
    } else {
        let found = successors_of(succ, frontier.first().state);
        let (nodes, seen) = discover(frontier.first(), found, frontier.drop_first(), explored, found.len() as int);
        breadth_first_run(goal, succ, nodes, seen, (fuel - 1) as nat)
    }
}

/// The frontier that a search starts with: the root node of `initial`.
pub open spec fn root_frontier<T>(initial: T) -> Seq<Node<T>> {
    seq![Node { state: initial, parent: None, cost: 0, heuristic: 0 }]
}

/// What depth-first search returns, where the two functions are
/// deterministic: the outcome of the run from the root that is long enough
/// to end.
pub open spec fn depth_first_outcome<T, P: Fn(T) -> bool, S: Fn(T) -> Vec<T>>(
    goal: P,
    succ: S,
    initial: T,
    result: Option<Node<T>>,
) -> bool {
    deterministic_goal(goal) && deterministic_successors(succ) ==> exists|fuel: nat|
        #[trigger] depth_first_run(goal, succ, root_frontier(initial), set![initial], fuel) == outcome_of(
            result,
        )
}

/// What breadth-first search returns, where the two functions are
/// deterministic: the outcome of the run from the root that is long enough
/// to end.
pub open spec fn breadth_first_outcome<T, P: Fn(T) -> bool, S: Fn(T) -> Vec<T>>(
    goal: P,
    succ: S,
    initial: T,
    result: Option<Node<T>>,
) -> bool {
    deterministic_goal(goal) && deterministic_successors(succ) ==> exists|fuel: nat|
        #[trigger] breadth_first_run(goal, succ, root_frontier(initial), set![initial], fuel) == outcome_of(
            result,
        )
}

/// A run of depth-first search that has ended ends the same way with more fuel.
pub proof fn lemma_depth_first_run_settles<T, P: Fn(T) -> bool, S: Fn(T) -> Vec<T>>(
    goal: P,
    succ: S,
    frontier: Seq<Node<T>>,
    explored: Set<T>,
    fuel: nat,
    more: nat,
)
    requires
        fuel <= more,
        depth_first_run(goal, succ, frontier, explored, fuel) != Outcome::<T>::Unfinished,
    ensures
        depth_first_run(goal, succ, frontier, explored, more) == depth_first_run(
            goal,
            succ,
            frontier,
            explored,
            fuel,
        ),
    decreases fuel,
{
    if frontier.len() > 0 && fuel > 0 && !is_goal(goal, frontier.last().state) {
        let found = successors_of(succ, frontier.last().state);
        let (nodes, seen) = discover(frontier.last(), found, frontier.drop_last(), explored, found.len() as int);
        lemma_depth_first_run_settles(goal, succ, nodes, seen, (fuel - 1) as nat, (more - 1) as nat);
    }
}

/// A run of breadth-first search that has ended ends the same way with more fuel.
pub proof fn lemma_breadth_first_run_settles<T, P: Fn(T) -> bool, S: Fn(T) -> Vec<T>>(
    goal: P,
    succ: S,
    frontier: Seq<Node<T>>,
    explored: Set<T>,
    fuel: nat,
    more: nat,
)
    requires
        fuel <= more,
        breadth_first_run(goal, succ, frontier, explored, fuel) != Outcome::<T>::Unfinished,
    ensures
        breadth_first_run(goal, succ, frontier, explored, more) == breadth_first_run(
            goal,
            succ,
            frontier,
            explored,
            fuel,
        ),
    decreases fuel,
{
    if frontier.len() > 0 && fuel > 0 && !is_goal(goal, frontier.first().state) {
        let found = successors_of(succ, frontier.first().state);
        let (nodes, seen) = discover(frontier.first(), found, frontier.drop_first(), explored, found.len() as int);
        lemma_breadth_first_run_settles(goal, succ, nodes, seen, (fuel - 1) as nat, (more - 1) as nat);
    }
}

/// Under a deterministic successor function, what it reported for `a` is
/// what `successors_of` names.
pub proof fn lemma_successors_of<T, S: Fn(T) -> Vec<T>>(succ: S, a: T, reported: Vec<T>)
    requires
        deterministic_successors(succ),
        succ.ensures((a,), reported),
    ensures
        successors_of(succ, a) == reported@,
{
    let r = choose|r: Vec<T>| #[trigger] succ.ensures((a,), r);
    assert(succ.ensures((a,), r));
    assert(r@ == reported@);
}

/// # Depth First Search
///
/// Explores the graph from `initial` with a stack: the state discovered last
/// is expanded first, and a state is discovered at most once.
///
/// Returns the node of the first state that the goal test accepts; its
/// parents give the path that was taken. The reachable part of the graph
/// must be finite.
pub fn dfs<T, PredicateFn, SuccessorsFn>(
    initial: T,
    goal_test_fn: PredicateFn,
    get_successors_fn: SuccessorsFn,
) -> (result: Option<Node<T>>) where
    T: Clone + Eq + Hash,
    PredicateFn: Fn(T) -> bool,
    SuccessorsFn: Fn(T) -> Vec<T>,

    requires
        lawful_state::<T>(),
        forall|s: T| goal_test_fn.requires((s,)),
        forall|s: T| get_successors_fn.requires((s,)),
        reachable_states(get_successors_fn, initial).finite(),
    ensures
        match result {
            Some(node) => is_solution(goal_test_fn, get_successors_fn, initial, node),
            None => no_goal_reachable(goal_test_fn, get_successors_fn, initial),
        },
        depth_first_outcome(goal_test_fn, get_successors_fn, initial, result),
{
    let ghost space = reachable_states(get_successors_fn, initial);
    let mut frontier = Vec::<Node<T>>::new();
    frontier.push(Node::<T>::new(clone_state(&initial), None));
    let mut explored = HashSet::<T>::new();
    explored.insert(initial);
    let ghost mut closed: Set<T> = Set::empty();
    let ghost mut expansion: Map<T, Seq<T>> = Map::empty();
    let ghost lawful = deterministic_goal(goal_test_fn) && deterministic_successors(get_successors_fn);
    let ghost mut rounds: nat = 0;
    proof {
        assert(frontier@ =~= root_frontier(initial));
        assert(explored@ =~= set![initial]);
        let w = seq![initial];
        assert(is_walk(get_successors_fn, w));
        assert(w[0] == initial && w.last() == initial);
        assert(reachable(get_successors_fn, initial, initial));
        assert(frontier[0].path() =~= w);
    }
    while !frontier.is_empty()
        invariant
            lawful_state::<T>(),
            forall|s: T| goal_test_fn.requires((s,)),
            forall|s: T| get_successors_fn.requires((s,)),
            space == reachable_states(get_successors_fn, initial),
            space.finite(),
            explored@.contains(initial),
            forall|j: int|
                0 <= j < frontier.len() ==> node_ok(get_successors_fn, initial, #[trigger] frontier[j])
                    && explored@.contains(frontier[j].state),
            forall|s: T| #[trigger] explored@.contains(s) ==> space.contains(s),
            forall|s: T| #[trigger]
                explored@.contains(s) ==> closed.contains(s) || exists|j: int|
                    0 <= j < frontier.len() && (#[trigger] frontier[j]).state == s,
            expanded_ok(goal_test_fn, get_successors_fn, explored@, closed, expansion),
            lawful == (deterministic_goal(goal_test_fn) && deterministic_successors(get_successors_fn)),
            lawful ==> forall|total: nat|
                total >= rounds ==> #[trigger] depth_first_run(
                    goal_test_fn,
                    get_successors_fn,
                    root_frontier(initial),
                    set![initial],
                    total,
                ) == depth_first_run(goal_test_fn, get_successors_fn, frontier@, explored@, (total - rounds) as nat),
        decreases space.difference(explored@).len(), frontier.len(),
    {
        let ghost before = frontier@;
        let current_node = frontier.pop();
        if let Some(current_node) = current_node {
            if goal_test_fn(clone_state(&current_node.state)) {
                proof {
                    if lawful {
                        assert(depth_first_run(
                            goal_test_fn,
                            get_successors_fn,
                            root_frontier(initial),
                            set![initial],
                            rounds + 1,
                        ) == Outcome::Found(current_node));
                    }
                }
                return Some(current_node);
            }
            let successors = get_successors_fn(clone_state(&current_node.state));
            let ghost rest = frontier@;
            let ghost seen = explored@;
            proof {
                assert forall|s: T| #[trigger] explored@.contains(s) implies closed.contains(s) || s
                    == current_node.state || exists|j: int|
                    0 <= j < frontier.len() && (#[trigger] frontier[j]).state == s by {
                    if !closed.contains(s) {
                        let j = choose|j: int| 0 <= j < before.len() && (#[trigger] before[j]).state == s;
                        if j < before.len() - 1 {
                            assert(frontier[j].state == s);
                        }
                    }
                }
            }
            let mut i: usize = 0;
            while i < successors.len()
                invariant
                    lawful_state::<T>(),
                    space == reachable_states(get_successors_fn, initial),
                    space.finite(),
                    0 <= i <= successors.len(),
                    get_successors_fn.ensures((current_node.state,), successors),
                    node_ok(get_successors_fn, initial, current_node),
                    explored@.contains(initial),
                    explored@.contains(current_node.state),
                    forall|j: int|
                        0 <= j < frontier.len() ==> node_ok(get_successors_fn, initial, #[trigger] frontier[j])
                            && explored@.contains(frontier[j].state),
                    forall|s: T| #[trigger] explored@.contains(s) ==> space.contains(s),
                    forall|s: T| #[trigger]
                        explored@.contains(s) ==> closed.contains(s) || s == current_node.state || exists|j: int|
                            0 <= j < frontier.len() && (#[trigger] frontier[j]).state == s,
                    expanded_ok(goal_test_fn, get_successors_fn, explored@, closed, expansion),
                    forall|j: int| 0 <= j < i ==> explored@.contains(#[trigger] successors[j]),
                    (explored@ == seen && frontier@ == rest) || space.difference(explored@).len() < space.difference(seen).len(),
                    space.difference(explored@).len() <= space.difference(seen).len(),
                    (frontier@, explored@) == discover(current_node, successors@, rest, seen, i as int),
                decreases successors.len() - i,
            {
                let ghost earlier = explored@;
                let ghost stack = frontier@;
                let fresh = explored.insert(clone_state(&successors[i]));
                if fresh {
                    let child = Node::<T>::new(
                        clone_state(&successors[i]),
                        Some(Box::new(current_node.clone())),
                    );
                    proof {
                        let b = successors[i as int];
                        assert(successors@.contains(b));
                        assert(edge(get_successors_fn, current_node.state, b));
                        lemma_extend_walk(get_successors_fn, current_node.path(), b);
                        assert(child.path() == current_node.path().push(b));
                        assert(reachable(get_successors_fn, initial, b));
                        assert(space.contains(b));
                        assert(space.difference(explored@) =~= space.difference(earlier).remove(b));
                    }
                    frontier.push(child);
                    proof {
                        assert forall|s: T| #[trigger] explored@.contains(s) implies closed.contains(s) || s
                            == current_node.state || exists|j: int|
                            0 <= j < frontier.len() && (#[trigger] frontier[j]).state == s by {
                            if s == successors[i as int] {
                                assert(frontier[stack.len() as int].state == s);
                            } else if !closed.contains(s) && s != current_node.state {
                                let j = choose|j: int| 0 <= j < stack.len() && (#[trigger] stack[j]).state == s;
                                assert(frontier[j].state == s);
                            }
                        }
                    }
                } else {
                    assert(explored@ =~= earlier);
                }
                i += 1;
            }
            proof {
                if lawful {
                    lemma_successors_of(get_successors_fn, current_node.state, successors);
                    assert(rest =~= before.drop_last());
                    assert forall|total: nat| total >= rounds + 1 implies #[trigger] depth_first_run(
                        goal_test_fn,
                        get_successors_fn,
                        root_frontier(initial),
                        set![initial],
                        total,
                    ) == depth_first_run(
                        goal_test_fn,
                        get_successors_fn,
                        frontier@,
                        explored@,
                        (total - (rounds + 1)) as nat,
                    ) by {
                        assert(depth_first_run(
                            goal_test_fn,
                            get_successors_fn,
                            root_frontier(initial),
                            set![initial],
                            total,
                        ) == depth_first_run(goal_test_fn, get_successors_fn, before, seen, (total - rounds) as nat));
                    }
                }
                rounds = rounds + 1;
                let a = current_node.state;
                closed = closed.insert(a);
                expansion = expansion.insert(a, successors@);
                assert forall|b: T| #[trigger] expansion[a].contains(b) implies explored@.contains(b) by {
                    let j = choose|j: int| 0 <= j < successors@.len() && successors@[j] == b;
                    assert(explored@.contains(successors[j]));
                }
            }
        }
    }
    proof {
        assert(closed =~= explored@);
        lemma_exhausted(goal_test_fn, get_successors_fn, initial, closed, expansion);
        if lawful {
            assert(depth_first_run(goal_test_fn, get_successors_fn, root_frontier(initial), set![initial], rounds)
                == Outcome::<T>::Exhausted);
        }
    }
    None
}

/// What breadth-first search promises beyond a solution: no sure walk
/// from `initial` to a sure goal has fewer edges than the path of `n`.
pub open spec fn fewest_edges<T, P: Fn(T) -> bool, S: Fn(T) -> Vec<T>>(
    goal: P,
    succ: S,
    initial: T,
    n: Node<T>,
) -> bool {
    forall|w: Seq<T>|
        #[trigger] is_sure_walk(succ, w) && w.len() > 0 && w[0] == initial && surely_goal(goal, w.last())
            ==> n.path().len() <= w.len()
}

/// The queue holds nodes of at most two neighbouring depths, the shallower
/// ones in front, and `dist` records the depth of each.
pub open spec fn layered<T>(queue: Seq<Node<T>>, dist: Map<T, nat>, level: nat) -> bool {
    &&& forall|j: int|
        0 <= j < queue.len() ==> level <= (#[trigger] queue[j]).depth() <= level + 1 && dist[queue[j].state]
            == queue[j].depth()
    &&& forall|j: int, k: int|
        0 <= j < k < queue.len() ==> (#[trigger] queue[j]).depth() <= (#[trigger] queue[k]).depth()
}

/// Expanded states lie no deeper than `level`, and what they lead to lies at
/// most one edge deeper than they do.
pub open spec fn closed_layered<T>(
    closed: Set<T>,
    expansion: Map<T, Seq<T>>,
    dist: Map<T, nat>,
    level: nat,
) -> bool {
    forall|a: T| #[trigger]
        closed.contains(a) ==> dist[a] <= level && forall|b: T| #[trigger]
            expansion[a].contains(b) ==> dist[b] <= dist[a] + 1
}

/// While every explored state shallower than `d` is expanded, the state at
/// position `i < d` of a sure walk from `initial` is expanded and no deeper
/// than `i`.
pub proof fn lemma_walk_within_layers<T, P: Fn(T) -> bool, S: Fn(T) -> Vec<T>>(
    goal: P,
    succ: S,
    explored: Set<T>,
    closed: Set<T>,
    expansion: Map<T, Seq<T>>,
    dist: Map<T, nat>,
    level: nat,
    d: nat,
    w: Seq<T>,
    i: int,
)
    requires
        is_sure_walk(succ, w),
        0 <= i < w.len(),
        i < d,
        explored.contains(w[0]),
        dist[w[0]] == 0,
        expanded_ok(goal, succ, explored, closed, expansion),
        closed_layered(closed, expansion, dist, level),
        forall|s: T| #[trigger] explored.contains(s) && dist[s] < d ==> closed.contains(s),
    ensures
        closed.contains(w[i]),
        dist[w[i]] <= i,
    decreases i,
{
    if i > 0 {
        lemma_walk_within_layers(goal, succ, explored, closed, expansion, dist, level, d, w, i - 1);
        let a = w[i - 1];
        let b = w[i];
        assert(sure_edge(succ, a, b));
        let r = choose|r: Vec<T>| #[trigger] succ.ensures((a,), r) && r@ == expansion[a];
        assert(r@.contains(b));
        assert(expansion[a].contains(b));
    }
}

/// # Breadth First Search
///
/// Explores the graph from `initial` with a queue: the state discovered
/// first is expanded first, and a state is discovered at most once.
///
/// Returns the node of the first state that the goal test accepts; its
/// parents give a path with the fewest edges. The reachable part of the
/// graph must be finite.
pub fn bfs<T, PredicateFn, SuccessorsFn>(
    initial: T,
    goal_test_fn: PredicateFn,
    get_successors_fn: SuccessorsFn,
) -> (result: Option<Node<T>>) where
    T: Clone + Eq + Hash,
    PredicateFn: Fn(T) -> bool,
    SuccessorsFn: Fn(T) -> Vec<T>,

    requires
        lawful_state::<T>(),
        forall|s: T| goal_test_fn.requires((s,)),
        forall|s: T| get_successors_fn.requires((s,)),
        reachable_states(get_successors_fn, initial).finite(),
    ensures
        match result {
            Some(node) => is_solution(goal_test_fn, get_successors_fn, initial, node) && fewest_edges(
                goal_test_fn,
                get_successors_fn,
                initial,
                node,
            ),
            None => no_goal_reachable(goal_test_fn, get_successors_fn, initial),
        },
        breadth_first_outcome(goal_test_fn, get_successors_fn, initial, result),
{
    let ghost space = reachable_states(get_successors_fn, initial);
    let mut frontier = VecDeque::<Node<T>>::new();
    frontier.push_back(Node::<T>::new(clone_state(&initial), None));
    let mut explored = HashSet::<T>::new();
    explored.insert(initial);
    let ghost mut closed: Set<T> = Set::empty();
    let ghost mut expansion: Map<T, Seq<T>> = Map::empty();
    let ghost mut dist: Map<T, nat> = Map::empty().insert(initial, 0nat);
    let ghost mut level: nat = 0;
    let ghost lawful = deterministic_goal(goal_test_fn) && deterministic_successors(get_successors_fn);
    let ghost mut rounds: nat = 0;
    proof {
        assert(frontier@ =~= root_frontier(initial));
        assert(explored@ =~= set![initial]);
        let w = seq![initial];
        assert(is_walk(get_successors_fn, w));
        assert(w[0] == initial && w.last() == initial);
        assert(reachable(get_successors_fn, initial, initial));
        assert(frontier@[0].path() =~= w);
    }
    while frontier.len() > 0
        invariant
            lawful_state::<T>(),
            forall|s: T| goal_test_fn.requires((s,)),
            forall|s: T| get_successors_fn.requires((s,)),
            space == reachable_states(get_successors_fn, initial),
            space.finite(),
            explored@.contains(initial),
            dist[initial] == 0,
            forall|j: int|
                0 <= j < frontier@.len() ==> node_ok(get_successors_fn, initial, #[trigger] frontier@[j])
                    && explored@.contains(frontier@[j].state),
            forall|s: T| #[trigger] explored@.contains(s) ==> space.contains(s),
            forall|s: T| #[trigger]
                explored@.contains(s) ==> closed.contains(s) || exists|j: int|
                    0 <= j < frontier@.len() && (#[trigger] frontier@[j]).state == s,
            expanded_ok(goal_test_fn, get_successors_fn, explored@, closed, expansion),
            layered(frontier@, dist, level),
            closed_layered(closed, expansion, dist, level),
            lawful == (deterministic_goal(goal_test_fn) && deterministic_successors(get_successors_fn)),
            lawful ==> forall|total: nat|
                total >= rounds ==> #[trigger] breadth_first_run(
                    goal_test_fn,
                    get_successors_fn,
                    root_frontier(initial),
                    set![initial],
                    total,
                ) == breadth_first_run(
                    goal_test_fn,
                    get_successors_fn,
                    frontier@,
                    explored@,
                    (total - rounds) as nat,
                ),
        decreases space.difference(explored@).len(), frontier@.len(),
    {
        let ghost before = frontier@;
        let current_node = frontier.pop_front();
        if let Some(current_node) = current_node {
            let ghost d = current_node.depth();
            proof {
                assert(current_node == before[0]);
                assert forall|j: int| 0 <= j < frontier@.len() implies #[trigger] frontier@[j] == before[j + 1] by {}
                assert(layered(frontier@, dist, d)) by {
                    assert forall|j: int| 0 <= j < frontier@.len() implies d <= (#[trigger] frontier@[j]).depth()
                        <= d + 1 && dist[frontier@[j].state] == frontier@[j].depth() by {
                        assert(frontier@[j] == before[j + 1]);
                    }
                    assert forall|j: int, k: int| 0 <= j < k < frontier@.len() implies (#[trigger] frontier@[j]).depth()
                        <= (#[trigger] frontier@[k]).depth() by {
                        assert(frontier@[j] == before[j + 1]);
                        assert(frontier@[k] == before[k + 1]);
                    }
                }
                assert forall|s: T| #[trigger] explored@.contains(s) implies closed.contains(s) || s
                    == current_node.state || exists|j: int|
                    0 <= j < frontier@.len() && (#[trigger] frontier@[j]).state == s by {
                    if !closed.contains(s) {
                        let j = choose|j: int| 0 <= j < before.len() && (#[trigger] before[j]).state == s;
                        if j > 0 {
                            assert(frontier@[j - 1].state == s);
                        }
                    }
                }
                level = d;
            }
            if goal_test_fn(clone_state(&current_node.state)) {
                proof {
                    if lawful {
                        assert(breadth_first_run(
                            goal_test_fn,
                            get_successors_fn,
                            root_frontier(initial),
                            set![initial],
                            rounds + 1,
                        ) == Outcome::Found(current_node));
                    }
                    {
                        assert forall|w: Seq<T>|
                            #[trigger] is_sure_walk(get_successors_fn, w) && w.len() > 0 && w[0] == initial
                                && surely_goal(goal_test_fn, w.last()) implies current_node.path().len()
                            <= w.len() by {
                            if w.len() < current_node.path().len() {
                                lemma_walk_within_layers(
                                    goal_test_fn,
                                    get_successors_fn,
                                    explored@,
                                    closed,
                                    expansion,
                                    dist,
                                    level,
                                    d,
                                    w,
                                    w.len() - 1,
                                );
                                assert(goal_test_fn.ensures((w.last(),), false));
                            }
                        }
                    }
                }
                return Some(current_node);
            }
            let successors = get_successors_fn(clone_state(&current_node.state));
            let ghost rest = frontier@;
            let ghost seen = explored@;
            let mut i: usize = 0;
            while i < successors.len()
                invariant
                    lawful_state::<T>(),
                    space == reachable_states(get_successors_fn, initial),
                    space.finite(),
                    0 <= i <= successors.len(),
                    get_successors_fn.ensures((current_node.state,), successors),
                    node_ok(get_successors_fn, initial, current_node),
                    current_node.depth() == d,
                    level == d,
                    dist[current_node.state] == d,
                    dist[initial] == 0,
                    explored@.contains(initial),
                    explored@.contains(current_node.state),
                    forall|j: int|
                        0 <= j < frontier@.len() ==> node_ok(get_successors_fn, initial, #[trigger] frontier@[j])
                            && explored@.contains(frontier@[j].state),
                    forall|s: T| #[trigger] explored@.contains(s) ==> space.contains(s),
                    forall|s: T| #[trigger]
                        explored@.contains(s) ==> closed.contains(s) || s == current_node.state || exists|j: int|
                            0 <= j < frontier@.len() && (#[trigger] frontier@[j]).state == s,
                    expanded_ok(goal_test_fn, get_successors_fn, explored@, closed, expansion),
                    layered(frontier@, dist, level),
                    closed_layered(closed, expansion, dist, level),
                    forall|j: int|
                        0 <= j < i ==> explored@.contains(#[trigger] successors[j]) && dist[successors[j]] <= d + 1,
                    (explored@ == seen && frontier@ == rest) || space.difference(explored@).len()
                        < space.difference(seen).len(),
                    space.difference(explored@).len() <= space.difference(seen).len(),
                    (frontier@, explored@) == discover(current_node, successors@, rest, seen, i as int),
                decreases successors.len() - i,
            {
                let ghost earlier = explored@;
                let ghost queue = frontier@;
                let ghost b = successors[i as int];
                if !explored.contains(&successors[i]) {
                    explored.insert(clone_state(&successors[i]));
                    let child = Node::<T>::new(
                        clone_state(&successors[i]),
                        Some(Box::new(current_node.clone())),
                    );
                    proof {
                        assert(successors@.contains(b));
                        assert(edge(get_successors_fn, current_node.state, b));
                        lemma_extend_walk(get_successors_fn, current_node.path(), b);
                        assert(child.path() == current_node.path().push(b));
                        assert(reachable(get_successors_fn, initial, b));
                        assert(space.contains(b));
                        assert(space.difference(explored@) =~= space.difference(earlier).remove(b));
                        dist = dist.insert(b, child.depth());
                    }
                    frontier.push_back(child);
                    proof {
                        assert forall|s: T| #[trigger] explored@.contains(s) implies closed.contains(s) || s
                            == current_node.state || exists|j: int|
                            0 <= j < frontier@.len() && (#[trigger] frontier@[j]).state == s by {
                            if s == b {
                                assert(frontier@[queue.len() as int].state == s);
                            } else if !closed.contains(s) && s != current_node.state {
                                let j = choose|j: int| 0 <= j < queue.len() && (#[trigger] queue[j]).state == s;
                                assert(frontier@[j].state == s);
                            }
                        }
                        assert(layered(frontier@, dist, level)) by {
                            assert forall|j: int| 0 <= j < frontier@.len() implies level <= (
                            #[trigger] frontier@[j]).depth() <= level + 1 && dist[frontier@[j].state]
                                == frontier@[j].depth() by {
                                if j < queue.len() {
                                    assert(frontier@[j] == queue[j]);
                                    assert(earlier.contains(queue[j].state));
                                }
                            }
                            assert forall|j: int, k: int| 0 <= j < k < frontier@.len() implies (
                            #[trigger] frontier@[j]).depth() <= (#[trigger] frontier@[k]).depth() by {
                                assert(frontier@[j] == queue[j]);
                                if k < queue.len() {
                                    assert(frontier@[k] == queue[k]);
                                }
                            }
                        }
                        assert(closed_layered(closed, expansion, dist, level)) by {
                            assert forall|a: T| #[trigger] closed.contains(a) implies dist[a] <= level
                                && forall|c: T| #[trigger]
                                expansion[a].contains(c) ==> dist[c] <= dist[a] + 1 by {
                                assert(earlier.contains(a));
                                assert forall|c: T| #[trigger] expansion[a].contains(c) implies dist[c]
                                    <= dist[a] + 1 by {
                                    assert(earlier.contains(c));
                                }
                            }
                        }
                        assert forall|j: int| 0 <= j < i + 1 implies explored@.contains(#[trigger] successors[j])
                            && dist[successors[j]] <= d + 1 by {
                            if j < i {
                                assert(earlier.contains(successors[j]));
                            }
                        }
                    }
                } else {
                    proof {
                        if !closed.contains(b) && b != current_node.state {
                            let j = choose|j: int| 0 <= j < queue.len() && (#[trigger] queue[j]).state == b;
                            assert(dist[b] == queue[j].depth());
                        }
                    }
                }
                i += 1;
            }
            proof {
                if lawful {
                    lemma_successors_of(get_successors_fn, current_node.state, successors);
                    assert(rest =~= before.drop_first());
                    assert forall|total: nat| total >= rounds + 1 implies #[trigger] breadth_first_run(
                        goal_test_fn,
                        get_successors_fn,
                        root_frontier(initial),
                        set![initial],
                        total,
                    ) == breadth_first_run(
                        goal_test_fn,
                        get_successors_fn,
                        frontier@,
                        explored@,
                        (total - (rounds + 1)) as nat,
                    ) by {
                        assert(breadth_first_run(
                            goal_test_fn,
                            get_successors_fn,
                            root_frontier(initial),
                            set![initial],
                            total,
                        ) == breadth_first_run(goal_test_fn, get_successors_fn, before, seen, (total - rounds) as nat));
                    }
                }
                rounds = rounds + 1;
                let a = current_node.state;
                closed = closed.insert(a);
                expansion = expansion.insert(a, successors@);
                assert forall|b: T| #[trigger] expansion[a].contains(b) implies explored@.contains(b) && dist[b]
                    <= dist[a] + 1 by {
                    let j = choose|j: int| 0 <= j < successors@.len() && successors@[j] == b;
                    assert(explored@.contains(successors[j]));
                }
            }
        }
    }
    proof {
        assert(closed =~= explored@);
        lemma_exhausted(goal_test_fn, get_successors_fn, initial, closed, expansion);
        if lawful {
            assert(breadth_first_run(goal_test_fn, get_successors_fn, root_frontier(initial), set![initial], rounds)
                == Outcome::<T>::Exhausted);
        }
    }
    None
}

/// The heuristic never reports more for a state than the number of edges of
/// any sure walk from that state to a sure goal.
pub open spec fn admissible<T, P: Fn(T) -> bool, S: Fn(T) -> Vec<T>, H: Fn(T) -> u64>(
    goal: P,
    succ: S,
    heuristic: H,
) -> bool {
    forall|s: T, v: u64, w: Seq<T>|
        #[trigger] heuristic.ensures((s,), v) && #[trigger] is_sure_walk(succ, w) && w.len() > 0 && w[0]
            == s && surely_goal(goal, w.last()) ==> v <= w.len() - 1
}

/// What A* promises beyond a solution: the node's cost is the number of
/// edges of its path, and under an admissible heuristic no sure walk from
/// `initial` to a sure goal has fewer.
pub open spec fn least_cost<T, P: Fn(T) -> bool, S: Fn(T) -> Vec<T>, H: Fn(T) -> u64>(
    goal: P,
    succ: S,
    heuristic: H,
    initial: T,
    n: Node<T>,
) -> bool {
    &&& n.cost == n.depth()
    &&& admissible(goal, succ, heuristic) ==> fewest_edges(goal, succ, initial, n)
}

/// The position of the first node of least priority among the first `upto`
/// nodes of the frontier.
pub open spec fn first_cheapest<T>(frontier: Seq<Node<T>>, upto: int) -> int
    decreases upto,
{
    if upto <= 1 {
        0
    } else {
        let before = first_cheapest(frontier, upto - 1);
        if frontier[upto - 1].priority() < frontier[before].priority() {
            upto - 1
        } else {
            before
        }
    }
}

/// What the heuristic reports for `a`, where it is deterministic.
pub open spec fn estimate_of<T, H: Fn(T) -> u64>(heuristic: H, a: T) -> u64 {
    choose|v: u64| #[trigger] heuristic.ensures((a,), v)
}

/// The heuristic always reports the same estimate for one state.
pub open spec fn deterministic_estimate<T, H: Fn(T) -> u64>(heuristic: H) -> bool {
    forall|a: T, v1: u64, v2: u64|
        #[trigger] heuristic.ensures((a,), v1) && #[trigger] heuristic.ensures((a,), v2) ==> v1 == v2
}

/// The frontier and the recorded costs after the first `upto` of the states
/// `found` were looked at as successors of `parent`: each that had no cost
/// yet, or a higher one than the way over `parent` gives, has that cost
/// now, and a node for it stands at the end of the frontier.
#[verifier::opaque]
pub open spec fn discover_priced<T, H: Fn(T) -> u64>(
    heuristic: H,
    parent: Node<T>,
    found: Seq<T>,
    frontier: Seq<Node<T>>,
    best: Map<T, u64>,
    upto: int,
) -> (Seq<Node<T>>, Map<T, u64>)
    decreases upto,
{
    if upto <= 0 {
        (frontier, best)
    } else {
        let (nodes, costs) = discover_priced(heuristic, parent, found, frontier, best, upto - 1);
        let b = found[upto - 1];
        let new_cost = (parent.cost + 1) as u64;
        if costs.contains_key(b) && costs[b] <= new_cost {
            (nodes, costs)
        } else {
            (
                nodes.push(
                    Node {
                        state: b,
                        parent: Some(Box::new(parent)),
                        cost: new_cost,
                        heuristic: estimate_of(heuristic, b),
                    },
                ),
                costs.insert(b, new_cost),
            )
        }
    }
}

/// What looking at one more successor does to the frontier and the costs.
pub proof fn lemma_discover_priced_step<T, H: Fn(T) -> u64>(
    heuristic: H,
    parent: Node<T>,
    found: Seq<T>,
    frontier: Seq<Node<T>>,
    best: Map<T, u64>,
    upto: int,
)
    requires
        upto >= 0,
    ensures
        upto == 0 ==> discover_priced(heuristic, parent, found, frontier, best, upto) == (frontier, best),
        ({
            let (nodes, costs) = discover_priced(heuristic, parent, found, frontier, best, upto);
            let b = found[upto];
            let new_cost = (parent.cost + 1) as u64;
            discover_priced(heuristic, parent, found, frontier, best, upto + 1) == (if costs.contains_key(b)
                && costs[b] <= new_cost {
                (nodes, costs)
            } else {
                (
                    nodes.push(
                        Node {
                            state: b,
                            parent: Some(Box::new(parent)),
                            cost: new_cost,
                            heuristic: estimate_of(heuristic, b),
                        },
                    ),
                    costs.insert(b, new_cost),
                )
            })
        }),
{
    reveal_with_fuel(discover_priced, 2);
}

/// The outcome of at most `fuel` rounds of A* from the given frontier and
/// recorded costs: each round takes the first node of least priority out of
/// the frontier, ends with it if the goal test accepts its state, and
/// otherwise discovers its successors.
pub open spec fn best_first_run<T, P: Fn(T) -> bool, S: Fn(T) -> Vec<T>, H: Fn(T) -> u64>(
    goal: P,
    succ: S,
    heuristic: H,
    frontier: Seq<Node<T>>,
    best: Map<T, u64>,
    fuel: nat,
) -> Outcome<T>
    decreases fuel,
{
    if frontier.len() == 0 {
        Outcome::Exhausted
    } else if fuel == 0 {
        Outcome::Unfinished
    } else {
        let at = first_cheapest(frontier, frontier.len() as int);
        let taken = frontier[at];
        if is_goal(goal, taken.state) {
            Outcome::Found(taken)
        } else {
            let found = successors_of(succ, taken.state);
            let (nodes, costs) = discover_priced(
                heuristic,
                taken,
                found,
                frontier.remove(at),
                best,
                found.len() as int,
            );
            best_first_run(goal, succ, heuristic, nodes, costs, (fuel - 1) as nat)
        }
    }
}

/// What A* returns, where the three functions are deterministic: the
/// outcome of the run from the root that is long enough to end.
pub open spec fn best_first_outcome<T, P: Fn(T) -> bool, S: Fn(T) -> Vec<T>, H: Fn(T) -> u64>(
    goal: P,
    succ: S,
    heuristic: H,
    initial: T,
    result: Option<Node<T>>,
) -> bool {
    deterministic_goal(goal) && deterministic_successors(succ) && deterministic_estimate(heuristic)
        ==> exists|fuel: nat|
        #[trigger] best_first_run(
            goal,
            succ,
            heuristic,
            seq![Node { state: initial, parent: None, cost: 0, heuristic: estimate_of(heuristic, initial) }],
            map![initial => 0u64],
            fuel,
        ) == outcome_of(result)
}

/// A run of A* that has ended ends the same way with more fuel.
pub proof fn lemma_best_first_run_settles<T, P: Fn(T) -> bool, S: Fn(T) -> Vec<T>, H: Fn(T) -> u64>(
    goal: P,
    succ: S,
    heuristic: H,
    frontier: Seq<Node<T>>,
    best: Map<T, u64>,
    fuel: nat,
    more: nat,
)
    requires
        fuel <= more,
        best_first_run(goal, succ, heuristic, frontier, best, fuel) != Outcome::<T>::Unfinished,
    ensures
        best_first_run(goal, succ, heuristic, frontier, best, more) == best_first_run(
            goal,
            succ,
            heuristic,
            frontier,
            best,
            fuel,
        ),
    decreases fuel,
{
    if frontier.len() > 0 && fuel > 0 {
        let at = first_cheapest(frontier, frontier.len() as int);
        let taken = frontier[at];
        if !is_goal(goal, taken.state) {
            let found = successors_of(succ, taken.state);
            let (nodes, costs) = discover_priced(
                heuristic,
                taken,
                found,
                frontier.remove(at),
                best,
                found.len() as int,
            );
            lemma_best_first_run_settles(goal, succ, heuristic, nodes, costs, (fuel - 1) as nat, (more - 1) as nat);
        }
    }
}

/// Takes the first node of least priority out of the frontier.
fn pop_cheapest<T>(frontier: &mut Vec<Node<T>>) -> (result: Option<Node<T>>)
    ensures
        match result {
            None => old(frontier)@.len() == 0 && final(frontier)@ == old(frontier)@,
            Some(n) => exists|k: int|
                {
                    &&& 0 <= k < old(frontier)@.len()
                    &&& n == #[trigger] old(frontier)@[k]
                    &&& final(frontier)@ == old(frontier)@.remove(k)
                    &&& forall|j: int|
                        0 <= j < old(frontier)@.len() ==> n.priority() <= (#[trigger] old(frontier)@[j]).priority()
                    &&& k == first_cheapest(old(frontier)@, old(frontier)@.len() as int)
                },
        },
{
    if frontier.len() == 0 {
        return None;
    }
    let mut best: usize = 0;
    let mut i: usize = 1;
    while i < frontier.len()
        invariant
            0 <= best < i <= frontier.len(),
            forall|j: int| 0 <= j < i ==> frontier[best as int].priority() <= (#[trigger] frontier[j]).priority(),
            best == first_cheapest(frontier@, i as int),
        decreases frontier.len() - i,
    {
        if frontier[i].priority_key() < frontier[best].priority_key() {
            best = i;
        }
        i += 1;
    }
    let node = frontier.remove(best);
    Some(node)
}

/// The sum, over the states of `order`, of the best known cost of each, with
/// `cap` standing for a state that has none yet.
pub open spec fn potential<T>(order: Seq<T>, best: Map<T, u64>, cap: nat) -> nat
    decreases order.len(),
{
    if order.len() == 0 {
        0
    } else {
        potential(order.drop_last(), best, cap) + (if best.contains_key(order.last()) {
            best[order.last()] as nat
        } else {
            cap
        })
    }
}

/// Recording a lower cost for a state lowers the potential of every order
/// that holds the state.
pub proof fn lemma_potential_drops<T>(order: Seq<T>, best: Map<T, u64>, cap: nat, s: T, c: u64)
    requires
        c < cap,
        best.contains_key(s) ==> c < best[s],
    ensures
        potential(order, best.insert(s, c), cap) <= potential(order, best, cap),
        order.contains(s) ==> potential(order, best.insert(s, c), cap) < potential(order, best, cap),
    decreases order.len(),
{
    if order.len() > 0 {
        let rest = order.drop_last();
        lemma_potential_drops(rest, best, cap, s, c);
        if order.contains(s) && order.last() != s {
            let k = choose|k: int| 0 <= k < order.len() && order[k] == s;
            assert(rest[k] == s);
        }
    }
}

/// A sequence without repetition whose items all lie in a finite set is no
/// longer than the set is large.
pub proof fn lemma_distinct_bounded<T>(items: Seq<T>, within: Set<T>)
    requires
        within.finite(),
        items.no_duplicates(),
        forall|i: int| 0 <= i < items.len() ==> within.contains(#[trigger] items[i]),
    ensures
        items.len() <= within.len(),
{
    items.unique_seq_to_set();
    assert(items.to_set().subset_of(within)) by {
        assert forall|x: T| items.to_set().contains(x) implies within.contains(x) by {
            let k = choose|k: int| 0 <= k < items.len() && items[k] == x;
            assert(within.contains(items[k]));
        }
    }
    vstd::set_lib::lemma_len_subset(items.to_set(), within);
}

/// What A* keeps of each node: it ends a walk from `initial` on which no
/// state repeats, its cost is its depth, its estimate came from the
/// heuristic, and each state on its path has a recorded cost no larger than
/// its position.
pub open spec fn priced_ok<T, S: Fn(T) -> Vec<T>, H: Fn(T) -> u64>(
    succ: S,
    heuristic: H,
    initial: T,
    best: Map<T, u64>,
    n: Node<T>,
) -> bool {
    &&& node_ok(succ, initial, n)
    &&& n.cost == n.depth()
    &&& heuristic.ensures((n.state,), n.heuristic)
    &&& n.path().no_duplicates()
    &&& forall|i: int|
        0 <= i < n.path().len() ==> best.contains_key(#[trigger] n.path()[i]) && best[n.path()[i]] <= i
}

/// What A* records of the states it has expanded: the goal test refused
/// each, `done` holds the least cost at which it was expanded, and each
/// successor that was reported has a recorded cost of at most one more.
pub open spec fn priced_expanded_ok<T, P: Fn(T) -> bool, S: Fn(T) -> Vec<T>>(
    goal: P,
    succ: S,
    best: Map<T, u64>,
    closed: Set<T>,
    expansion: Map<T, Seq<T>>,
    done: Map<T, nat>,
) -> bool {
    forall|a: T| #[trigger]
        closed.contains(a) ==> {
            &&& best.contains_key(a)
            &&& best[a] <= done[a]
            &&& goal.ensures((a,), false)
            &&& exists|r: Vec<T>| #[trigger] succ.ensures((a,), r) && r@ == expansion[a]
            &&& forall|b: T| #[trigger]
                expansion[a].contains(b) ==> best.contains_key(b) && best[b] <= done[a] + 1
        }
}

/// The recorded cost of `s` is that of a node that waits in the frontier or
/// that of its expansion.
pub open spec fn accounted<T>(
    best: Map<T, u64>,
    frontier: Seq<Node<T>>,
    closed: Set<T>,
    done: Map<T, nat>,
    s: T,
) -> bool {
    ||| exists|j: int| 0 <= j < frontier.len() && (#[trigger] frontier[j]).state == s && frontier[j].cost == best[s]
    ||| closed.contains(s) && done[s] == best[s]
}

/// The part of a sure walk from position `i` on is a sure walk.
pub proof fn lemma_walk_suffix<T, S: Fn(T) -> Vec<T>>(succ: S, w: Seq<T>, i: int)
    requires
        is_sure_walk(succ, w),
        0 <= i < w.len(),
    ensures
        is_sure_walk(succ, w.subrange(i, w.len() as int)),
        w.subrange(i, w.len() as int).len() == w.len() - i,
        w.subrange(i, w.len() as int)[0] == w[i],
        w.subrange(i, w.len() as int).last() == w.last(),
{
    let v = w.subrange(i, w.len() as int);
    assert forall|j: int| 0 <= j < v.len() - 1 implies sure_edge(succ, #[trigger] v[j], v[j + 1]) by {
        assert(v[j] == w[i + j] && v[j + 1] == w[i + j + 1]);
    }
}

/// Along a sure walk from the initial state to a sure goal that is shorter
/// than the cost of the node in hand, either a node of priority no more than the
/// walk's length waits in the frontier, or the state at position `i` was
/// expanded at a cost of at most `i`.
pub proof fn lemma_cheaper_node_waits<T, P: Fn(T) -> bool, S: Fn(T) -> Vec<T>, H: Fn(T) -> u64>(
    goal: P,
    succ: S,
    heuristic: H,
    best: Map<T, u64>,
    frontier: Seq<Node<T>>,
    closed: Set<T>,
    expansion: Map<T, Seq<T>>,
    done: Map<T, nat>,
    current: Node<T>,
    w: Seq<T>,
    i: int,
)
    requires
        admissible(goal, succ, heuristic),
        is_sure_walk(succ, w),
        0 <= i < w.len(),
        surely_goal(goal, w.last()),
        w.len() - 1 < current.cost,
        best.contains_key(w[0]),
        best[w[0]] == 0,
        priced_expanded_ok(goal, succ, best, closed, expansion, done),
        forall|s: T| #[trigger]
            best.contains_key(s) ==> accounted(best, frontier, closed, done, s) || (s == current.state
                && best[s] == current.cost),
        forall|j: int|
            0 <= j < frontier.len() ==> heuristic.ensures(
                ((#[trigger] frontier[j]).state,),
                frontier[j].heuristic,
            ),
    ensures
        (exists|j: int| 0 <= j < frontier.len() && (#[trigger] frontier[j]).priority() <= w.len() - 1) || (
        closed.contains(w[i]) && done[w[i]] <= i),
    decreases i,
{
    let cheap = exists|j: int| 0 <= j < frontier.len() && (#[trigger] frontier[j]).priority() <= w.len() - 1;
    if i > 0 {
        lemma_cheaper_node_waits(goal, succ, heuristic, best, frontier, closed, expansion, done, current, w, i - 1);
    }
    if !cheap {
        let b = w[i];
        if i > 0 {
            let a = w[i - 1];
            assert(sure_edge(succ, a, b));
            let r = choose|r: Vec<T>| #[trigger] succ.ensures((a,), r) && r@ == expansion[a];
            assert(r@.contains(b));
            assert(expansion[a].contains(b));
        }
        assert(best.contains_key(b) && best[b] <= i);
        if !(closed.contains(b) && done[b] == best[b]) {
            let j = choose|j: int| 0 <= j < frontier.len() && (#[trigger] frontier[j]).state == b && frontier[j].cost == best[b];
            lemma_walk_suffix(succ, w, i);
            let rest = w.subrange(i, w.len() as int);
            assert(heuristic.ensures((frontier[j].state,), frontier[j].heuristic));
            assert(is_sure_walk(succ, rest));
            assert(frontier[j].heuristic <= rest.len() - 1);
            assert(frontier[j].priority() <= w.len() - 1);
        }
    }
}

/// # A-Star Search
///
/// Explores the graph from `initial` with a frontier ordered by the sum of
/// the cost so far and `heuristic_fn`'s estimate of what remains. Each edge
/// costs one. A state is taken up again only when a strictly cheaper way to
/// it is found.
///
/// Returns the node of the first state that the goal test accepts; its
/// parents give the path that was taken, which is a cheapest one when the
/// heuristic never overestimates. The reachable part of the graph must be
/// finite.
#[verifier::rlimit(25)]
#[verifier::spinoff_prover]
pub fn astar<T, PredicateFn, SuccessorsFn, HeuristicFn>(
    initial: T,
    goal_test_fn: PredicateFn,
    get_successors_fn: SuccessorsFn,
    heuristic_fn: HeuristicFn,
) -> (result: Option<Node<T>>) where
    T: Clone + Eq + Hash,
    PredicateFn: Fn(T) -> bool,
    SuccessorsFn: Fn(T) -> Vec<T>,
    HeuristicFn: Fn(T) -> u64,

    requires
        lawful_state::<T>(),
        forall|s: T| goal_test_fn.requires((s,)),
        forall|s: T| get_successors_fn.requires((s,)),
        forall|s: T| heuristic_fn.requires((s,)),
        reachable_states(get_successors_fn, initial).finite(),
    ensures
        match result {
            Some(node) => is_solution(goal_test_fn, get_successors_fn, initial, node) && least_cost(
                goal_test_fn,
                get_successors_fn,
                heuristic_fn,
                initial,
                node,
            ),
            None => no_goal_reachable(goal_test_fn, get_successors_fn, initial),
        },
        best_first_outcome(goal_test_fn, get_successors_fn, heuristic_fn, initial, result),
{
    let ghost space = reachable_states(get_successors_fn, initial);
    let ghost order = space.to_seq();
    let ghost cap = space.len();
    let mut frontier = Vec::<Node<T>>::new();
    let estimate = heuristic_fn(clone_state(&initial));
    frontier.push(Node::<T>::new_with_cost_and_heuristic(clone_state(&initial), None, 0, estimate));
    let mut explored = HashMap::<T, u64>::new();
    explored.insert(initial, 0);
    let ghost mut closed: Set<T> = Set::empty();
    let ghost mut expansion: Map<T, Seq<T>> = Map::empty();
    let ghost mut done: Map<T, nat> = Map::empty();
    let ghost lawful = deterministic_goal(goal_test_fn) && deterministic_successors(get_successors_fn)
        && deterministic_estimate(heuristic_fn);
    let ghost mut rounds: nat = 0;
    let ghost first_frontier = seq![
        Node { state: initial, parent: None, cost: 0, heuristic: estimate_of(heuristic_fn, initial) },
    ];
    let ghost first_costs = map![initial => 0u64];
    proof {
        if lawful {
            assert(estimate == estimate_of(heuristic_fn, initial));
            assert(frontier@ =~= first_frontier);
        }
        assert(explored@ =~= first_costs);
        let w = seq![initial];
        assert(is_walk(get_successors_fn, w));
        assert(w[0] == initial && w.last() == initial);
        assert(reachable(get_successors_fn, initial, initial));
        assert(frontier[0].path() =~= w);
        space.lemma_to_seq_to_set_id();
        assert forall|s: T| space.contains(s) <==> order.contains(s) by {
            assert(order.to_set().contains(s) <==> order.contains(s));
        }
        assert(accounted(explored@, frontier@, closed, done, initial));
    }
    while !frontier.is_empty()
        invariant
            lawful_state::<T>(),
            forall|s: T| goal_test_fn.requires((s,)),
            forall|s: T| get_successors_fn.requires((s,)),
            forall|s: T| heuristic_fn.requires((s,)),
            space == reachable_states(get_successors_fn, initial),
            space.finite(),
            cap == space.len(),
            forall|s: T| space.contains(s) <==> order.contains(s),
            explored@.contains_key(initial),
            explored@[initial] == 0,
            forall|j: int|
                0 <= j < frontier.len() ==> priced_ok(
                    get_successors_fn,
                    heuristic_fn,
                    initial,
                    explored@,
                    #[trigger] frontier[j],
                ),
            forall|s: T| #[trigger] explored@.contains_key(s) ==> space.contains(s),
            forall|s: T| #[trigger]
                explored@.contains_key(s) ==> accounted(explored@, frontier@, closed, done, s),
            priced_expanded_ok(goal_test_fn, get_successors_fn, explored@, closed, expansion, done),
            lawful == (deterministic_goal(goal_test_fn) && deterministic_successors(get_successors_fn)
                && deterministic_estimate(heuristic_fn)),
            first_frontier == seq![
                Node { state: initial, parent: None, cost: 0, heuristic: estimate_of(heuristic_fn, initial) },
            ],
            first_costs == map![initial => 0u64],
            lawful ==> forall|total: nat|
                total >= rounds ==> #[trigger] best_first_run(
                    goal_test_fn,
                    get_successors_fn,
                    heuristic_fn,
                    first_frontier,
                    first_costs,
                    total,
                ) == best_first_run(
                    goal_test_fn,
                    get_successors_fn,
                    heuristic_fn,
                    frontier@,
                    explored@,
                    (total - rounds) as nat,
                ),
        decreases potential(order, explored@, cap), frontier.len(),
    {
        let ghost before = frontier@;
        let current_node = pop_cheapest(&mut frontier);
        if let Some(current_node) = current_node {
            let ghost at = choose|k: int|
                {
                    &&& 0 <= k < before.len()
                    &&& current_node == #[trigger] before[k]
                    &&& frontier@ == before.remove(k)
                    &&& forall|j: int|
                        0 <= j < before.len() ==> current_node.priority() <= (#[trigger] before[j]).priority()
                    &&& k == first_cheapest(before, before.len() as int)
                };
            proof {
                assert forall|j: int| 0 <= j < frontier.len() implies #[trigger] frontier[j] == before[if j < at {
                    j
                } else {
                    j + 1
                }] by {}
                assert forall|j: int| 0 <= j < frontier.len() implies priced_ok(
                    get_successors_fn,
                    heuristic_fn,
                    initial,
                    explored@,
                    #[trigger] frontier[j],
                ) && current_node.priority() <= frontier[j].priority() by {
                    let k = if j < at { j } else { j + 1 };
                    assert(frontier[j] == before[k]);
                }
                assert forall|s: T| #[trigger] explored@.contains_key(s) implies accounted(
                    explored@,
                    frontier@,
                    closed,
                    done,
                    s,
                ) || (s == current_node.state && explored@[s] == current_node.cost) by {
                    if !(closed.contains(s) && done[s] == explored@[s]) {
                        let j = choose|j: int|
                            0 <= j < before.len() && (#[trigger] before[j]).state == s && before[j].cost
                                == explored@[s];
                        if j < at {
                            assert(frontier[j] == before[j]);
                        } else if j > at {
                            assert(frontier[j - 1] == before[j]);
                        }
                    }
                }
            }
            if goal_test_fn(clone_state(&current_node.state)) {
                proof {
                    if lawful {
                        assert(best_first_run(
                            goal_test_fn,
                            get_successors_fn,
                            heuristic_fn,
                            first_frontier,
                            first_costs,
                            rounds + 1,
                        ) == Outcome::Found(current_node));
                    }
                    if admissible(goal_test_fn, get_successors_fn, heuristic_fn) {
                        assert forall|w: Seq<T>|
                            #[trigger] is_sure_walk(get_successors_fn, w) && w.len() > 0 && w[0] == initial
                                && surely_goal(goal_test_fn, w.last()) implies current_node.path().len()
                            <= w.len() by {
                            if w.len() < current_node.path().len() {
                                lemma_cheaper_node_waits(
                                    goal_test_fn,
                                    get_successors_fn,
                                    heuristic_fn,
                                    explored@,
                                    frontier@,
                                    closed,
                                    expansion,
                                    done,
                                    current_node,
                                    w,
                                    w.len() - 1,
                                );
                                if closed.contains(w.last()) {
                                    assert(goal_test_fn.ensures((w.last(),), false));
                                } else {
                                    let j = choose|j: int|
                                        0 <= j < frontier.len() && (#[trigger] frontier[j]).priority() <= w.len()
                                            - 1;
                                    assert(current_node.priority() <= frontier[j].priority());
                                }
                            }
                        }
                    }
                }
                return Some(current_node);
            }
            let successors = get_successors_fn(clone_state(&current_node.state));
            let ghost rest = frontier@;
            let ghost seen = explored@;
            proof {
                lemma_distinct_bounded(current_node.path(), explored@.dom());
                assert(spec_hash_map_len(&explored) == explored@.len());
            }
            let new_cost: u64 = current_node.cost + 1;
            proof {
                lemma_discover_priced_step(heuristic_fn, current_node, successors@, rest, seen, 0);
            }
            let mut i: usize = 0;
            while i < successors.len()
                invariant
                    lawful_state::<T>(),
                    forall|s: T| heuristic_fn.requires((s,)),
                    space == reachable_states(get_successors_fn, initial),
                    space.finite(),
                    cap == space.len(),
                    forall|s: T| space.contains(s) <==> order.contains(s),
                    0 <= i <= successors.len(),
                    new_cost == current_node.cost + 1,
                    get_successors_fn.ensures((current_node.state,), successors),
                    priced_ok(get_successors_fn, heuristic_fn, initial, explored@, current_node),
                    explored@.contains_key(initial),
                    explored@[initial] == 0,
                    forall|j: int|
                        0 <= j < frontier.len() ==> priced_ok(
                            get_successors_fn,
                            heuristic_fn,
                            initial,
                            explored@,
                            #[trigger] frontier[j],
                        ),
                    forall|s: T| #[trigger] explored@.contains_key(s) ==> space.contains(s),
                    forall|s: T| #[trigger]
                        explored@.contains_key(s) ==> accounted(explored@, frontier@, closed, done, s) || (s
                            == current_node.state && explored@[s] == current_node.cost),
                    priced_expanded_ok(goal_test_fn, get_successors_fn, explored@, closed, expansion, done),
                    forall|j: int|
                        0 <= j < i ==> explored@.contains_key(#[trigger] successors[j]) && explored@[successors[j]]
                            <= new_cost,
                    (explored@ == seen && frontier@ == rest) || potential(order, explored@, cap) < potential(
                        order,
                        seen,
                        cap,
                    ),
                    potential(order, explored@, cap) <= potential(order, seen, cap),
                    deterministic_estimate(heuristic_fn) ==> (frontier@, explored@) == discover_priced(
                        heuristic_fn,
                        current_node,
                        successors@,
                        rest,
                        seen,
                        i as int,
                    ),
                decreases successors.len() - i,
            {
                let ghost earlier = explored@;
                let ghost waiting = frontier@;
                let ghost b = successors[i as int];
                proof {
                    lemma_discover_priced_step(heuristic_fn, current_node, successors@, rest, seen, i as int);
                }
                let cheaper = match explored.get(&successors[i]) {
                    None => true,
                    Some(old_cost) => new_cost < *old_cost,
                };
                if cheaper {
                    explored.insert(clone_state(&successors[i]), new_cost);
                    let estimate = heuristic_fn(clone_state(&successors[i]));
                    let child = Node::<T>::new_with_cost_and_heuristic(
                        clone_state(&successors[i]),
                        Some(Box::new(current_node.clone())),
                        new_cost,
                        estimate,
                    );
                    proof {
                        let trail = current_node.path();
                        assert(successors@.contains(b));
                        assert(edge(get_successors_fn, current_node.state, b));
                        lemma_extend_walk(get_successors_fn, trail, b);
                        assert(child.path() == trail.push(b));
                        assert(reachable(get_successors_fn, initial, b));
                        assert(space.contains(b));
                        assert forall|k: int| 0 <= k < trail.len() implies #[trigger] trail[k] != b by {
                            assert(earlier.contains_key(trail[k]) && earlier[trail[k]] <= k);
                        }
                        assert(child.path().no_duplicates());
                        assert forall|k: int| 0 <= k < child.path().len() implies explored@.contains_key(
                            #[trigger] child.path()[k],
                        ) && explored@[child.path()[k]] <= k by {
                            if k < trail.len() {
                                assert(earlier.contains_key(trail[k]) && earlier[trail[k]] <= k);
                            }
                        }
                        assert forall|k: int| 0 <= k < child.path().len() implies space.contains(
                            #[trigger] child.path()[k],
                        ) by {
                            assert(explored@.contains_key(child.path()[k]));
                        }
                        lemma_distinct_bounded(child.path(), space);
                        lemma_potential_drops(order, earlier, cap, b, new_cost);
                    }
                    frontier.push(child);
                    proof {
                        assert forall|j: int| 0 <= j < frontier.len() implies priced_ok(
                            get_successors_fn,
                            heuristic_fn,
                            initial,
                            explored@,
                            #[trigger] frontier[j],
                        ) by {
                            if j < waiting.len() {
                                let n = waiting[j];
                                assert(frontier[j] == n);
                                assert(priced_ok(get_successors_fn, heuristic_fn, initial, earlier, n));
                                assert forall|k: int| 0 <= k < n.path().len() implies explored@.contains_key(
                                    #[trigger] n.path()[k],
                                ) && explored@[n.path()[k]] <= k by {
                                    assert(earlier.contains_key(n.path()[k]) && earlier[n.path()[k]] <= k);
                                }
                            }
                        }
                        assert(priced_ok(get_successors_fn, heuristic_fn, initial, explored@, current_node)) by {
                            let n = current_node;
                            assert forall|k: int| 0 <= k < n.path().len() implies explored@.contains_key(
                                #[trigger] n.path()[k],
                            ) && explored@[n.path()[k]] <= k by {
                                assert(earlier.contains_key(n.path()[k]) && earlier[n.path()[k]] <= k);
                            }
                        }
                        assert forall|s: T| #[trigger] explored@.contains_key(s) implies accounted(
                            explored@,
                            frontier@,
                            closed,
                            done,
                            s,
                        ) || (s == current_node.state && explored@[s] == current_node.cost) by {
                            if s == b {
                                assert(frontier[waiting.len() as int].state == s);
                            } else {
                                assert(earlier.contains_key(s));
                                if !(closed.contains(s) && done[s] == earlier[s]) && !(s == current_node.state
                                    && earlier[s] == current_node.cost) {
                                    let j = choose|j: int|
                                        0 <= j < waiting.len() && (#[trigger] waiting[j]).state == s
                                            && waiting[j].cost == earlier[s];
                                    assert(frontier[j] == waiting[j]);
                                }
                            }
                        }
                        assert(priced_expanded_ok(
                            goal_test_fn,
                            get_successors_fn,
                            explored@,
                            closed,
                            expansion,
                            done,
                        )) by {
                            assert forall|a: T| #[trigger] closed.contains(a) implies {
                                &&& explored@.contains_key(a)
                                &&& explored@[a] <= done[a]
                                &&& forall|c: T| #[trigger]
                                    expansion[a].contains(c) ==> explored@.contains_key(c) && explored@[c]
                                        <= done[a] + 1
                            } by {
                                assert(earlier.contains_key(a) && earlier[a] <= done[a]);
                                assert forall|c: T| #[trigger] expansion[a].contains(c) implies explored@.contains_key(
                                    c,
                                ) && explored@[c] <= done[a] + 1 by {
                                    assert(earlier.contains_key(c) && earlier[c] <= done[a] + 1);
                                }
                            }
                        }
                        assert forall|j: int| 0 <= j < i + 1 implies explored@.contains_key(
                            #[trigger] successors[j],
                        ) && explored@[successors[j]] <= new_cost by {
                            if j < i {
                                assert(earlier.contains_key(successors[j]));
                            }
                        }
                    }
                }
                i += 1;
            }
            proof {
                if lawful {
                    lemma_successors_of(get_successors_fn, current_node.state, successors);
                    assert forall|total: nat| total >= rounds + 1 implies #[trigger] best_first_run(
                        goal_test_fn,
                        get_successors_fn,
                        heuristic_fn,
                        first_frontier,
                        first_costs,
                        total,
                    ) == best_first_run(
                        goal_test_fn,
                        get_successors_fn,
                        heuristic_fn,
                        frontier@,
                        explored@,
                        (total - (rounds + 1)) as nat,
                    ) by {
                        assert(best_first_run(
                            goal_test_fn,
                            get_successors_fn,
                            heuristic_fn,
                            first_frontier,
                            first_costs,
                            total,
                        ) == best_first_run(
                            goal_test_fn,
                            get_successors_fn,
                            heuristic_fn,
                            before,
                            seen,
                            (total - rounds) as nat,
                        ));
                    }
                }
                rounds = rounds + 1;
                let a = current_node.state;
                let c = current_node.cost as nat;
                assert(current_node.path()[current_node.path().len() - 1] == a);
                assert(explored@.contains_key(a) && explored@[a] <= c);
                if !(closed.contains(a) && done[a] <= c) {
                    closed = closed.insert(a);
                    expansion = expansion.insert(a, successors@);
                    done = done.insert(a, c);
                    assert forall|b: T| #[trigger] expansion[a].contains(b) implies explored@.contains_key(b)
                        && explored@[b] <= done[a] + 1 by {
                        let j = choose|j: int| 0 <= j < successors@.len() && successors@[j] == b;
                        assert(explored@.contains_key(successors[j]));
                    }
                }
                assert forall|s: T| #[trigger] explored@.contains_key(s) implies accounted(
                    explored@,
                    frontier@,
                    closed,
                    done,
                    s,
                ) by {}
            }
        }
    }
    proof {
        let shut = explored@.dom();
        assert forall|s: T| explored@.contains_key(s) implies closed.contains(s) by {
            assert(accounted(explored@, frontier@, closed, done, s));
        }
        assert(closed =~= shut);
        assert(expanded_ok(goal_test_fn, get_successors_fn, closed, closed, expansion));
        lemma_exhausted(goal_test_fn, get_successors_fn, initial, closed, expansion);
        if lawful {
            assert(best_first_run(
                goal_test_fn,
                get_successors_fn,
                heuristic_fn,
                first_frontier,
                first_costs,
                rounds,
            ) == Outcome::<T>::Exhausted);
        }
    }
    None
}

} // verus!
