//! Single-source shortest-path search (Dijkstra's algorithm) over a
//! caller-supplied graph.
//!
//! Callers pick their own node, edge, cost and context types, implement the
//! [`Graph`] and [`Edge`] traits, and get back a [`ShortestPath`] predecessor
//! structure that supports single-step lookups and full path reconstruction.

use vstd::prelude::*;

mod assoc;

verus! {

use crate::assoc::AssocMap;

/// A value that can be duplicated. `dup` must return a value equal to the
/// original; the search clones nodes, edges and costs freely.
pub trait Dup: Sized {
    fn dup(&self) -> (r: Self)
        ensures
            r == *self,
    ;
}

/// A value usable as a map key: duplication plus a decidable equality that
/// agrees with mathematical equality.
pub trait Key: Dup {
    fn key_eq(&self, other: &Self) -> (r: bool)
        ensures
            r == (*self == *other),
    ;
}

/// A path cost: totally ordered, with a zero element (the distance of the
/// start node to itself) and an additive combination that never decreases a
/// cost. The proof obligations spell out the laws the search assumes of
/// caller-supplied cost types.
pub trait Cost: Dup {
    spec fn lte(self, other: Self) -> bool;

    spec fn zero_spec() -> Self;

    spec fn plus_spec(self, other: Self) -> Self;

    /// The zero-distance value recorded for the start node.
    fn zero() -> (r: Self)
        ensures
            r == Self::zero_spec(),
    ;

    /// Decides the `lte` order.
    fn le(&self, other: &Self) -> (r: bool)
        ensures
            r == self.lte(*other),
    ;

    /// Accumulates path cost.
    fn plus(&self, other: &Self) -> (r: Self)
        ensures
            r == self.plus_spec(*other),
    ;

    proof fn lte_total(a: Self, b: Self)
        ensures
            a.lte(b) || b.lte(a),
    ;

    proof fn lte_transitive(a: Self, b: Self, c: Self)
        requires
            a.lte(b),
            b.lte(c),
        ensures
            a.lte(c),
    ;

    proof fn lte_antisymmetric(a: Self, b: Self)
        requires
            a.lte(b),
            b.lte(a),
        ensures
            a == b,
    ;

    proof fn zero_identity(a: Self)
        ensures
            Self::zero_spec().plus_spec(a) == a,
            a.plus_spec(Self::zero_spec()) == a,
    ;

    /// Costs are non-negative: extending a path never lowers its cost.
    proof fn plus_widens(a: Self, b: Self)
        ensures
            a.lte(a.plus_spec(b)),
    ;

    /// Combination respects the order in its left operand.
    proof fn plus_monotone(a: Self, b: Self, c: Self)
        requires
            a.lte(b),
        ensures
            a.plus_spec(c).lte(b.plus_spec(c)),
    ;
}

impl Dup for u8 {
    fn dup(&self) -> (r: Self) {
        *self
    }
}

impl Key for u8 {
    fn key_eq(&self, other: &Self) -> (r: bool) {
        *self == *other
    }
}

impl Dup for u16 {
    fn dup(&self) -> (r: Self) {
        *self
    }
}

impl Key for u16 {
    fn key_eq(&self, other: &Self) -> (r: bool) {
        *self == *other
    }
}

impl Dup for u32 {
    fn dup(&self) -> (r: Self) {
        *self
    }
}

impl Key for u32 {
    fn key_eq(&self, other: &Self) -> (r: bool) {
        *self == *other
    }
}

impl Dup for u64 {
    fn dup(&self) -> (r: Self) {
        *self
    }
}

impl Key for u64 {
    fn key_eq(&self, other: &Self) -> (r: bool) {
        *self == *other
    }
}

impl Dup for usize {
    fn dup(&self) -> (r: Self) {
        *self
    }
}

impl Key for usize {
    fn key_eq(&self, other: &Self) -> (r: bool) {
        *self == *other
    }
}

/// Unsigned costs combine by saturating addition, so that accumulating a path
/// cost is total: a sum past the maximum stays at the maximum, which keeps
/// every cost law intact.
impl Cost for u32 {
    open spec fn lte(self, other: Self) -> bool {
        self <= other
    }

    open spec fn zero_spec() -> Self {
        0u32
    }

    open spec fn plus_spec(self, other: Self) -> Self {
        if self + other <= u32::MAX {
            (self + other) as u32
        } else {
            u32::MAX
        }
    }

    fn zero() -> (r: Self) {
        0u32
    }

    fn le(&self, other: &Self) -> (r: bool) {
        *self <= *other
    }

    fn plus(&self, other: &Self) -> (r: Self) {
        if *other <= u32::MAX - *self {
            *self + *other
        } else {
            u32::MAX
        }
    }

    proof fn lte_total(a: Self, b: Self) {
    }

    proof fn lte_transitive(a: Self, b: Self, c: Self) {
    }

    proof fn lte_antisymmetric(a: Self, b: Self) {
    }

    proof fn zero_identity(a: Self) {
    }

    proof fn plus_widens(a: Self, b: Self) {
    }

    proof fn plus_monotone(a: Self, b: Self, c: Self) {
    }
}

/// Unsigned costs combine by saturating addition; see the `u32` impl.
impl Cost for u64 {
    open spec fn lte(self, other: Self) -> bool {
        self <= other
    }

    open spec fn zero_spec() -> Self {
        0u64
    }

    open spec fn plus_spec(self, other: Self) -> Self {
        if self + other <= u64::MAX {
            (self + other) as u64
        } else {
            u64::MAX
        }
    }

    fn zero() -> (r: Self) {
        0u64
    }

    fn le(&self, other: &Self) -> (r: bool) {
        *self <= *other
    }

    fn plus(&self, other: &Self) -> (r: Self) {
        if *other <= u64::MAX - *self {
            *self + *other
        } else {
            u64::MAX
        }
    }

    proof fn lte_total(a: Self, b: Self) {
    }

    proof fn lte_transitive(a: Self, b: Self, c: Self) {
    }

    proof fn lte_antisymmetric(a: Self, b: Self) {
    }

    proof fn zero_identity(a: Self) {
    }

    proof fn plus_widens(a: Self, b: Self) {
    }

    proof fn plus_monotone(a: Self, b: Self, c: Self) {
    }
}

/// An edge exposes the cost of traversing it, a pure function of the edge
/// and a caller-supplied read-only context (dynamic weighting data that is
/// not baked into the edge itself).
pub trait Edge: Sized {
    type Cost: Cost;

    type Context;

    /// The cost of traversing this edge under `context`, as a mathematical
    /// value. The default leaves it unconstrained; an implementation
    /// overrides it to give `cost` a meaning.
    open spec fn spec_cost(&self, context: &Self::Context) -> Self::Cost {
        arbitrary()
    }

    fn cost(&self, context: &Self::Context) -> (r: Self::Cost)
        ensures
            r == self.spec_cost(context),
    ;
}

/// A well-formed graph: finitely many nodes, and neighbor enumeration never
/// leaves them.
pub open spec fn graph_wf<G: Graph>(g: &G) -> bool {
    &&& g.nodes().finite()
    &&& forall|u: G::Node, i: int|
        g.nodes().contains(u) && 0 <= i < g.neighbors_spec(u).len() ==> g.nodes().contains(
            (#[trigger] g.neighbors_spec(u)[i]).0,
        )
}

/// The graph reports `e` as an edge out of `p` arriving at `n`.
pub open spec fn edge_from<G: Graph>(g: &G, p: G::Node, n: G::Node, e: G::Edge) -> bool {
    exists|i: int|
        0 <= i < g.neighbors_spec(p).len() && #[trigger] g.neighbors_spec(p)[i] == (n, e)
}

/// Some reported edge leads from `u` to `v`.
pub open spec fn edge_to<G: Graph>(g: &G, u: G::Node, v: G::Node) -> bool {
    exists|i: int|
        0 <= i < g.neighbors_spec(u).len() && (#[trigger] g.neighbors_spec(u)[i]).0 == v
}

/// `t` can be reached from `s` along reported edges in at most `k` hops.
pub open spec fn reachable_within<G: Graph>(g: &G, s: G::Node, t: G::Node, k: nat) -> bool
    decreases k,
{
    s == t || (k > 0 && exists|mid: G::Node|
        reachable_within(g, s, mid, (k - 1) as nat) && edge_to(g, mid, t))
}

/// `t` can be reached from `s` along reported edges.
pub open spec fn reachable<G: Graph>(g: &G, s: G::Node, t: G::Node) -> bool {
    exists|k: nat| reachable_within(g, s, t, k)
}

proof fn lemma_reachable_step<G: Graph>(g: &G, s: G::Node, u: G::Node, v: G::Node)
    requires
        reachable(g, s, u),
        edge_to(g, u, v),
    ensures
        reachable(g, s, v),
{
    let k = choose|k: nat| reachable_within(g, s, u, k);
    let k2: nat = k + 1;
    assert(reachable_within(g, s, u, (k2 - 1) as nat));
    assert(reachable_within(g, s, v, k2));
}

/// A set of nodes that contains `s` and is closed under reported edges
/// contains everything reachable from `s`.
proof fn lemma_reachable_in_closed_set<G: Graph>(
    g: &G,
    s: G::Node,
    t: G::Node,
    k: nat,
    dom: Set<G::Node>,
)
    requires
        dom.contains(s),
        forall|u: G::Node, i: int|
            dom.contains(u) && 0 <= i < g.neighbors_spec(u).len() ==> dom.contains(
                (#[trigger] g.neighbors_spec(u)[i]).0,
            ),
        reachable_within(g, s, t, k),
    ensures
        dom.contains(t),
    decreases k,
{
    if s == t {
    } else {
        let mid = choose|mid: G::Node|
            reachable_within(g, s, mid, (k - 1) as nat) && edge_to(g, mid, t);
        lemma_reachable_in_closed_set(g, s, mid, (k - 1) as nat, dom);
        let i = choose|i: int|
            0 <= i < g.neighbors_spec(mid).len() && (#[trigger] g.neighbors_spec(mid)[i]).0 == t;
        assert(dom.contains(g.neighbors_spec(mid)[i].0));
    }
}

/// The cost type a graph's edges carry.
pub type CostOf<G> = <<G as Graph>::Edge as Edge>::Cost;

/// The zero cost of a graph's cost type.
pub open spec fn spec_zero<G: Graph>() -> CostOf<G> {
    <CostOf<G> as Cost>::zero_spec()
}

/// `hops`, in goal-to-start order as [`ShortestPath::sequence`] emits it, is
/// a chain of reported edges from `start` to `t`: each pair holds an edge
/// from its predecessor node into the node above it.
pub open spec fn is_rpath<G: Graph>(
    g: &G,
    start: G::Node,
    t: G::Node,
    hops: Seq<(G::Node, G::Edge)>,
) -> bool
    decreases hops.len(),
{
    if hops.len() == 0 {
        t == start
    } else {
        edge_from(g, hops[0].0, t, hops[0].1) && is_rpath(g, start, hops[0].0, hops.drop_first())
    }
}

/// The total cost of a backward path: its edge costs under `context`,
/// combined from the start end outward.
pub open spec fn rpath_cost<G: Graph>(
    context: &G::Context,
    hops: Seq<(G::Node, G::Edge)>,
) -> CostOf<G>
    decreases hops.len(),
{
    if hops.len() == 0 {
        spec_zero::<G>()
    } else {
        rpath_cost::<G>(context, hops.drop_first()).plus_spec(hops[0].1.spec_cost(context))
    }
}

/// Every path costs at least zero: combination never lowers a cost.
proof fn lemma_rpath_cost_nonneg<G: Graph>(context: &G::Context, hops: Seq<(G::Node, G::Edge)>)
    ensures
        spec_zero::<G>().lte(rpath_cost::<G>(context, hops)),
    decreases hops.len(),
{
    if hops.len() == 0 {
        <CostOf<G> as Cost>::lte_total(spec_zero::<G>(), spec_zero::<G>());
    } else {
        let rest = hops.drop_first();
        lemma_rpath_cost_nonneg::<G>(context, rest);
        <CostOf<G> as Cost>::plus_widens(
            rpath_cost::<G>(context, rest),
            hops[0].1.spec_cost(context),
        );
        <CostOf<G> as Cost>::lte_transitive(
            spec_zero::<G>(),
            rpath_cost::<G>(context, rest),
            rpath_cost::<G>(context, hops),
        );
    }
}

/// Every distance `d` records is achieved by some path from `start`.
pub open spec fn costs_achievable<G: Graph>(
    g: &G,
    context: &G::Context,
    start: G::Node,
    d: Map<G::Node, CostOf<G>>,
) -> bool {
    forall|v: G::Node| #[trigger]
        d.contains_key(v) ==> exists|hops: Seq<(G::Node, G::Edge)>|
            #[trigger] is_rpath(g, start, v, hops) && rpath_cost::<G>(context, hops) == d[v]
}

/// Every distance `d` records is a lower bound on every path from `start`.
pub open spec fn costs_minimal<G: Graph>(
    g: &G,
    context: &G::Context,
    start: G::Node,
    d: Map<G::Node, CostOf<G>>,
) -> bool {
    forall|v: G::Node, hops: Seq<(G::Node, G::Edge)>|
        d.contains_key(v) && #[trigger] is_rpath(g, start, v, hops) ==> d[v].lte(
            rpath_cost::<G>(context, hops),
        )
}

/// The distance table of a finished search: keyed by exactly the nodes
/// reachable from `start`, zero at `start`, achieved by an actual path, and
/// minimal over all paths.
pub open spec fn distances_optimal<G: Graph>(
    g: &G,
    context: &G::Context,
    start: G::Node,
    d: Map<G::Node, CostOf<G>>,
) -> bool {
    &&& forall|v: G::Node| #[trigger] d.contains_key(v) <==> reachable(g, start, v)
    &&& d.contains_key(start)
    &&& d[start] == spec_zero::<G>()
    &&& costs_achievable(g, context, start, d)
    &&& costs_minimal(g, context, start, d)
}

/// The predecessor tree `m` is priced by the distance table `d`: each
/// recorded node's distance is its predecessor's distance plus the cost of
/// the recorded hop, with `start` at zero.
pub open spec fn tree_priced<G: Graph>(
    g: &G,
    context: &G::Context,
    start: G::Node,
    m: Map<G::Node, (G::Node, G::Edge)>,
    d: Map<G::Node, CostOf<G>>,
) -> bool {
    &&& d.contains_key(start)
    &&& d[start] == spec_zero::<G>()
    &&& forall|n: G::Node| #[trigger]
        m.contains_key(n) ==> d.contains_key(n) && d.contains_key(m[n].0) && d[n] == d[m[n].0].plus_spec(
            m[n].1.spec_cost(context),
        )
}

/// The distances of the nodes in `vis` are minimal over all paths.
pub open spec fn visited_minimal<G: Graph>(
    g: &G,
    context: &G::Context,
    start: G::Node,
    d: Map<G::Node, CostOf<G>>,
    vis: Seq<G::Node>,
) -> bool {
    forall|u: G::Node, hops: Seq<(G::Node, G::Edge)>|
        vis.contains(u) && #[trigger] is_rpath(g, start, u, hops) ==> d[u].lte(
            rpath_cost::<G>(context, hops),
        )
}

/// Every neighbor of a node in `vis` has a recorded distance no worse than
/// the one through that node.
pub open spec fn visited_relaxed<G: Graph>(
    g: &G,
    context: &G::Context,
    d: Map<G::Node, CostOf<G>>,
    vis: Seq<G::Node>,
) -> bool {
    forall|u: G::Node, i: int|
        vis.contains(u) && 0 <= i < g.neighbors_spec(u).len() ==> d.contains_key(
            (#[trigger] g.neighbors_spec(u)[i]).0,
        ) && d[g.neighbors_spec(u)[i].0].lte(
            d[u].plus_spec(g.neighbors_spec(u)[i].1.spec_cost(context)),
        )
}

/// The cut argument: any path to an unvisited node costs at least `bound`,
/// the minimum recorded distance over the unvisited frontier, because the
/// path's first step out of the visited region was already relaxed.
proof fn lemma_cut<G: Graph>(
    g: &G,
    context: &G::Context,
    start: G::Node,
    vis: Seq<G::Node>,
    d: Map<G::Node, CostOf<G>>,
    bound: CostOf<G>,
    v: G::Node,
    q: Seq<(G::Node, G::Edge)>,
)
    requires
        d.contains_key(start),
        d[start] == spec_zero::<G>(),
        visited_minimal(g, context, start, d, vis),
        visited_relaxed(g, context, d, vis),
        forall|y: G::Node|
            d.contains_key(y) && !vis.contains(y) ==> bound.lte(#[trigger] d[y]),
        is_rpath(g, start, v, q),
        !vis.contains(v),
    ensures
        bound.lte(rpath_cost::<G>(context, q)),
    decreases q.len(),
{
    if q.len() == 0 {
        assert(v == start);
        assert(bound.lte(d[start]));
    } else {
        let p = q[0].0;
        let e = q[0].1;
        let rest = q.drop_first();
        let c = e.spec_cost(context);
        assert(is_rpath(g, start, p, rest));
        if vis.contains(p) {
            assert(d[p].lte(rpath_cost::<G>(context, rest)));
            let i = choose|i: int|
                0 <= i < g.neighbors_spec(p).len() && #[trigger] g.neighbors_spec(p)[i] == (v, e);
            assert(d.contains_key(v) && d[v].lte(d[p].plus_spec(c)));
            <CostOf<G> as Cost>::plus_monotone(d[p], rpath_cost::<G>(context, rest), c);
            <CostOf<G> as Cost>::lte_transitive(
                d[v],
                d[p].plus_spec(c),
                rpath_cost::<G>(context, q),
            );
            <CostOf<G> as Cost>::lte_transitive(bound, d[v], rpath_cost::<G>(context, q));
        } else {
            lemma_cut(g, context, start, vis, d, bound, p, rest);
            <CostOf<G> as Cost>::plus_widens(rpath_cost::<G>(context, rest), c);
            <CostOf<G> as Cost>::lte_transitive(
                bound,
                rpath_cost::<G>(context, rest),
                rpath_cost::<G>(context, q),
            );
        }
    }
}

/// Membership scan over a plain vector of nodes, used for the visited set.
fn contains_node<K: Key>(v: &Vec<K>, k: &K) -> (r: bool)
    ensures
        r == v@.contains(*k),
{
    let n = v.len();
    let mut i: usize = 0;
    while i < n
        invariant
            n == v@.len(),
            i <= n,
            forall|j: int| 0 <= j < i ==> v@[j] != *k,
        decreases n - i,
    {
        if v[i].key_eq(k) {
            proof {
                assert(v@[i as int] == *k);
            }
            return true;
        }
        i += 1;
    }
    false
}

/// The backward walk through a predecessor table: from `cur`, follow
/// predecessor links until `start`, a node without a predecessor, or
/// exhausted fuel. Each emitted pair is the predecessor node together with
/// the edge used to reach the node the walk stood on.
pub open spec fn walk<N, E>(m: Map<N, (N, E)>, start: N, cur: N, fuel: nat) -> Seq<(N, E)>
    decreases fuel,
{
    if cur == start {
        Seq::empty()
    } else if !m.contains_key(cur) {
        Seq::empty()
    } else if fuel == 0 {
        Seq::empty()
    } else {
        seq![m[cur]] + walk(m, start, m[cur].0, (fuel - 1) as nat)
    }
}

/// Whether the backward walk arrives at `start` within `fuel` steps.
pub open spec fn walk_reaches<N, E>(m: Map<N, (N, E)>, start: N, cur: N, fuel: nat) -> bool
    decreases fuel,
{
    if cur == start {
        true
    } else if !m.contains_key(cur) {
        false
    } else if fuel == 0 {
        false
    } else {
        walk_reaches(m, start, m[cur].0, (fuel - 1) as nat)
    }
}

/// The predecessor tree computed by a search: maps each relaxed node to the
/// node it was best reached from and the edge used for that hop. Abstractly
/// a `Map<Node, (Node, Edge)>`, its view.
pub struct ShortestPath<Node, Edge> {
    prev_map: AssocMap<Node, (Node, Edge)>,
}

impl<Node, Edge> View for ShortestPath<Node, Edge> {
    type V = Map<Node, (Node, Edge)>;

    closed spec fn view(&self) -> Map<Node, (Node, Edge)> {
        self.prev_map@
    }
}

impl<Node, Edge> ShortestPath<Node, Edge> where Node: Key, Edge: Dup {
    /// Validity of the underlying table; every search result satisfies it.
    pub closed spec fn wf(&self) -> bool {
        self.prev_map.wf()
    }

    fn new(prev_map: AssocMap<Node, (Node, Edge)>) -> (r: Self)
        requires
            prev_map.wf(),
        ensures
            r.wf(),
            r@ == prev_map@,
    {
        ShortestPath { prev_map: prev_map }
    }

    /// Direct predecessor lookup: the node `node` was best reached from and
    /// the edge used, or `None` if `node` was never relaxed (it is
    /// unreachable, or it is the start node itself).
    pub fn prev(&self, node: &Node) -> (r: Option<(Node, Edge)>)
        requires
            self.wf(),
        ensures
            match r {
                Some(p) => self@.contains_key(*node) && p == self@[*node],
                None => !self@.contains_key(*node),
            },
    {
        match self.prev_map.get(node) {
            Some(p) => Some((p.0.dup(), p.1.dup())),
            None => None,
        }
    }

    /// Reverse sequence from `goal` to `start`: walks backward from `goal`,
    /// emitting each predecessor with the edge used to reach the node the
    /// walk stood on; `goal` itself is not included, nor is a predecessor
    /// for `start`. The walk stops at `start`, at a node without a
    /// predecessor (the caller must treat a sequence that does not reach
    /// `start` as "no path found"), or — zero-cost edges can tie predecessor
    /// links into a cycle — after as many steps as the table has entries.
    pub fn sequence(self, start: Node, goal: Node) -> (r: Vec<(Node, Edge)>)
        requires
            self.wf(),
        ensures
            r@ == walk(self@, start, goal, self@.dom().len()),
            goal == start ==> r@ == Seq::<(Node, Edge)>::empty(),
    {
        proof {
            self.prev_map.lemma_view();
        }
        let ghost m = self@;
        let ghost fuel0 = self@.dom().len();
        let mut fuel: usize = self.prev_map.len();
        let mut sequence: Vec<(Node, Edge)> = Vec::new();
        let mut this = goal;
        proof {
            assert(Seq::<(Node, Edge)>::empty() + walk(m, start, goal, fuel0) =~= walk(
                m,
                start,
                goal,
                fuel0,
            ));
        }
        loop
            invariant_except_break
                self.wf(),
                m == self@,
                sequence@ + walk(m, start, this, fuel as nat) == walk(m, start, goal, fuel0),
            ensures
                sequence@ == walk(m, start, goal, fuel0),
            decreases fuel,
        {
            if this.key_eq(&start) {
                proof {
                    assert(sequence@ + walk(m, start, this, fuel as nat) =~= sequence@);
                }
                break ;
            }
            if fuel == 0 {
                proof {
                    assert(sequence@ + walk(m, start, this, fuel as nat) =~= sequence@);
                }
                break ;
            }
            let ghost s0 = sequence@;
            let ghost t0 = this;
            let ghost f0 = fuel as nat;
            match self.prev_map.get(&this) {
                Some(p) => {
                    let ghost pv = *p;
                    let next = p.0.dup();
                    sequence.push((p.0.dup(), p.1.dup()));
                    this = next;
                    fuel = fuel - 1;
                    proof {
                        assert((pv.0, pv.1) == pv);
                        assert(pv == m[t0]);
                        assert(sequence@ =~= s0 + seq![m[t0]]);
                        assert(walk(m, start, t0, f0) == seq![m[t0]] + walk(
                            m,
                            start,
                            m[t0].0,
                            (f0 - 1) as nat,
                        ));
                        assert(s0 + walk(m, start, t0, f0) =~= sequence@ + walk(
                            m,
                            start,
                            this,
                            fuel as nat,
                        ));
                    }
                },
                None => {
                    proof {
                        assert(walk(m, start, this, fuel as nat) =~= Seq::<(Node, Edge)>::empty());
                        assert(sequence@ + walk(m, start, this, fuel as nat) =~= sequence@);
                    }
                    break ;
                },
            }
        }
        sequence
    }

    /// Whether the backward walk from `goal` arrives at `start`: the
    /// explicit "was a path found" signal. A sequence whose walk does not
    /// reach `start` is empty or truncated, and means "no path".
    pub fn reaches(&self, start: &Node, goal: &Node) -> (r: bool)
        requires
            self.wf(),
        ensures
            r == walk_reaches(self@, *start, *goal, self@.dom().len()),
    {
        proof {
            self.prev_map.lemma_view();
        }
        let ghost m = self@;
        let ghost fuel0 = self@.dom().len();
        let mut fuel: usize = self.prev_map.len();
        let mut this = goal.dup();
        loop
            invariant_except_break
                self.wf(),
                m == self@,
                walk_reaches(m, *start, this, fuel as nat) == walk_reaches(m, *start, *goal, fuel0),
            ensures
                (this == *start) == walk_reaches(m, *start, *goal, fuel0),
            decreases fuel,
        {
            if this.key_eq(start) {
                break ;
            }
            if fuel == 0 {
                break ;
            }
            match self.prev_map.get(&this) {
                Some(p) => {
                    this = p.0.dup();
                    fuel = fuel - 1;
                },
                None => {
                    break ;
                },
            }
        }
        this.key_eq(start)
    }
}

/// A searchable graph: the caller owns the adjacency data and exposes it
/// through `neighbors`; [`shortest_path`] supplies the search.
pub trait Graph where Self: Sized {
    type Node: Key;

    type Edge: Edge<Context = Self::Context> + Dup;

    type Context;

    /// The finite universe of nodes the graph can hand out. The default is
    /// the empty set; an implementation overrides it, together with
    /// `neighbors_spec`, to give the search a model of itself.
    open spec fn nodes(&self) -> Set<Self::Node> {
        Set::empty()
    }

    /// The neighbor relation, as a mathematical value.
    open spec fn neighbors_spec(&self, node: Self::Node) -> Seq<(Self::Node, Self::Edge)> {
        Seq::empty()
    }

    /// Every edge incident to `node`, together with the node at its far end;
    /// the search treats each returned pair as a directed hop. A node with
    /// no neighbors returns the empty vector.
    fn neighbors(&self, node: Self::Node) -> (r: Vec<(Self::Node, Self::Edge)>)
        ensures
            r@ == self.neighbors_spec(node),
    ;
}

/// Runs a single-source search over `g` from `start` and returns the
/// predecessor tree. A node is in the tree exactly when it is reachable
/// from `start` (besides `start` itself, which enters the tree only when a
/// relaxation loops back to it at no cost), and every recorded hop is an
/// edge the graph reports, whose predecessor end is `start` or again in the
/// tree.
///
/// Among unvisited frontier nodes the minimum-distance one is finalized
/// next; on equal distances the latest-scanned entry wins, and a relaxation
/// that ties an existing distance overwrites the recorded predecessor.
///
/// The tree is priced by an optimal distance table: following the recorded
/// hops from any node accumulates a cost no path the graph reports can
/// undercut ([`lemma_walk_cost`], [`lemma_sequence_minimal`]).
pub fn shortest_path<G: Graph>(g: &G, context: &G::Context, start: G::Node) -> (r: ShortestPath<
    G::Node,
    G::Edge,
>)
    requires
        graph_wf(g),
        g.nodes().contains(start),
    ensures
        r.wf(),
        forall|n: G::Node| #[trigger] r@.contains_key(n) ==> reachable(g, start, n),
        forall|n: G::Node| reachable(g, start, n) && n != start ==> #[trigger] r@.contains_key(n),
        forall|n: G::Node| #[trigger] r@.contains_key(n) ==> edge_from(g, r@[n].0, n, r@[n].1),
        forall|n: G::Node| #[trigger]
            r@.contains_key(n) ==> (r@[n].0 == start || r@.contains_key(r@[n].0)),
        exists|d: Map<G::Node, CostOf<G>>|
            #[trigger] distances_optimal(g, context, start, d) && tree_priced(
                g,
                context,
                start,
                r@,
                d,
            ),
{
    let mut distance: AssocMap<G::Node, CostOf<G>> = AssocMap::new();
    let mut prev: AssocMap<G::Node, (G::Node, G::Edge)> = AssocMap::new();
    distance.insert(start.dup(), <CostOf<G> as Cost>::zero());
    let mut visited: Vec<G::Node> = Vec::new();
    proof {
        assert(reachable_within(g, start, start, 0nat));
        assert(reachable(g, start, start));
        assert(is_rpath(g, start, start, Seq::<(G::Node, G::Edge)>::empty()));
        assert(rpath_cost::<G>(context, Seq::<(G::Node, G::Edge)>::empty()) == spec_zero::<G>());
        assert forall|v: G::Node| #[trigger] distance@.contains_key(v) implies exists|
            hops: Seq<(G::Node, G::Edge)>,
        |
            #[trigger] is_rpath(g, start, v, hops) && rpath_cost::<G>(context, hops)
                == distance@[v] by {
            assert(v == start);
            assert(is_rpath(g, start, v, Seq::<(G::Node, G::Edge)>::empty()) && rpath_cost::<G>(
                context,
                Seq::<(G::Node, G::Edge)>::empty(),
            ) == distance@[v]);
        }
    }
    loop
        invariant
            graph_wf(g),
            g.nodes().contains(start),
            distance.wf(),
            prev.wf(),
            distance@.contains_key(start),
            distance@[start] == spec_zero::<G>(),
            forall|n: G::Node| #[trigger] distance@.contains_key(n) ==> g.nodes().contains(n),
            forall|n: G::Node| #[trigger] distance@.contains_key(n) ==> reachable(g, start, n),
            forall|n: G::Node| #[trigger]
                distance@.contains_key(n) && n != start ==> prev@.contains_key(n),
            forall|n: G::Node| #[trigger] prev@.contains_key(n) ==> distance@.contains_key(n),
            forall|n: G::Node| #[trigger]
                prev@.contains_key(n) ==> edge_from(g, prev@[n].0, n, prev@[n].1),
            forall|n: G::Node| #[trigger]
                prev@.contains_key(n) ==> distance@.contains_key(prev@[n].0) && visited@.contains(
                    prev@[n].0,
                ) && distance@[n] == distance@[prev@[n].0].plus_spec(
                    prev@[n].1.spec_cost(context),
                ),
            costs_achievable(g, context, start, distance@),
            visited_minimal(g, context, start, distance@, visited@),
            visited_relaxed(g, context, distance@, visited@),
            visited@.no_duplicates(),
            forall|i: int|
                0 <= i < visited@.len() ==> distance@.contains_key(#[trigger] visited@[i]),
        ensures
            forall|n: G::Node| #[trigger] distance@.contains_key(n) ==> visited@.contains(n),
        decreases g.nodes().len() - visited@.len(),
    {
        // among the not yet visited frontier entries, find one of
        // minimum recorded distance; on ties the latest entry wins
        let n_entries = distance.len();
        let mut best: Option<usize> = None;
        let mut i: usize = 0;
        while i < n_entries
            invariant
                distance.wf(),
                n_entries == distance.entries_seq().len(),
                i <= n_entries,
                match best {
                    Some(b) => b < n_entries && !visited@.contains(
                        distance.entries_seq()[b as int].0,
                    ) && forall|j2: int|
                        0 <= j2 < i && !visited@.contains(
                            (#[trigger] distance.entries_seq()[j2]).0,
                        ) ==> distance.entries_seq()[b as int].1.lte(
                            distance.entries_seq()[j2].1,
                        ),
                    None => forall|j2: int|
                        0 <= j2 < i ==> visited@.contains((#[trigger] distance.entries_seq()[j2]).0),
                },
            decreases n_entries - i,
        {
            let e = distance.entry_at(i);
            if !contains_node(&visited, &e.0) {
                let ghost best0 = best;
                let take = match best {
                    Some(b) => {
                        let be = distance.entry_at(b);
                        e.1.le(&be.1)
                    },
                    None => true,
                };
                if take {
                    best = Some(i);
                }
                proof {
                    let es = distance.entries_seq();
                    match best0 {
                        Some(b0) => {
                            let b0i = b0 as int;
                            if take {
                                assert forall|j2: int|
                                    0 <= j2 < i + 1 && !visited@.contains(
                                        (#[trigger] es[j2]).0,
                                    ) implies es[i as int].1.lte(es[j2].1) by {
                                    if j2 == i as int {
                                        <CostOf<G> as Cost>::lte_total(
                                            es[i as int].1,
                                            es[i as int].1,
                                        );
                                    } else {
                                        <CostOf<G> as Cost>::lte_transitive(
                                            es[i as int].1,
                                            es[b0i].1,
                                            es[j2].1,
                                        );
                                    }
                                }
                            } else {
                                <CostOf<G> as Cost>::lte_total(es[i as int].1, es[b0i].1);
                            }
                        },
                        None => {
                            assert forall|j2: int|
                                0 <= j2 < i + 1 && !visited@.contains(
                                    (#[trigger] es[j2]).0,
                                ) implies es[i as int].1.lte(es[j2].1) by {
                                assert(j2 == i as int);
                                <CostOf<G> as Cost>::lte_total(es[i as int].1, es[i as int].1);
                            }
                        },
                    }
                }
            }
            i += 1;
        }
        match best {
            None => {
                proof {
                    distance.lemma_view();
                    assert forall|n: G::Node| #[trigger]
                        distance@.contains_key(n) implies visited@.contains(n) by {
                        let j = choose|j: int|
                            0 <= j < distance.entries_seq().len() && (
                            #[trigger] distance.entries_seq()[j]).0 == n;
                        assert(visited@.contains(distance.entries_seq()[j].0));
                    }
                }
                break ;
            },
            Some(b) => {
                proof {
                    distance.lemma_view();
                }
                let e = distance.entry_at(b);
                let min = e.0.dup();
                let min_cost = e.1.dup();
                proof {
                    assert(distance.entries_seq()[b as int].0 == min);
                    assert(distance@.contains_key(min));
                    assert(!visited@.contains(min));
                    assert(distance@[min] == min_cost);
                    // min's recorded distance is least over the frontier
                    assert forall|y: G::Node|
                        distance@.contains_key(y) && !visited@.contains(y) implies min_cost.lte(
                        #[trigger] distance@[y],
                    ) by {
                        let jy = choose|jy: int|
                            0 <= jy < distance.entries_seq().len() && (
                            #[trigger] distance.entries_seq()[jy]).0 == y;
                        assert(distance@[y] == distance.entries_seq()[jy].1);
                        assert(!visited@.contains(distance.entries_seq()[jy].0));
                    }
                    // the cut argument: it is least over every path as well
                    assert forall|hops: Seq<(G::Node, G::Edge)>| #[trigger]
                        is_rpath(g, start, min, hops) implies min_cost.lte(
                        rpath_cost::<G>(context, hops),
                    ) by {
                        lemma_cut(g, context, start, visited@, distance@, min_cost, min, hops);
                    }
                }
                let ns = g.neighbors(min.dup());
                let n_ns = ns.len();
                let mut j: usize = 0;
                while j < n_ns
                    invariant
                        graph_wf(g),
                        g.nodes().contains(start),
                        distance.wf(),
                        prev.wf(),
                        distance@.contains_key(start),
                        distance@[start] == spec_zero::<G>(),
                        forall|n: G::Node| #[trigger]
                            distance@.contains_key(n) ==> g.nodes().contains(n),
                        forall|n: G::Node| #[trigger]
                            distance@.contains_key(n) ==> reachable(g, start, n),
                        forall|n: G::Node| #[trigger]
                            distance@.contains_key(n) && n != start ==> prev@.contains_key(n),
                        forall|n: G::Node| #[trigger]
                            prev@.contains_key(n) ==> distance@.contains_key(n),
                        forall|n: G::Node| #[trigger]
                            prev@.contains_key(n) ==> edge_from(g, prev@[n].0, n, prev@[n].1),
                        forall|n: G::Node| #[trigger]
                            prev@.contains_key(n) ==> distance@.contains_key(prev@[n].0) && (
                            visited@.contains(prev@[n].0) || prev@[n].0 == min) && distance@[n]
                                == distance@[prev@[n].0].plus_spec(prev@[n].1.spec_cost(context)),
                        costs_achievable(g, context, start, distance@),
                        visited_minimal(g, context, start, distance@, visited@),
                        visited_relaxed(g, context, distance@, visited@),
                        visited@.no_duplicates(),
                        forall|i2: int|
                            0 <= i2 < visited@.len() ==> distance@.contains_key(
                                #[trigger] visited@[i2],
                            ),
                        n_ns == ns@.len(),
                        ns@ == g.neighbors_spec(min),
                        j <= n_ns,
                        distance@.contains_key(min),
                        distance@[min] == min_cost,
                        !visited@.contains(min),
                        reachable(g, start, min),
                        g.nodes().contains(min),
                        forall|hops: Seq<(G::Node, G::Edge)>| #[trigger]
                            is_rpath(g, start, min, hops) ==> min_cost.lte(
                                rpath_cost::<G>(context, hops),
                            ),
                        forall|jj: int|
                            0 <= jj < j ==> distance@.contains_key(
                                (#[trigger] g.neighbors_spec(min)[jj]).0,
                            ) && distance@[g.neighbors_spec(min)[jj].0].lte(
                                min_cost.plus_spec(g.neighbors_spec(min)[jj].1.spec_cost(context)),
                            ),
                    decreases n_ns - j,
                {
                    let this = ns[j].0.dup();
                    let ghost tn = this;
                    let c = ns[j].1.cost(context);
                    let alt = min_cost.plus(&c);
                    let ghost cv = g.neighbors_spec(min)[j as int].1.spec_cost(context);
                    let ghost av = alt;
                    let ghost d0 = distance@;
                    let ghost p0 = prev@;
                    proof {
                        assert(ns@[j as int] == g.neighbors_spec(min)[j as int]);
                        assert((ns@[j as int].0, ns@[j as int].1) == ns@[j as int]);
                        assert(c == cv);
                        assert(av == min_cost.plus_spec(cv));
                    }
                    let update = match distance.get(&this) {
                        None => true,
                        Some(dref) => alt.le(dref),
                    };
                    proof {
                        assert(update == (!d0.contains_key(tn) || av.lte(d0[tn])));
                    }
                    if update {
                        let edge = ns[j].1.dup();
                        let ghost te = edge;
                        distance.insert(this.dup(), alt);
                        prev.insert(this, (min.dup(), edge));
                        proof {
                            assert(g.nodes().contains(tn));
                            assert(edge_to(g, min, tn)) by {
                                assert((g.neighbors_spec(min)[j as int]).0 == tn);
                            }
                            lemma_reachable_step(g, start, min, tn);
                            assert(edge_from(g, min, tn, te)) by {
                                assert(g.neighbors_spec(min)[j as int] == (tn, te));
                            }
                            assert(cv == te.spec_cost(context));
                            // a path achieving the new distance: min's
                            // witness extended by this hop
                            let qmin = choose|h: Seq<(G::Node, G::Edge)>|
                                #[trigger] is_rpath(g, start, min, h) && rpath_cost::<G>(
                                    context,
                                    h,
                                ) == d0[min];
                            let qalt = seq![(min, te)] + qmin;
                            assert(qalt.drop_first() =~= qmin);
                            assert(qalt[0] == (min, te));
                            assert(is_rpath(g, start, tn, qalt));
                            assert(rpath_cost::<G>(context, qalt) == d0[min].plus_spec(cv));
                            assert(rpath_cost::<G>(context, qalt) == av);
                            // a distance already minimal cannot move: the
                            // overwrite records the same value
                            if d0.contains_key(tn) {
                                if visited@.contains(tn) {
                                    assert(d0[tn].lte(av));
                                } else if tn == min {
                                    <CostOf<G> as Cost>::plus_widens(min_cost, cv);
                                    assert(d0[tn].lte(av));
                                } else if tn == start {
                                    lemma_rpath_cost_nonneg::<G>(context, qalt);
                                    assert(d0[tn].lte(av));
                                }
                                if visited@.contains(tn) || tn == min || tn == start {
                                    <CostOf<G> as Cost>::lte_antisymmetric(av, d0[tn]);
                                    assert(d0[tn] == av);
                                }
                            }
                            let unchanged = d0.contains_key(tn) && d0[tn] == av;
                            if unchanged {
                                assert(distance@ =~= d0);
                            } else {
                                assert(!visited@.contains(tn)) by {
                                    if visited@.contains(tn) {
                                        let iv = choose|iv: int|
                                            0 <= iv < visited@.len() && visited@[iv] == tn;
                                        assert(d0.contains_key(visited@[iv]));
                                    }
                                }
                                assert(tn != min);
                                assert(tn != start);
                            }
                            assert(distance@[tn] == av);
                            assert(distance@[min] == min_cost);
                            assert(prev@ == p0.insert(tn, (min, te)));
                            // predecessor equations
                            assert forall|n: G::Node| #[trigger]
                                prev@.contains_key(n) implies distance@.contains_key(prev@[n].0)
                                && (visited@.contains(prev@[n].0) || prev@[n].0 == min)
                                && distance@[n] == distance@[prev@[n].0].plus_spec(
                                prev@[n].1.spec_cost(context),
                            ) by {
                                if n == tn {
                                    assert(prev@[tn] == (min, te));
                                } else {
                                    assert(p0.contains_key(n) && prev@[n] == p0[n]);
                                    assert(distance@[n] == d0[n]);
                                    let pd = p0[n].0;
                                    if !unchanged {
                                        assert(pd != tn);
                                    }
                                    assert(distance@[pd] == d0[pd]);
                                }
                            }
                            // every recorded distance stays achievable
                            assert forall|v: G::Node| #[trigger]
                                distance@.contains_key(v) implies exists|
                                hops: Seq<(G::Node, G::Edge)>,
                            |
                                #[trigger] is_rpath(g, start, v, hops) && rpath_cost::<G>(
                                    context,
                                    hops,
                                ) == distance@[v] by {
                                if v == tn {
                                    assert(is_rpath(g, start, tn, qalt) && rpath_cost::<G>(
                                        context,
                                        qalt,
                                    ) == distance@[tn]);
                                } else {
                                    assert(d0.contains_key(v));
                                    let h = choose|h: Seq<(G::Node, G::Edge)>|
                                        #[trigger] is_rpath(g, start, v, h) && rpath_cost::<G>(
                                            context,
                                            h,
                                        ) == d0[v];
                                    assert(is_rpath(g, start, v, h) && rpath_cost::<G>(
                                        context,
                                        h,
                                    ) == distance@[v]);
                                }
                            }
                            // visited distances are untouched
                            assert forall|u: G::Node, hops: Seq<(G::Node, G::Edge)>|
                                visited@.contains(u) && #[trigger] is_rpath(
                                g,
                                start,
                                u,
                                hops,
                            ) implies distance@[u].lte(rpath_cost::<G>(context, hops)) by {
                                assert(distance@[u] == d0[u]);
                            }
                            // relaxation bounds survive: the new value only
                            // ever undercuts the old one
                            assert forall|u: G::Node, i2: int|
                                visited@.contains(u) && 0 <= i2 < g.neighbors_spec(
                                    u,
                                ).len() implies distance@.contains_key(
                                (#[trigger] g.neighbors_spec(u)[i2]).0,
                            ) && distance@[g.neighbors_spec(u)[i2].0].lte(
                                distance@[u].plus_spec(g.neighbors_spec(u)[i2].1.spec_cost(context)),
                            ) by {
                                let x = g.neighbors_spec(u)[i2].0;
                                let cu = g.neighbors_spec(u)[i2].1.spec_cost(context);
                                assert(d0.contains_key(x));
                                assert(d0[x].lte(d0[u].plus_spec(cu)));
                                assert(distance@[u] == d0[u]);
                                if x == tn && !(d0.contains_key(tn) && d0[tn] == av) {
                                    assert(av.lte(d0[tn]));
                                    <CostOf<G> as Cost>::lte_transitive(
                                        av,
                                        d0[tn],
                                        d0[u].plus_spec(cu),
                                    );
                                } else {
                                    assert(distance@[x] == d0[x]);
                                }
                            }
                            // processed neighbors of min stay relaxed
                            assert forall|jj: int| 0 <= jj < j + 1 implies distance@.contains_key(
                                (#[trigger] g.neighbors_spec(min)[jj]).0,
                            ) && distance@[g.neighbors_spec(min)[jj].0].lte(
                                min_cost.plus_spec(g.neighbors_spec(min)[jj].1.spec_cost(context)),
                            ) by {
                                if jj == j as int {
                                    assert(g.neighbors_spec(min)[jj].0 == tn);
                                    <CostOf<G> as Cost>::lte_total(av, av);
                                } else {
                                    let x = g.neighbors_spec(min)[jj].0;
                                    let cx = min_cost.plus_spec(
                                        g.neighbors_spec(min)[jj].1.spec_cost(context),
                                    );
                                    assert(d0.contains_key(x));
                                    assert(d0[x].lte(cx));
                                    if x == tn && !(d0.contains_key(tn) && d0[tn] == av) {
                                        assert(av.lte(d0[tn]));
                                        <CostOf<G> as Cost>::lte_transitive(av, d0[tn], cx);
                                    } else {
                                        assert(distance@[x] == d0[x]);
                                    }
                                }
                            }
                        }
                    } else {
                        proof {
                            <CostOf<G> as Cost>::lte_total(av, distance@[tn]);
                            assert forall|jj: int| 0 <= jj < j + 1 implies distance@.contains_key(
                                (#[trigger] g.neighbors_spec(min)[jj]).0,
                            ) && distance@[g.neighbors_spec(min)[jj].0].lte(
                                min_cost.plus_spec(g.neighbors_spec(min)[jj].1.spec_cost(context)),
                            ) by {
                                if jj == j as int {
                                    assert(g.neighbors_spec(min)[jj].0 == tn);
                                }
                            }
                        }
                    }
                    j += 1;
                }
                let ghost vis0 = visited@;
                visited.push(min);
                proof {
                    assert(visited@ == vis0.push(min));
                    assert forall|n: G::Node| #[trigger]
                        prev@.contains_key(n) implies distance@.contains_key(prev@[n].0)
                        && visited@.contains(prev@[n].0) && distance@[n]
                        == distance@[prev@[n].0].plus_spec(prev@[n].1.spec_cost(context)) by {
                        let pd = prev@[n].0;
                        if vis0.contains(pd) {
                            let iv = choose|iv: int| 0 <= iv < vis0.len() && vis0[iv] == pd;
                            assert(visited@[iv] == pd);
                        } else {
                            assert(pd == min);
                            assert(visited@[vis0.len() as int] == min);
                        }
                    }
                    assert(visited@.no_duplicates()) by {
                        assert(forall|i2: int| 0 <= i2 < vis0.len() ==> visited@[i2] == vis0[i2]);
                        assert(visited@[vis0.len() as int] == min);
                        assert(!vis0.contains(min));
                    }
                    // min joins the visited set with a minimal, fully
                    // relaxed distance
                    assert forall|u: G::Node, hops: Seq<(G::Node, G::Edge)>|
                        visited@.contains(u) && #[trigger] is_rpath(
                        g,
                        start,
                        u,
                        hops,
                    ) implies distance@[u].lte(rpath_cost::<G>(context, hops)) by {
                        if vis0.contains(u) {
                        } else {
                            assert(u == min);
                        }
                    }
                    assert forall|u: G::Node, i2: int|
                        visited@.contains(u) && 0 <= i2 < g.neighbors_spec(
                            u,
                        ).len() implies distance@.contains_key(
                        (#[trigger] g.neighbors_spec(u)[i2]).0,
                    ) && distance@[g.neighbors_spec(u)[i2].0].lte(
                        distance@[u].plus_spec(g.neighbors_spec(u)[i2].1.spec_cost(context)),
                    ) by {
                        if vis0.contains(u) {
                        } else {
                            assert(u == min);
                        }
                    }
                    // the measure stays non-negative: the visited nodes are
                    // distinct members of the finite node universe
                    visited@.unique_seq_to_set();
                    assert(visited@.to_set().subset_of(g.nodes())) by {
                        assert forall|x: G::Node|
                            visited@.to_set().contains(x) implies g.nodes().contains(x) by {
                            assert(visited@.contains(x));
                            let ix = choose|ix: int| 0 <= ix < visited@.len() && visited@[ix] == x;
                            assert(distance@.contains_key(visited@[ix]));
                        }
                    }
                    vstd::set_lib::lemma_len_subset(visited@.to_set(), g.nodes());
                }
            },
        }
    }
    let result = ShortestPath::new(prev);
    proof {
        // the distance table holds every reachable node: its domain is
        // closed under reported edges once everything is visited
        assert forall|v: G::Node| reachable(g, start, v) implies #[trigger] distance@.contains_key(
            v,
        ) by {
            let k = choose|k: nat| reachable_within(g, start, v, k);
            assert forall|u: G::Node, i: int|
                distance@.dom().contains(u) && 0 <= i < g.neighbors_spec(
                    u,
                ).len() implies distance@.dom().contains(
                (#[trigger] g.neighbors_spec(u)[i]).0,
            ) by {
                assert(visited@.contains(u));
            }
            lemma_reachable_in_closed_set(g, start, v, k, distance@.dom());
        }
        assert forall|n: G::Node|
            reachable(g, start, n) && n != start implies #[trigger] result@.contains_key(n) by {
            assert(distance@.contains_key(n));
        }
        // the final distance table is optimal and prices the tree
        assert forall|v: G::Node, hops: Seq<(G::Node, G::Edge)>|
            distance@.contains_key(v) && #[trigger] is_rpath(
            g,
            start,
            v,
            hops,
        ) implies distance@[v].lte(rpath_cost::<G>(context, hops)) by {
            assert(visited@.contains(v));
        }
        assert(distances_optimal(g, context, start, distance@));
        assert(tree_priced(g, context, start, result@, distance@));
    }
    result
}

/// A goal that is unreachable from `start` has no predecessor entry, so the
/// reconstructed sequence is empty and the walk never arrives at `start`.
pub proof fn lemma_unreachable_goal<G: Graph>(
    g: &G,
    m: Map<G::Node, (G::Node, G::Edge)>,
    start: G::Node,
    goal: G::Node,
    fuel: nat,
)
    requires
        forall|n: G::Node| #[trigger] m.contains_key(n) ==> reachable(g, start, n),
        !reachable(g, start, goal),
    ensures
        walk(m, start, goal, fuel) == Seq::<(G::Node, G::Edge)>::empty(),
        !walk_reaches(m, start, goal, fuel),
{
    assert(reachable_within(g, start, start, 0nat));
    assert(goal != start);
    assert(!m.contains_key(goal));
}

/// When the backward walk from `goal` arrives at `start`, the
/// reconstructed sequence is a genuine path of reported edges from `start`
/// to `goal`.
pub proof fn lemma_walk_is_path<G: Graph>(
    g: &G,
    m: Map<G::Node, (G::Node, G::Edge)>,
    start: G::Node,
    goal: G::Node,
    fuel: nat,
)
    requires
        forall|n: G::Node| #[trigger] m.contains_key(n) ==> edge_from(g, m[n].0, n, m[n].1),
        walk_reaches(m, start, goal, fuel),
    ensures
        is_rpath(g, start, goal, walk(m, start, goal, fuel)),
    decreases fuel,
{
    if goal == start {
    } else {
        let p = m[goal];
        lemma_walk_is_path(g, m, start, p.0, (fuel - 1) as nat);
        let rest = walk(m, start, p.0, (fuel - 1) as nat);
        let w = walk(m, start, goal, fuel);
        assert(w == seq![p] + rest);
        assert(w[0] == p);
        assert(w.drop_first() =~= rest);
        assert(edge_from(g, p.0, goal, p.1));
    }
}

/// The reconstructed sequence prices at exactly the recorded distance of
/// `goal`: the tree equations telescope along the walk.
pub proof fn lemma_walk_cost<G: Graph>(
    g: &G,
    context: &G::Context,
    start: G::Node,
    m: Map<G::Node, (G::Node, G::Edge)>,
    d: Map<G::Node, CostOf<G>>,
    goal: G::Node,
    fuel: nat,
)
    requires
        tree_priced(g, context, start, m, d),
        walk_reaches(m, start, goal, fuel),
    ensures
        d.contains_key(goal),
        rpath_cost::<G>(context, walk(m, start, goal, fuel)) == d[goal],
    decreases fuel,
{
    if goal == start {
    } else {
        let p = m[goal];
        lemma_walk_cost(g, context, start, m, d, p.0, (fuel - 1) as nat);
        let rest = walk(m, start, p.0, (fuel - 1) as nat);
        let w = walk(m, start, goal, fuel);
        assert(w == seq![p] + rest);
        assert(w[0] == p);
        assert(w.drop_first() =~= rest);
    }
}

/// No path from `start` to `goal` costs less than the reconstructed
/// sequence: the walk prices at the recorded distance, which is minimal
/// over every path the graph reports.
pub proof fn lemma_sequence_minimal<G: Graph>(
    g: &G,
    context: &G::Context,
    start: G::Node,
    goal: G::Node,
    m: Map<G::Node, (G::Node, G::Edge)>,
    d: Map<G::Node, CostOf<G>>,
    fuel: nat,
    q: Seq<(G::Node, G::Edge)>,
)
    requires
        distances_optimal(g, context, start, d),
        tree_priced(g, context, start, m, d),
        walk_reaches(m, start, goal, fuel),
        is_rpath(g, start, goal, q),
    ensures
        rpath_cost::<G>(context, walk(m, start, goal, fuel)).lte(rpath_cost::<G>(context, q)),
{
    lemma_walk_cost(g, context, start, m, d, goal, fuel);
}

/// Two optimal distance tables for the same search agree everywhere: the
/// recorded distances do not depend on how ties were broken, only the
/// recorded predecessors may differ.
pub proof fn lemma_distances_unique<G: Graph>(
    g: &G,
    context: &G::Context,
    start: G::Node,
    d1: Map<G::Node, CostOf<G>>,
    d2: Map<G::Node, CostOf<G>>,
)
    requires
        distances_optimal(g, context, start, d1),
        distances_optimal(g, context, start, d2),
    ensures
        d1 == d2,
{
    assert forall|v: G::Node| #[trigger]
        d1.contains_key(v) implies d2.contains_key(v) && d1[v] == d2[v] by {
        assert(reachable(g, start, v));
        assert(d2.contains_key(v));
        let h1 = choose|h: Seq<(G::Node, G::Edge)>|
            #[trigger] is_rpath(g, start, v, h) && rpath_cost::<G>(context, h) == d1[v];
        let h2 = choose|h: Seq<(G::Node, G::Edge)>|
            #[trigger] is_rpath(g, start, v, h) && rpath_cost::<G>(context, h) == d2[v];
        assert(d1[v].lte(rpath_cost::<G>(context, h2)));
        assert(d2[v].lte(rpath_cost::<G>(context, h1)));
        <CostOf<G> as Cost>::lte_antisymmetric(d1[v], d2[v]);
    }
    assert forall|v: G::Node| #[trigger] d2.contains_key(v) implies d1.contains_key(v) by {
        assert(reachable(g, start, v));
    }
    assert(d1 =~= d2);
}

proof fn lemma_only_start_reachable<G: Graph>(g: &G, start: G::Node, t: G::Node, k: nat)
    requires
        g.neighbors_spec(start).len() == 0,
        reachable_within(g, start, t, k),
    ensures
        t == start,
    decreases k,
{
    if t == start {
    } else {
        let mid = choose|mid: G::Node|
            reachable_within(g, start, mid, (k - 1) as nat) && edge_to(g, mid, t);
        lemma_only_start_reachable(g, start, mid, (k - 1) as nat);
        let i = choose|i: int|
            0 <= i < g.neighbors_spec(mid).len() && (#[trigger] g.neighbors_spec(mid)[i]).0 == t;
    }
}

/// A start node with no neighbors yields an empty predecessor tree: nothing
/// else is reachable from it, and the start itself cannot re-enter the tree.
pub proof fn lemma_isolated_start<G: Graph>(
    g: &G,
    m: Map<G::Node, (G::Node, G::Edge)>,
    start: G::Node,
)
    requires
        g.neighbors_spec(start).len() == 0,
        forall|n: G::Node| #[trigger] m.contains_key(n) ==> reachable(g, start, n),
        forall|n: G::Node| #[trigger] m.contains_key(n) ==> edge_from(g, m[n].0, n, m[n].1),
        forall|n: G::Node| #[trigger]
            m.contains_key(n) ==> (m[n].0 == start || m.contains_key(m[n].0)),
    ensures
        m == Map::<G::Node, (G::Node, G::Edge)>::empty(),
{
    assert forall|n: G::Node| !(#[trigger] m.contains_key(n)) by {
        if m.contains_key(n) {
            let k = choose|k: nat| reachable_within(g, start, n, k);
            lemma_only_start_reachable(g, start, n, k);
            assert(m.contains_key(start));
            if m.contains_key(m[start].0) {
                let k2 = choose|k2: nat| reachable_within(g, start, m[start].0, k2);
                lemma_only_start_reachable(g, start, m[start].0, k2);
            }
            assert(m[start].0 == start);
            assert(edge_from(g, start, start, m[start].1));
            let i = choose|i: int|
                0 <= i < g.neighbors_spec(start).len() && #[trigger] g.neighbors_spec(start)[i]
                    == (start, m[start].1);
        }
    }
    assert(m =~= Map::<G::Node, (G::Node, G::Edge)>::empty());
}

} // verus!
