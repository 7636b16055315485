//! The network of the routing and capacity assignment problem: nodes,
//! bidirectional links between them, traffic demands, and the searches on it.

use rand::rngs::StdRng;
use std::collections::HashMap;
use vstd::prelude::*;

use crate::permutation::{contains_number, lemma_distinct_within};
use crate::random::{random_below, random_up_to};

verus! {

broadcast use vstd::std_specs::hash::group_hash_axioms;

/// A node of the network.
#[derive(Debug, Clone, Copy)]
pub struct Node {
    id: usize,
}

impl Node {
    /// The identity of the node.
    pub closed spec fn id_view(&self) -> usize {
        self.id
    }

    /// The node with identity `id`.
    pub fn with_id(id: usize) -> (n: Self)
        ensures
            n.id_view() == id,
    {
        Node { id }
    }

    /// The identity of the node.
    pub fn id(&self) -> (id: usize)
        ensures
            id == self.id_view(),
    {
        self.id
    }
}

/// A link that carries traffic both ways between two distinct nodes.
#[derive(Debug, Clone, Copy)]
pub struct BidirectionalLink {
    connected_nodes: (usize, usize),
}

/// The link joins `a` and `b`, in either direction.
pub open spec fn joins(nodes: (usize, usize), a: usize, b: usize) -> bool {
    (a == nodes.0 && b == nodes.1) || (a == nodes.1 && b == nodes.0)
}

impl BidirectionalLink {
    /// The two nodes the link connects.
    pub closed spec fn ends(&self) -> (usize, usize) {
        self.connected_nodes
    }

    /// The link between two distinct nodes.
    pub fn between(connected_nodes: (usize, usize)) -> (l: Self)
        requires
            connected_nodes.0 != connected_nodes.1,
        ensures
            l.ends() == connected_nodes,
    {
        BidirectionalLink { connected_nodes }
    }

    /// The two nodes the link connects.
    pub fn ends_pair(&self) -> (e: (usize, usize))
        ensures
            e == self.ends(),
    {
        self.connected_nodes
    }

    /// The link joins the two nodes, in either direction.
    pub fn is_between(&self, nodes: (usize, usize)) -> (b: bool)
        ensures
            b == joins(self.ends(), nodes.0, nodes.1),
    {
        (nodes.0 == self.connected_nodes.0 && nodes.1 == self.connected_nodes.1) || (nodes.0
            == self.connected_nodes.1 && nodes.1 == self.connected_nodes.0)
    }

    /// The two ends of the link, each as a possible start.
    pub fn froms(&self) -> (v: Vec<usize>)
        ensures
            v@ == seq![self.ends().0, self.ends().1],
    {
        vec![self.connected_nodes.0, self.connected_nodes.1]
    }

    /// The link starts or ends at `from`.
    pub fn is_from(&self, from: usize) -> (b: bool)
        ensures
            b == (self.ends().0 == from || self.ends().1 == from),
    {
        self.connected_nodes.0 == from || self.connected_nodes.1 == from
    }

    /// The other end of the link, seen from `from`.
    pub fn to(&self, from: usize) -> (to: usize)
        requires
            self.ends().0 == from || self.ends().1 == from,
        ensures
            to == other_end(self.ends(), from),
    {
        if self.connected_nodes.0 == from {
            self.connected_nodes.1
        } else {
            self.connected_nodes.0
        }
    }
}

/// Whether a new link between the two nodes may join `links`: the nodes
/// differ and no link joins them yet. Random networks draw pairs of nodes
/// until one passes.
pub fn can_join(links: &Vec<BidirectionalLink>, between: (usize, usize)) -> (b: bool)
    ensures
        b == (between.0 != between.1 && !linked(links@, between.0, between.1)),
{
    if between.0 == between.1 {
        return false;
    }
    let mut k: usize = 0;
    while k < links.len()
        invariant
            k <= links@.len(),
            forall|i: int| 0 <= i < k ==> !joins(#[trigger] links@[i].ends(), between.0, between.1),
        decreases links.len() - k,
    {
        if links[k].is_between(between) {
            assert(joins(links@[k as int].ends(), between.0, between.1));
            return false;
        }
        k = k + 1;
    }
    true
}

/// A demand for traffic in both directions between two distinct nodes.
#[derive(Debug, Clone, Copy)]
pub struct BidirectionalDemand {
    demand_nodes: (usize, usize),
    required_traffic: usize,
}

impl BidirectionalDemand {
    /// The two nodes between which traffic is demanded.
    pub closed spec fn nodes_view(&self) -> (usize, usize) {
        self.demand_nodes
    }

    /// How much traffic is demanded.
    pub closed spec fn traffic_view(&self) -> nat {
        self.required_traffic as nat
    }

    /// The demand for `required_traffic` between two distinct nodes.
    pub fn between_with_traffic(demand_nodes: (usize, usize), required_traffic: usize) -> (d: Self)
        requires
            demand_nodes.0 != demand_nodes.1,
        ensures
            d.nodes_view() == demand_nodes,
            d.traffic_view() == required_traffic,
    {
        BidirectionalDemand { demand_nodes, required_traffic }
    }

    /// The demand is between the two nodes, in either direction.
    pub fn is_between(&self, nodes: (usize, usize)) -> (b: bool)
        ensures
            b == joins(self.nodes_view(), nodes.0, nodes.1),
    {
        (nodes.0 == self.demand_nodes.0 && nodes.1 == self.demand_nodes.1) || (nodes.0
            == self.demand_nodes.1 && nodes.1 == self.demand_nodes.0)
    }

    /// The two nodes between which traffic is demanded.
    pub fn demand_nodes(&self) -> (n: (usize, usize))
        ensures
            n == self.nodes_view(),
    {
        self.demand_nodes
    }

    /// How much traffic is demanded.
    pub fn required_traffic(&self) -> (t: usize)
        ensures
            t == self.traffic_view(),
    {
        self.required_traffic
    }
}

/// Some demand of `demands` is between `a` and `b`.
pub open spec fn demanded(demands: Seq<BidirectionalDemand>, a: usize, b: usize) -> bool {
    exists|i: int| 0 <= i < demands.len() && joins(#[trigger] demands[i].nodes_view(), a, b)
}

/// One attempt at the ends of a new random link: two nodes below
/// `number_nodes` are drawn, the first, then the second, and given back where
/// a link may join them (`can_join`); `None` where it may not, and random
/// networks draw again.
pub fn draw_link_ends(rng: &mut StdRng, links: &Vec<BidirectionalLink>, number_nodes: usize) -> (r: Option<(usize, usize)>)
    requires
        number_nodes > 0,
    ensures
        r matches Some(e) ==> e.0 < number_nodes && e.1 < number_nodes && e.0 != e.1 && !linked(links@, e.0, e.1),
{
    let first = random_below(rng, number_nodes);
    let second = random_below(rng, number_nodes);
    if can_join(links, (first, second)) {
        Some((first, second))
    } else {
        None
    }
}

/// One attempt at the ends of a new random demand: two nodes below
/// `number_nodes` are drawn, the first, then the second, and given back where
/// a demand may join `demands` between them (`can_demand`); `None` where it
/// may not, and random instances draw again.
pub fn draw_demand_ends(rng: &mut StdRng, demands: &Vec<BidirectionalDemand>, number_nodes: usize) -> (r: Option<(usize, usize)>)
    requires
        number_nodes > 0,
    ensures
        r matches Some(e) ==> e.0 < number_nodes && e.1 < number_nodes && e.0 != e.1 && !demanded(demands@, e.0, e.1),
{
    let first = random_below(rng, number_nodes);
    let second = random_below(rng, number_nodes);
    if can_demand(demands, (first, second)) {
        Some((first, second))
    } else {
        None
    }
}

/// A demand between the two distinct nodes, for a traffic drawn from zero up
/// to `max_traffic`.
pub fn demand_with_random_traffic(rng: &mut StdRng, between: (usize, usize), max_traffic: usize) -> (d: BidirectionalDemand)
    requires
        between.0 != between.1,
    ensures
        d.nodes_view() == between,
        d.traffic_view() <= max_traffic,
{
    let required_traffic = random_up_to(rng, max_traffic);
    BidirectionalDemand::between_with_traffic(between, required_traffic)
}

/// Whether a new demand between the two nodes may join `demands`: the nodes
/// differ and no demand is between them yet. Random instances draw pairs of
/// nodes until one passes.
pub fn can_demand(demands: &Vec<BidirectionalDemand>, between: (usize, usize)) -> (b: bool)
    ensures
        b == (between.0 != between.1 && !demanded(demands@, between.0, between.1)),
{
    if between.0 == between.1 {
        return false;
    }
    let mut k: usize = 0;
    while k < demands.len()
        invariant
            k <= demands@.len(),
            forall|i: int| 0 <= i < k ==> !joins(#[trigger] demands@[i].nodes_view(), between.0, between.1),
        decreases demands.len() - k,
    {
        if demands[k].is_between(between) {
            assert(joins(demands@[k as int].nodes_view(), between.0, between.1));
            return false;
        }
        k = k + 1;
    }
    true
}

/// The end of a link opposite to `from`.
pub open spec fn other_end(nodes: (usize, usize), from: usize) -> usize {
    if nodes.0 == from {
        nodes.1
    } else {
        nodes.0
    }
}

/// Every link joins two distinct nodes.
pub open spec fn proper_links(links: Seq<BidirectionalLink>) -> bool {
    forall|i: int| 0 <= i < links.len() ==> (#[trigger] links[i].ends()).0 != links[i].ends().1
}

/// No two links join the same two nodes.
pub open spec fn unique_links(links: Seq<BidirectionalLink>) -> bool {
    forall|i: int, j: int|
        0 <= i < links.len() && 0 <= j < links.len() && i != j ==> !joins(
            #[trigger] links[i].ends(),
            (#[trigger] links[j].ends()).0,
            links[j].ends().1,
        )
}

/// Some link joins `a` and `b`.
pub open spec fn linked(links: Seq<BidirectionalLink>, a: usize, b: usize) -> bool {
    exists|i: int| 0 <= i < links.len() && joins(#[trigger] links[i].ends(), a, b)
}

/// `path` is a walk along links: each node is linked to the next.
pub open spec fn is_walk(links: Seq<BidirectionalLink>, path: Seq<usize>) -> bool {
    &&& path.len() >= 1
    &&& forall|i: int| 0 <= i < path.len() - 1 ==> linked(links, #[trigger] path[i], path[i + 1])
}

/// `b` can be reached from `a` along links.
pub open spec fn reachable(links: Seq<BidirectionalLink>, a: usize, b: usize) -> bool {
    exists|path: Seq<usize>| #[trigger] is_walk(links, path) && path[0] == a && path.last() == b
}

/// The nodes that can be reached from `a`.
pub open spec fn component(links: Seq<BidirectionalLink>, a: usize) -> Set<usize> {
    Set::new(|b: usize| reachable(links, a, b))
}

/// `a` and the ends of all links.
pub open spec fn ends_and(links: Seq<BidirectionalLink>, a: usize) -> Seq<usize> {
    seq![a] + Seq::new(2 * links.len(), |k: int| if k % 2 == 0 {
        links[k / 2].ends().0
    } else {
        links[k / 2].ends().1
    })
}

/// A set that holds `a` and is closed under following links holds every node
/// reachable from `a`.
pub proof fn lemma_closed_holds_component(links: Seq<BidirectionalLink>, s: Set<usize>, a: usize, b: usize)
    requires
        s.contains(a),
        forall|x: usize, y: usize| #[trigger] s.contains(x) && linked(links, x, y) ==> #[trigger] s.contains(y),
        reachable(links, a, b),
    ensures
        s.contains(b),
{
    let path = choose|path: Seq<usize>| #[trigger] is_walk(links, path) && path[0] == a && path.last() == b;
    lemma_walk_stays(links, s, path, path.len() - 1);
}

/// A walk that starts in a set closed under following links stays in it.
proof fn lemma_walk_stays(links: Seq<BidirectionalLink>, s: Set<usize>, path: Seq<usize>, k: int)
    requires
        is_walk(links, path),
        0 <= k < path.len(),
        s.contains(path[0]),
        forall|x: usize, y: usize| #[trigger] s.contains(x) && linked(links, x, y) ==> #[trigger] s.contains(y),
    ensures
        s.contains(path[k]),
    decreases k,
{
    if k > 0 {
        lemma_walk_stays(links, s, path, k - 1);
        assert(linked(links, path[k - 1], path[k]));
    }
}

/// Extending a walk to `b` by a link gives a walk to its other end.
pub proof fn lemma_reachable_step(links: Seq<BidirectionalLink>, a: usize, b: usize, c: usize)
    requires
        reachable(links, a, b),
        linked(links, b, c),
    ensures
        reachable(links, a, c),
{
    let path = choose|path: Seq<usize>| #[trigger] is_walk(links, path) && path[0] == a && path.last() == b;
    let longer = path.push(c);
    assert forall|i: int| 0 <= i < longer.len() - 1 implies linked(links, #[trigger] longer[i], longer[i + 1]) by {
        if i < path.len() - 1 {
            assert(linked(links, path[i], path[i + 1]));
        }
    }
    assert(is_walk(links, longer));
}

/// Every node reaches itself.
pub proof fn lemma_reachable_self(links: Seq<BidirectionalLink>, a: usize)
    ensures
        reachable(links, a, a),
{
    assert(is_walk(links, seq![a]));
}

/// Nodes linked to anything are ends of links.
pub proof fn lemma_linked_in_ends(links: Seq<BidirectionalLink>, a: usize, x: usize, y: usize)
    requires
        linked(links, x, y),
    ensures
        ends_and(links, a).contains(y),
{
    let i = choose|i: int| 0 <= i < links.len() && joins(#[trigger] links[i].ends(), x, y);
    let e = ends_and(links, a);
    if y == links[i].ends().0 {
        assert(e[1 + 2 * i] == y);
    } else {
        assert(e[1 + 2 * i + 1] == y);
    }
}

/// Links join symmetrically.
pub proof fn lemma_linked_symmetric(links: Seq<BidirectionalLink>, a: usize, b: usize)
    requires
        linked(links, a, b),
    ensures
        linked(links, b, a),
{
    let i = choose|i: int| 0 <= i < links.len() && joins(#[trigger] links[i].ends(), a, b);
    assert(joins(links[i].ends(), b, a));
}

/// Reachability is symmetric: a walk can be followed backwards.
pub proof fn lemma_reachable_symmetric(links: Seq<BidirectionalLink>, a: usize, b: usize)
    requires
        reachable(links, a, b),
    ensures
        reachable(links, b, a),
{
    let path = choose|path: Seq<usize>| #[trigger] is_walk(links, path) && path[0] == a && path.last() == b;
    let back = path.reverse();
    assert forall|i: int| 0 <= i < back.len() - 1 implies linked(links, #[trigger] back[i], back[i + 1]) by {
        let j = path.len() - 2 - i;
        assert(back[i] == path[j + 1]);
        assert(back[i + 1] == path[j]);
        assert(linked(links, path[j], path[j + 1]));
        lemma_linked_symmetric(links, path[j], path[j + 1]);
    }
    assert(is_walk(links, back));
    assert(back[0] == b);
    assert(back.last() == a);
}

/// Reachability is transitive: walks can be joined end to start.
pub proof fn lemma_reachable_transitive(links: Seq<BidirectionalLink>, a: usize, b: usize, c: usize)
    requires
        reachable(links, a, b),
        reachable(links, b, c),
    ensures
        reachable(links, a, c),
{
    let p = choose|path: Seq<usize>| #[trigger] is_walk(links, path) && path[0] == a && path.last() == b;
    let q = choose|path: Seq<usize>| #[trigger] is_walk(links, path) && path[0] == b && path.last() == c;
    let w = p + q.drop_first();
    assert forall|i: int| 0 <= i < w.len() - 1 implies linked(links, #[trigger] w[i], w[i + 1]) by {
        if i < p.len() - 1 {
            assert(w[i] == p[i]);
            assert(w[i + 1] == p[i + 1]);
        } else {
            let k = i - (p.len() - 1);
            assert(w[i] == q[k]);
            assert(w[i + 1] == q[k + 1]);
            assert(linked(links, q[k], q[k + 1]));
        }
    }
    assert(is_walk(links, w));
    if q.len() == 1 {
        assert(w.last() == p.last());
    } else {
        assert(w.last() == q.last());
    }
}

/// Every node reachable from `a` is `a` or an end of a link.
pub proof fn lemma_reachable_is_end(links: Seq<BidirectionalLink>, a: usize, b: usize)
    requires
        reachable(links, a, b),
        a != b,
    ensures
        exists|i: int| 0 <= i < links.len() && (#[trigger] links[i].ends().0 == b || links[i].ends().1 == b),
{
    let path = choose|path: Seq<usize>| #[trigger] is_walk(links, path) && path[0] == a && path.last() == b;
    assert(path.len() >= 2);
    let k = path.len() - 2;
    assert(linked(links, path[k], path[k + 1]));
    let i = choose|i: int| 0 <= i < links.len() && joins(#[trigger] links[i].ends(), path[k], path[k + 1]);
    assert(links[i].ends().0 == b || links[i].ends().1 == b);
}

/// Every link joins two of the first `n` node numbers.
pub open spec fn links_within(links: Seq<BidirectionalLink>, n: nat) -> bool {
    forall|i: int| 0 <= i < links.len() ==> (#[trigger] links[i].ends()).0 < n && links[i].ends().1 < n
}

/// Any two of the first `n` node numbers can be reached from each other.
pub open spec fn connected(links: Seq<BidirectionalLink>, n: nat) -> bool {
    forall|a: usize, b: usize| a < n && b < n ==> #[trigger] reachable(links, a, b)
}

/// Where the links join only the node numbers below `n`, and as many nodes
/// can be reached from node 0 as there are node numbers, every two of them
/// can be reached from each other.
pub proof fn lemma_coherent_connected(links: Seq<BidirectionalLink>, n: nat)
    requires
        0 < n <= usize::MAX,
        links_within(links, n),
        component(links, 0).finite(),
        component(links, 0).len() == n,
    ensures
        connected(links, n),
{
    let numbers = Set::new(|x: usize| x < n);
    let listed = Seq::new(n, |i: int| i as usize);
    assert forall|i: int| 0 <= i < n implies #[trigger] listed[i] == i by {}
    assert(listed.no_duplicates());
    listed.unique_seq_to_set();
    assert(listed.to_set() =~= numbers) by {
        assert forall|x: usize| numbers.contains(x) implies listed.to_set().contains(x) by {
            assert(listed[x as int] == x);
        }
    }
    let c = component(links, 0);
    assert forall|x: usize| c.contains(x) implies numbers.contains(x) by {
        if x != 0 {
            lemma_reachable_is_end(links, 0, x);
        }
    }
    assert(c.subset_of(numbers));
    vstd::set_lib::lemma_subset_equality(c, numbers);
    assert forall|a: usize, b: usize| a < n && b < n implies #[trigger] reachable(links, a, b) by {
        assert(numbers.contains(a));
        assert(numbers.contains(b));
        assert(c.contains(a));
        assert(c.contains(b));
        lemma_reachable_symmetric(links, 0, a);
        lemma_reachable_transitive(links, a, 0, b);
    }
}

/// Two sequences without repetitions that share no element.
pub open spec fn disjoint_distinct(a: Seq<usize>, b: Seq<usize>) -> bool {
    &&& a.no_duplicates()
    &&& b.no_duplicates()
    &&& forall|x: usize| #[trigger] a.contains(x) ==> !b.contains(x)
}

impl Network {
/// Whether every node can be reached from the first one: a search from the
/// first node along the links, which counts the nodes it reaches. The result
/// is whether there are as many of those as there are nodes.
pub fn coherent(nodes: &Vec<Node>, links: &Vec<BidirectionalLink>) -> (c: bool)
    requires
        nodes@.len() > 0,
        proper_links(links@),
    ensures
        component(links@, nodes@[0].id_view()).finite(),
        c == (nodes@.len() == component(links@, nodes@[0].id_view()).len()),
{
    let start_node_id = nodes[0].id();
    let ghost l = links@;
    let ghost universe = ends_and(l, start_node_id);
    let mut visited_nodes_ids: Vec<usize> = Vec::new();
    let mut connected_nodes_ids: Vec<usize> = Vec::new();
    connected_nodes_ids.push(start_node_id);
    proof {
        lemma_reachable_self(l, start_node_id);
        assert(universe[0] == start_node_id);
        assert(connected_nodes_ids@[0] == start_node_id);
    }
    while connected_nodes_ids.len() > 0
        invariant
            l == links@,
            proper_links(l),
            universe == ends_and(l, start_node_id),
            disjoint_distinct(visited_nodes_ids@, connected_nodes_ids@),
            visited_nodes_ids@.contains(start_node_id) || connected_nodes_ids@.contains(
                start_node_id,
            ),
            forall|x: usize|
                #[trigger] visited_nodes_ids@.contains(x) ==> reachable(l, start_node_id, x)
                    && universe.contains(x),
            forall|x: usize|
                #[trigger] connected_nodes_ids@.contains(x) ==> reachable(l, start_node_id, x)
                    && universe.contains(x),
            forall|x: usize, y: usize|
                #[trigger] visited_nodes_ids@.contains(x) && linked(l, x, y) ==> (
                visited_nodes_ids@.contains(y) || #[trigger] connected_nodes_ids@.contains(y)),
        decreases universe.len() - visited_nodes_ids@.len(),
    {
        let ghost stack_before = connected_nodes_ids@;
        let ghost visited_before = visited_nodes_ids@;
        let current_node_id = match connected_nodes_ids.pop() {
            Some(id) => id,
            None => {
                assert(false);
                0
            },
        };
        let ghost stack_rest = connected_nodes_ids@;
        proof {
            assert(stack_before =~= stack_rest.push(current_node_id));
            assert(stack_before.contains(current_node_id));
            assert forall|x: usize| #[trigger] stack_rest.contains(x) implies stack_before.contains(x)
                && x != current_node_id by {
                let k = choose|k: int| 0 <= k < stack_rest.len() && stack_rest[k] == x;
                assert(stack_before[k] == x);
            }
            let ghost vc = visited_before.push(current_node_id);
            assert forall|i: int| 0 <= i < vc.len() implies universe.contains(#[trigger] vc[i]) by {
                if i < visited_before.len() {
                    assert(visited_before.contains(visited_before[i]));
                }
            }
            assert(!visited_before.contains(current_node_id));
            assert forall|i: int, k: int| 0 <= i < vc.len() && 0 <= k < vc.len() && i != k implies vc[i] != vc[k] by {
                if i < visited_before.len() && k < visited_before.len() {
                } else if i < visited_before.len() {
                    assert(visited_before.contains(vc[i]));
                } else if k < visited_before.len() {
                    assert(visited_before.contains(vc[k]));
                }
            }
            assert(vc.no_duplicates());
            lemma_distinct_within(vc, universe);
        }
        let mut j: usize = 0;
        while j < links.len()
            invariant
                l == links@,
                proper_links(l),
                universe == ends_and(l, start_node_id),
                visited_nodes_ids@ == visited_before,
                stack_rest == connected_nodes_ids@.take(stack_rest.len() as int),
                stack_rest.len() <= connected_nodes_ids@.len(),
                disjoint_distinct(visited_before, connected_nodes_ids@),
                !visited_before.contains(current_node_id),
                !connected_nodes_ids@.contains(current_node_id),
                reachable(l, start_node_id, current_node_id),
                forall|x: usize|
                    #[trigger] connected_nodes_ids@.contains(x) ==> reachable(l, start_node_id, x)
                        && universe.contains(x),
                forall|y: usize|
                    (exists|k: int| 0 <= k < j && joins(#[trigger] l[k].ends(), current_node_id, y))
                        ==> visited_before.contains(y) || #[trigger] connected_nodes_ids@.contains(y),
            decreases links.len() - j,
        {
            let link = &links[j];
            let ghost stack_now = connected_nodes_ids@;
            if link.is_from(current_node_id) {
                let connected_node_id = link.to(current_node_id);
                proof {
                    assert(joins(l[j as int].ends(), current_node_id, connected_node_id));
                    assert(connected_node_id != current_node_id);
                }
                if !contains_number(&connected_nodes_ids, connected_node_id) && !contains_number(
                    &visited_nodes_ids,
                    connected_node_id,
                ) {
                    connected_nodes_ids.push(connected_node_id);
                    proof {
                        assert(linked(l, current_node_id, connected_node_id));
                        lemma_reachable_step(l, start_node_id, current_node_id, connected_node_id);
                        lemma_linked_in_ends(l, start_node_id, current_node_id, connected_node_id);
                        let ghost after = connected_nodes_ids@;
                        assert(after =~= stack_now.push(connected_node_id));
                        assert(after.take(stack_rest.len() as int) =~= stack_now.take(stack_rest.len() as int));
                        assert(after[after.len() - 1] == connected_node_id);
                        assert forall|x: usize| #[trigger] after.contains(x) implies stack_now.contains(x)
                            || x == connected_node_id by {
                            let k = choose|k: int| 0 <= k < after.len() && after[k] == x;
                            if k < stack_now.len() {
                                assert(stack_now[k] == x);
                            }
                        }
                    }
                }
            }
            proof {
                let ghost after = connected_nodes_ids@;
                assert forall|x: usize| #[trigger] stack_now.contains(x) implies after.contains(x) by {
                    let k = choose|k: int| 0 <= k < stack_now.len() && stack_now[k] == x;
                    assert(after[k] == x);
                }
                assert forall|y: usize|
                    (exists|k: int| 0 <= k < j + 1 && joins(#[trigger] l[k].ends(), current_node_id, y))
                        implies visited_before.contains(y) || #[trigger] after.contains(y) by {
                    let k = choose|k: int| 0 <= k < j + 1 && joins(#[trigger] l[k].ends(), current_node_id, y);
                    if k < j {
                        if !visited_before.contains(y) {
                            assert(stack_now.contains(y));
                        }
                    } else {
                        assert(l[k] == *link);
                        assert(l[k].ends().0 != l[k].ends().1);
                        assert(y == other_end(l[k].ends(), current_node_id));
                    }
                }
            }
            j = j + 1;
        }
        let ghost stack_now = connected_nodes_ids@;
        visited_nodes_ids.push(current_node_id);
        proof {
            let ghost visited = visited_nodes_ids@;
            assert(visited =~= visited_before.push(current_node_id));
            assert forall|x: usize| #[trigger] visited.contains(x) implies visited_before.contains(x)
                || x == current_node_id by {
                let k = choose|k: int| 0 <= k < visited.len() && visited[k] == x;
                if k < visited_before.len() {
                    assert(visited_before[k] == x);
                }
            }
            assert(visited[visited.len() - 1] == current_node_id);
            assert forall|x: usize| #[trigger] stack_rest.contains(x) implies stack_now.contains(x) by {
                let k = choose|k: int| 0 <= k < stack_rest.len() && stack_rest[k] == x;
                assert(stack_now.take(stack_rest.len() as int)[k] == x);
            }
            assert forall|x: usize| #[trigger] visited_before.contains(x) implies visited.contains(x) by {
                let k = choose|k: int| 0 <= k < visited_before.len() && visited_before[k] == x;
                assert(visited[k] == x);
            }
            assert(disjoint_distinct(visited, stack_now));
            assert forall|x: usize, y: usize|
                #[trigger] visited.contains(x) && linked(l, x, y) implies visited.contains(y)
                    || #[trigger] stack_now.contains(y) by {
                if x == current_node_id {
                    let i = choose|i: int| 0 <= i < l.len() && joins(#[trigger] l[i].ends(), x, y);
                    assert(joins(l[i].ends(), current_node_id, y));
                } else {
                    assert(visited_before.contains(x));
                    if stack_before.contains(y) && !visited_before.contains(y) {
                        if y != current_node_id {
                            let k = choose|k: int| 0 <= k < stack_before.len() && stack_before[k] == y;
                            assert(stack_rest[k] == y);
                            assert(stack_rest.contains(y));
                        }
                    }
                }
            }
            if !visited.contains(start_node_id) {
                assert(stack_before.contains(start_node_id));
                if start_node_id != current_node_id {
                    let k = choose|k: int| 0 <= k < stack_before.len() && stack_before[k] == start_node_id;
                    assert(stack_rest[k] == start_node_id);
                    assert(stack_rest.contains(start_node_id));
                }
            }
        }
    }
    proof {
        let ghost visited = visited_nodes_ids@;
        let ghost vs = visited.to_set();
        assert(!connected_nodes_ids@.contains(start_node_id));
        assert forall|x: usize, y: usize| #[trigger] vs.contains(x) && linked(l, x, y) implies #[trigger] vs.contains(y) by {
            assert(visited.contains(x));
            assert(!connected_nodes_ids@.contains(y));
        }
        assert forall|b: usize| component(l, start_node_id).contains(b) implies vs.contains(b) by {
            lemma_closed_holds_component(l, vs, start_node_id, b);
        }
        assert forall|b: usize| vs.contains(b) implies component(l, start_node_id).contains(b) by {
            assert(visited.contains(b));
        }
        assert(component(l, start_node_id) =~= vs);
        visited.unique_seq_to_set();
    }
    nodes.len() == visited_nodes_ids.len()
}
}

/// The links that start or end at `a`, in their order.
pub open spec fn touching(links: Seq<BidirectionalLink>, a: usize) -> Seq<BidirectionalLink>
    decreases links.len(),
{
    if links.len() == 0 {
        Seq::empty()
    } else {
        touching(links.drop_last(), a) + if links.last().ends().0 == a || links.last().ends().1 == a {
            seq![links.last()]
        } else {
            Seq::empty()
        }
    }
}

/// What `touching` holds: exactly the links at `a`.
pub proof fn lemma_touching(links: Seq<BidirectionalLink>, a: usize)
    ensures
        forall|l: BidirectionalLink| #[trigger] touching(links, a).contains(l) <==> (links.contains(l) && (l.ends().0 == a || l.ends().1 == a)),
    decreases links.len(),
{
    if links.len() > 0 {
        lemma_touching(links.drop_last(), a);
        let t = touching(links, a);
        let t0 = touching(links.drop_last(), a);
        assert forall|l: BidirectionalLink| #[trigger] t.contains(l) <==> (links.contains(l) && (l.ends().0 == a || l.ends().1 == a)) by {
            if t.contains(l) {
                let k = choose|k: int| 0 <= k < t.len() && t[k] == l;
                if k < t0.len() {
                    assert(t0[k] == l);
                    assert(t0.contains(l));
                    let m = choose|m: int| 0 <= m < links.drop_last().len() && links.drop_last()[m] == l;
                    assert(links[m] == l);
                } else {
                    assert(links[links.len() - 1] == l);
                }
            }
            if links.contains(l) && (l.ends().0 == a || l.ends().1 == a) {
                let m = choose|m: int| 0 <= m < links.len() && links[m] == l;
                if m < links.len() - 1 {
                    assert(links.drop_last()[m] == l);
                    assert(t0.contains(l));
                    let k = choose|k: int| 0 <= k < t0.len() && t0[k] == l;
                    assert(t[k] == l);
                } else {
                    assert(t[t.len() - 1] == l);
                }
            }
        }
    }
}

/// The network: its nodes, its links, and two indexes over the links, one by
/// start node and one by start and end node.
/// The order of the nodes and of the links never changes: the routing and
/// capacity plans refer to links by their position.
#[derive(Debug, Clone)]
pub struct Network {
    nodes: Vec<Node>,
    links: Vec<BidirectionalLink>,
    link_map_start_id: HashMap<usize, Vec<BidirectionalLink>>,
    index_map_start_and_end_id: HashMap<usize, HashMap<usize, usize>>,
}

/// `m` indexes `links` by start node: each node at which some link starts or
/// ends maps to those links, in their order.
pub open spec fn indexes_by_start(m: Map<usize, Vec<BidirectionalLink>>, links: Seq<BidirectionalLink>) -> bool {
    &&& forall|a: usize| #[trigger] m.contains_key(a) <==> touching(links, a).len() > 0
    &&& forall|a: usize| #[trigger] m.contains_key(a) ==> m[a]@ == touching(links, a)
}

/// `m` indexes `links` by start and end node: each pair of nodes that a link
/// joins maps to the position of that link.
pub open spec fn indexes_by_ends(m: Map<usize, HashMap<usize, usize>>, links: Seq<BidirectionalLink>) -> bool {
    &&& forall|a: usize, b: usize| #[trigger] has_pair(m, a, b) <==> linked(links, a, b)
    &&& forall|a: usize, b: usize| #[trigger] has_pair(m, a, b) ==> {
        let i = m[a]@[b] as int;
        0 <= i < links.len() && joins(links[i].ends(), a, b)
    }
}

/// The nested map holds an entry for `a`, then `b`.
pub open spec fn has_pair(m: Map<usize, HashMap<usize, usize>>, a: usize, b: usize) -> bool {
    m.contains_key(a) && m[a]@.contains_key(b)
}

/// Enters `from`, then `to`, with `value` into the nested map.
fn insert_pair(m: &mut HashMap<usize, HashMap<usize, usize>>, from: usize, to: usize, value: usize)
    requires
        !has_pair(old(m)@, from, to),
    ensures
        forall|a: usize, b: usize| #[trigger] has_pair(final(m)@, a, b) <==> (has_pair(old(m)@, a, b) || (a == from && b == to)),
        forall|a: usize, b: usize| #[trigger] has_pair(final(m)@, a, b) ==> final(m)@[a]@[b] == if a == from && b == to {
            value
        } else {
            old(m)@[a]@[b]
        },
{
    let mut inner = match m.remove(&from) {
        Some(found) => found,
        None => HashMap::new(),
    };
    let previous_value = inner.insert(to, value);
    m.insert(from, inner);
}

impl Network {
    /// The nodes.
    pub closed spec fn nodes_view(&self) -> Seq<Node> {
        self.nodes@
    }

    /// The links, in their fixed order.
    pub closed spec fn links_view(&self) -> Seq<BidirectionalLink> {
        self.links@
    }

    /// The indexes agree with the links, which join distinct nodes and never
    /// the same two nodes twice.
    pub closed spec fn wf(&self) -> bool {
        &&& proper_links(self.links@)
        &&& unique_links(self.links@)
        &&& indexes_by_start(self.link_map_start_id@, self.links@)
        &&& indexes_by_ends(self.index_map_start_and_end_id@, self.links@)
    }

    /// The links of a well formed network join distinct nodes, never the same
    /// two twice.
    pub proof fn lemma_wf_links(&self)
        requires
            self.wf(),
        ensures
            proper_links(self.links_view()),
            unique_links(self.links_view()),
    {
    }

    /// The network of the given nodes and links, with its indexes built.
    pub fn from(nodes: Vec<Node>, links: Vec<BidirectionalLink>) -> (n: Self)
        requires
            proper_links(links@),
            unique_links(links@),
        ensures
            n.wf(),
            n.nodes_view() == nodes@,
            n.links_view() == links@,
    {
        let link_map_start_id = Self::create_link_map(&links);
        let index_map_start_and_end_id = Self::create_index_map(&links);
        Network { nodes, links, link_map_start_id, index_map_start_and_end_id }
    }

    /// The index of the links by start node.
    pub fn create_link_map(links: &Vec<BidirectionalLink>) -> (m: HashMap<usize, Vec<BidirectionalLink>>)
        requires
            proper_links(links@),
        ensures
            indexes_by_start(m@, links@),
    {
        let mut link_map: HashMap<usize, Vec<BidirectionalLink>> = HashMap::new();
        let mut j: usize = 0;
        while j < links.len()
            invariant
                j <= links@.len(),
                proper_links(links@),
                indexes_by_start(link_map@, links@.take(j as int)),
            decreases links.len() - j,
        {
            let link = links[j];
            let ghost before = links@.take(j as int);
            let ghost after = links@.take(j + 1);
            assert(after.drop_last() =~= before);
            assert(after.last() == link);
            let froms = link.froms();
            let ghost m0 = link_map@;
            let mut f: usize = 0;
            while f < 2
                invariant
                    f <= 2,
                    froms@ == seq![link.ends().0, link.ends().1],
                    link.ends().0 != link.ends().1,
                    after.drop_last() == before,
                    after.last() == link,
                    forall|a: usize| #[trigger] link_map@.contains_key(a) <==> (touching(before, a).len() > 0 || (f > 0 && a == link.ends().0) || (f > 1 && a == link.ends().1)),
                    forall|a: usize| #[trigger] link_map@.contains_key(a) ==> link_map@[a]@ == touching(before, a) + if (f > 0 && a == link.ends().0) || (f > 1 && a == link.ends().1) {
                        seq![link]
                    } else {
                        Seq::empty()
                    },
                decreases 2 - f,
            {
                let from = froms[f];
                let mut entry = match link_map.remove(&from) {
                    Some(v) => v,
                    None => Vec::new(),
                };
                entry.push(link);
                link_map.insert(from, entry);
                f = f + 1;
            }
            proof {
                assert forall|a: usize| #[trigger] link_map@.contains_key(a) <==> touching(after, a).len() > 0 by {
                }
                assert forall|a: usize| #[trigger] link_map@.contains_key(a) implies link_map@[a]@ == touching(after, a) by {
                }
            }
            j = j + 1;
        }
        assert(links@.take(links@.len() as int) =~= links@);
        link_map
    }

    /// The index of the links by start and end node.
    pub fn create_index_map(links: &Vec<BidirectionalLink>) -> (m: HashMap<usize, HashMap<usize, usize>>)
        requires
            proper_links(links@),
            unique_links(links@),
        ensures
            indexes_by_ends(m@, links@),
    {
        let mut index_map: HashMap<usize, HashMap<usize, usize>> = HashMap::new();
        let mut j: usize = 0;
        while j < links.len()
            invariant
                j <= links@.len(),
                proper_links(links@),
                unique_links(links@),
                indexes_by_ends(index_map@, links@.take(j as int)),
            decreases links.len() - j,
        {
            let link = links[j];
            let ghost before = links@.take(j as int);
            let ghost after = links@.take(j + 1);
            let froms = link.froms();
            let first = froms[0];
            let second = link.to(first);
            assert(link == links@[j as int]);
            assert(first != second);
            proof {
                assert forall|a: usize, b: usize| joins(link.ends(), a, b) implies !linked(before, a, b) by {
                    if linked(before, a, b) {
                        let i = choose|i: int| 0 <= i < before.len() && joins(#[trigger] before[i].ends(), a, b);
                        assert(before[i] == links@[i]);
                        assert(joins(links@[i].ends(), links@[j as int].ends().0, links@[j as int].ends().1));
                    }
                }
                assert(!has_pair(index_map@, first, second));
            }
            insert_pair(&mut index_map, first, second, j);
            proof {
                assert(!has_pair(index_map@, second, first));
            }
            insert_pair(&mut index_map, second, first, j);
            proof {
                assert forall|a: usize, b: usize| #[trigger] has_pair(index_map@, a, b) <==> linked(after, a, b) by {
                    if linked(after, a, b) {
                        let i = choose|i: int| 0 <= i < after.len() && joins(#[trigger] after[i].ends(), a, b);
                        if i < j {
                            assert(before[i] == after[i]);
                            assert(linked(before, a, b));
                        }
                    }
                    if has_pair(index_map@, a, b) {
                        if a == first && b == second || a == second && b == first {
                            assert(after[j as int] == link);
                            assert(joins(after[j as int].ends(), a, b));
                        } else {
                            assert(linked(before, a, b));
                            let i = choose|i: int| 0 <= i < before.len() && joins(#[trigger] before[i].ends(), a, b);
                            assert(after[i] == before[i]);
                        }
                    }
                }
                assert forall|a: usize, b: usize| #[trigger] has_pair(index_map@, a, b) implies {
                    let i = index_map@[a]@[b] as int;
                    0 <= i < after.len() && joins(after[i].ends(), a, b)
                } by {
                    if a == first && b == second || a == second && b == first {
                        assert(after[j as int] == link);
                    } else {
                        let i = index_map@[a]@[b] as int;
                        assert(after[i] == before[i]);
                    }
                }
            }
            j = j + 1;
        }
        assert(links@.take(links@.len() as int) =~= links@);
        index_map
    }

    /// The position of the link between the two nodes; some link joins them.
    pub fn link_index_by_start_and_end_id(&self, start_and_end_id: (usize, usize)) -> (index: usize)
        requires
            self.wf(),
            linked(self.links_view(), start_and_end_id.0, start_and_end_id.1),
        ensures
            index < self.links_view().len(),
            joins(self.links_view()[index as int].ends(), start_and_end_id.0, start_and_end_id.1),
    {
        let (a, b) = start_and_end_id;
        assert(has_pair(self.index_map_start_and_end_id@, a, b));
        let inner = match self.index_map_start_and_end_id.get(&a) {
            Some(m) => m,
            None => {
                assert(false);
                return 0;
            },
        };
        match inner.get(&b) {
            Some(i) => *i,
            None => {
                assert(false);
                0
            },
        }
    }

    /// The nodes.
    pub fn nodes(&self) -> (n: &Vec<Node>)
        ensures
            n@ == self.nodes_view(),
    {
        &self.nodes
    }

    /// The links, in their fixed order.
    pub fn links(&self) -> (l: &Vec<BidirectionalLink>)
        ensures
            l@ == self.links_view(),
    {
        &self.links
    }

    /// The links that start or end at `start_id`; some link does.
    pub fn filter_by_start_id(&self, start_id: &usize) -> (links: Vec<BidirectionalLink>)
        requires
            self.wf(),
            touching(self.links_view(), *start_id).len() > 0,
        ensures
            links@ == touching(self.links_view(), *start_id),
    {
        let found = match self.link_map_start_id.get(start_id) {
            Some(v) => v,
            None => {
                assert(false);
                return Vec::new();
            },
        };
        let mut links: Vec<BidirectionalLink> = Vec::new();
        let mut k: usize = 0;
        while k < found.len()
            invariant
                k <= found@.len(),
                links@ == found@.take(k as int),
            decreases found.len() - k,
        {
            links.push(found[k]);
            k = k + 1;
            assert(links@ =~= found@.take(k as int));
        }
        assert(found@.take(found@.len() as int) =~= found@);
        links
    }

    /// The nodes one link away from `from`, one for each link at `from`, in
    /// the order of the links; some link is at `from`.
    pub fn neighbors(&self, from: usize) -> (v: Vec<usize>)
        requires
            self.wf(),
            touching(self.links_view(), from).len() > 0,
        ensures
            v@ == touching(self.links_view(), from).map_values(|l: BidirectionalLink| other_end(l.ends(), from)),
            forall|y: usize| #[trigger] v@.contains(y) <==> linked(self.links_view(), from, y),
    {
        let links = self.filter_by_start_id(&from);
        let ghost t = touching(self.links_view(), from);
        proof {
            lemma_touching(self.links_view(), from);
        }
        let mut v: Vec<usize> = Vec::new();
        let mut k: usize = 0;
        while k < links.len()
            invariant
                k <= links@.len(),
                links@ == t,
                t == touching(self.links_view(), from),
                forall|l: BidirectionalLink| #[trigger] t.contains(l) ==> (l.ends().0 == from || l.ends().1 == from),
                v@ == t.take(k as int).map_values(|l: BidirectionalLink| other_end(l.ends(), from)),
            decreases links.len() - k,
        {
            let link = links[k];
            assert(t.contains(t[k as int]));
            v.push(link.to(from));
            proof {
                assert(t.take(k + 1) =~= t.take(k as int).push(link));
                assert(v@ =~= t.take(k + 1).map_values(|l: BidirectionalLink| other_end(l.ends(), from)));
            }
            k = k + 1;
        }
        proof {
            assert(t.take(t.len() as int) =~= t);
            let ls = self.links_view();
            assert forall|y: usize| #[trigger] v@.contains(y) <==> linked(ls, from, y) by {
                if v@.contains(y) {
                    let w = choose|w: int| 0 <= w < v@.len() && v@[w] == y;
                    let l = t[w];
                    assert(t.contains(l));
                    assert(ls.contains(l));
                    let i = choose|i: int| 0 <= i < ls.len() && ls[i] == l;
                    assert(ls[i].ends().0 != ls[i].ends().1);
                    assert(joins(ls[i].ends(), from, y));
                }
                if linked(ls, from, y) {
                    let i = choose|i: int| 0 <= i < ls.len() && joins(#[trigger] ls[i].ends(), from, y);
                    assert(ls.contains(ls[i]));
                    assert(t.contains(ls[i]));
                    let w = choose|w: int| 0 <= w < t.len() && t[w] == ls[i];
                    assert(ls[i].ends().0 != ls[i].ends().1);
                    assert(v@[w] == y);
                }
            }
        }
        v
    }
}

/// A node linked to another has a link at it.
pub proof fn lemma_linked_touching(links: Seq<BidirectionalLink>, a: usize, b: usize)
    requires
        linked(links, a, b),
    ensures
        touching(links, b).len() > 0,
        touching(links, a).len() > 0,
{
    lemma_touching(links, a);
    lemma_touching(links, b);
    let i = choose|i: int| 0 <= i < links.len() && joins(#[trigger] links[i].ends(), a, b);
    assert(links.contains(links[i]));
    assert(touching(links, b).contains(links[i]));
    assert(touching(links, a).contains(links[i]));
}

} // verus!
