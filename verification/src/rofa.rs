//! The route optimisation and flow assignment problem: a network, traffic
//! demands between its nodes and the capacity types its links can be given;
//! and its candidate solutions, which route each demand and give each link a
//! capacity type.
//! Node numbers are gapless from 0: node `i` has number `i`.

use rand::rngs::StdRng;
use vstd::prelude::*;

use crate::capacity::{f32_half, has_capacity_above, two_point_child, CapacityPlan, CapacityType, CapacityTypes};
use crate::network::{
    component, connected, is_walk, joins, lemma_coherent_connected, links_within, linked,
    BidirectionalDemand, BidirectionalLink, Network, Node,
};
use crate::routing::{crossover_child, is_detour, is_route, no_shorter_walk, routes_demands, RoutingPlan};
use crate::settings::ProblemSettings;

verus! {

/// Node `i` has number `i`.
pub open spec fn numbered(nodes: Seq<Node>) -> bool {
    forall|i: int| 0 <= i < nodes.len() ==> (#[trigger] nodes[i]).id_view() == i
}

/// Every demand is between two distinct node numbers below `n`.
pub open spec fn demands_within(demands: Seq<BidirectionalDemand>, n: nat) -> bool {
    forall|i: int| 0 <= i < demands.len() ==> {
        let d = (#[trigger] demands[i]).nodes_view();
        d.0 < n && d.1 < n && d.0 != d.1
    }
}

/// The traffic of all demands together.
pub open spec fn total_traffic(demands: Seq<BidirectionalDemand>) -> nat
    decreases demands.len(),
{
    if demands.len() == 0 {
        0
    } else {
        total_traffic(demands.drop_last()) + demands.last().traffic_view()
    }
}

/// How many nodes a route can have: a detour through one node is made of two
/// routes that meet no node twice, and such a route meets at most the two
/// ends of each link and its first node.
pub open spec fn route_len_bound(links: Seq<BidirectionalLink>) -> nat {
    4 * links.len() + 2
}

/// How often the route passes the link between the ends `ends`, in either
/// direction.
pub open spec fn pair_count(route: Seq<usize>, ends: (usize, usize)) -> nat
    decreases route.len(),
{
    if route.len() < 2 {
        0
    } else {
        pair_count(route.drop_last(), ends) + if joins(ends, route[route.len() - 2], route.last()) {
            1nat
        } else {
            0nat
        }
    }
}

/// A route passes a link as often whichever way its ends are listed: a link
/// is bidirectional.
pub proof fn lemma_pair_count_either_order(route: Seq<usize>, ends: (usize, usize))
    ensures
        pair_count(route, (ends.1, ends.0)) == pair_count(route, ends),
    decreases route.len(),
{
    if route.len() >= 2 {
        lemma_pair_count_either_order(route.drop_last(), ends);
    }
}

/// Putting a node before a route adds one passage of the link when the new
/// step, from that node to the route's first one, runs along it.
proof fn lemma_pair_count_prepend(x: usize, route: Seq<usize>, ends: (usize, usize))
    ensures
        pair_count(seq![x] + route, ends) == pair_count(route, ends) + if route.len() >= 1 && joins(ends, x, route[0]) {
            1nat
        } else {
            0nat
        },
    decreases route.len(),
{
    let whole = seq![x] + route;
    let step: nat = if route.len() >= 1 && joins(ends, x, route[0]) {
        1nat
    } else {
        0nat
    };
    if route.len() >= 2 {
        let front = route.drop_last();
        lemma_pair_count_prepend(x, front, ends);
        assert(whole.drop_last() =~= seq![x] + front);
        assert(whole[whole.len() - 2] == route[route.len() - 2]);
        assert(whole.last() == route.last());
        assert(front[0] == route[0]);
        let last_step: nat = if joins(ends, route[route.len() - 2], route.last()) {
            1nat
        } else {
            0nat
        };
        assert(pair_count(route, ends) == pair_count(front, ends) + last_step);
        assert(pair_count(whole, ends) == pair_count(seq![x] + front, ends) + last_step);
    } else if route.len() == 1 {
        assert(whole.drop_last() =~= seq![x]);
        assert(whole[0] == x && whole[1] == route[0]);
        assert(pair_count(seq![x], ends) == 0);
        assert(pair_count(route, ends) == 0);
        assert(pair_count(whole, ends) == pair_count(whole.drop_last(), ends) + step);
    } else {
        assert(whole =~= seq![x]);
        assert(pair_count(route, ends) == 0);
    }
}

/// A route of one step passes a link once when the step runs along it, in
/// either direction, and not at all otherwise; shorter routes pass none.
pub proof fn lemma_pair_count_single_step(x: usize, y: usize, ends: (usize, usize))
    ensures
        pair_count(seq![x, y], ends) == if (x == ends.0 && y == ends.1) || (x == ends.1 && y == ends.0) {
            1nat
        } else {
            0nat
        },
        pair_count(seq![x], ends) == 0,
        pair_count(Seq::<usize>::empty(), ends) == 0,
{
    let two = seq![x, y];
    assert(two.drop_last() =~= seq![x]);
    assert(two[two.len() - 2] == x && two.last() == y);
    assert(pair_count(seq![x], ends) == 0);
    assert(pair_count(two, ends) == pair_count(two.drop_last(), ends) + if joins(ends, x, y) {
        1nat
    } else {
        0nat
    });
}

/// Joining two routes adds up their passages, and one more where the step
/// from the end of the first to the start of the second runs along the link.
pub proof fn lemma_pair_count_joined(a: Seq<usize>, b: Seq<usize>, ends: (usize, usize))
    ensures
        pair_count(a + b, ends) == pair_count(a, ends) + pair_count(b, ends) + if a.len() >= 1 && b.len() >= 1 && joins(
            ends,
            a.last(),
            b[0],
        ) {
            1nat
        } else {
            0nat
        },
    decreases b.len(),
{
    if b.len() == 0 {
        assert(a + b =~= a);
    } else if b.len() == 1 {
        assert((a + b).drop_last() =~= a);
        assert(pair_count(b, ends) == 0);
        if a.len() >= 1 {
            assert((a + b)[(a + b).len() - 2] == a.last());
            assert((a + b).last() == b[0]);
        } else {
            assert(a + b =~= b);
        }
    } else {
        let front = b.drop_last();
        lemma_pair_count_joined(a, front, ends);
        assert((a + b).drop_last() =~= a + front);
        assert((a + b)[(a + b).len() - 2] == b[b.len() - 2]);
        assert((a + b).last() == b.last());
        assert(front[0] == b[0]);
    }
}

/// A route walked backwards passes every link as often as the route does.
pub proof fn lemma_pair_count_reversed(route: Seq<usize>, ends: (usize, usize))
    ensures
        pair_count(route.reverse(), ends) == pair_count(route, ends),
    decreases route.len(),
{
    if route.len() >= 1 {
        let front = route.drop_last();
        lemma_pair_count_reversed(front, ends);
        assert(route.reverse() =~= seq![route.last()] + front.reverse());
        lemma_pair_count_prepend(route.last(), front.reverse(), ends);
        if front.len() >= 1 {
            assert(front.reverse()[0] == front.last());
            assert(front.last() == route[route.len() - 2]);
        }
    }
}

/// The traffic that the routes put on the link between the ends `ends`: each
/// demand's traffic, once for each time its route passes the link.
pub open spec fn link_load(demands: Seq<BidirectionalDemand>, routes: Seq<Seq<usize>>, ends: (usize, usize)) -> nat
    decreases demands.len(),
{
    if demands.len() == 0 {
        0
    } else {
        let k = demands.len() - 1;
        link_load(demands.drop_last(), routes, ends) + demands[k].traffic_view() * pair_count(routes[k], ends)
    }
}

/// The demands that have a route, as `zip` pairs them: the first demands,
/// as many as there are routes.
pub open spec fn zipped_demands(demands: Seq<BidirectionalDemand>, routes: Seq<Seq<usize>>) -> Seq<BidirectionalDemand> {
    if routes.len() < demands.len() {
        demands.take(routes.len() as int)
    } else {
        demands
    }
}

/// One demand loads a link with its traffic once for each passage of its
/// route.
pub proof fn lemma_link_load_single_demand(demand: BidirectionalDemand, route: Seq<usize>, ends: (usize, usize))
    ensures
        link_load(seq![demand], seq![route], ends) == demand.traffic_view() * pair_count(route, ends),
{
    let ds = seq![demand];
    assert(ds.drop_last() =~= Seq::<BidirectionalDemand>::empty());
    assert(link_load(Seq::<BidirectionalDemand>::empty(), seq![route], ends) == 0);
    assert(seq![route][0] == route);
    assert(link_load(ds, seq![route], ends) == link_load(ds.drop_last(), seq![route], ends) + ds[0].traffic_view() * pair_count(
        seq![route][0],
        ends,
    ));
}

/// The loads of two lists of demands, each with its own routes, add up.
pub proof fn lemma_link_load_joined(
    d1: Seq<BidirectionalDemand>,
    r1: Seq<Seq<usize>>,
    d2: Seq<BidirectionalDemand>,
    r2: Seq<Seq<usize>>,
    ends: (usize, usize),
)
    requires
        r1.len() == d1.len(),
        r2.len() == d2.len(),
    ensures
        link_load(d1 + d2, r1 + r2, ends) == link_load(d1, r1, ends) + link_load(d2, r2, ends),
    decreases d2.len(),
{
    lemma_link_load_prefix_routes(d1, r1, r2, ends);
    if d2.len() == 0 {
        assert(d1 + d2 =~= d1);
    } else {
        let k = d2.len() - 1;
        lemma_link_load_joined(d1, r1, d2.drop_last(), r2.drop_last(), ends);
        lemma_link_load_prefix_routes(d2.drop_last(), r2.drop_last(), seq![r2[k]], ends);
        assert(r2.drop_last() + seq![r2[k]] =~= r2);
        lemma_link_load_prefix_routes(d1 + d2.drop_last(), r1 + r2.drop_last(), seq![r2[k]], ends);
        assert(r1 + r2.drop_last() + seq![r2[k]] =~= r1 + r2);
        assert((d1 + d2).drop_last() =~= d1 + d2.drop_last());
        assert((d1 + d2)[d1.len() + k] == d2[k]);
        assert((r1 + r2)[d1.len() + k] == r2[k]);
    }
}

/// Routes after those of the demands change nothing.
proof fn lemma_link_load_prefix_routes(d: Seq<BidirectionalDemand>, r: Seq<Seq<usize>>, more: Seq<Seq<usize>>, ends: (usize, usize))
    requires
        r.len() == d.len(),
    ensures
        link_load(d, r + more, ends) == link_load(d, r, ends),
    decreases d.len(),
{
    if d.len() > 0 {
        let k = d.len() - 1;
        lemma_link_load_prefix_routes(d.drop_last(), r.drop_last(), seq![r[k]] + more, ends);
        lemma_link_load_prefix_routes(d.drop_last(), r.drop_last(), seq![r[k]], ends);
        assert(r.drop_last() + (seq![r[k]] + more) =~= r + more);
        assert(r.drop_last() + seq![r[k]] =~= r);
        assert((r + more)[k] == r[k]);
    }
}

/// Every route walked backwards puts the same load on every link: the
/// loads are blind to the direction in which the routes pass the links.
pub proof fn lemma_link_load_reversed_routes(demands: Seq<BidirectionalDemand>, routes: Seq<Seq<usize>>, ends: (usize, usize))
    requires
        routes.len() >= demands.len(),
    ensures
        link_load(demands, routes.map_values(|r: Seq<usize>| r.reverse()), ends) == link_load(demands, routes, ends),
        link_load(demands, routes, (ends.1, ends.0)) == link_load(demands, routes, ends),
    decreases demands.len(),
{
    if demands.len() > 0 {
        let k = demands.len() - 1;
        lemma_link_load_reversed_routes(demands.drop_last(), routes, ends);
        lemma_pair_count_reversed(routes[k], ends);
        assert(routes.map_values(|r: Seq<usize>| r.reverse())[k] == routes[k].reverse());
        lemma_pair_count_either_order(routes[k], ends);
    }
}

/// The loads of all links, in the order of the links.
pub open spec fn link_loads(links: Seq<BidirectionalLink>, demands: Seq<BidirectionalDemand>, routes: Seq<Seq<usize>>) -> Seq<nat> {
    Seq::new(links.len(), |j: int| link_load(demands, routes, links[j].ends()))
}

/// A route passes links no more often than it has steps.
pub proof fn lemma_pair_count_bound(route: Seq<usize>, ends: (usize, usize))
    ensures
        pair_count(route, ends) <= route.len(),
    decreases route.len(),
{
    if route.len() >= 2 {
        lemma_pair_count_bound(route.drop_last(), ends);
    }
}

/// A prefix of a route passes a link no more often than the route.
pub proof fn lemma_pair_count_prefix(route: Seq<usize>, ends: (usize, usize), k: int)
    requires
        0 <= k <= route.len(),
    ensures
        pair_count(route.take(k), ends) <= pair_count(route, ends),
    decreases route.len() - k,
{
    if k < route.len() {
        lemma_pair_count_prefix(route, ends, k + 1);
        let t = route.take(k + 1);
        assert(t.drop_last() =~= route.take(k));
    } else {
        assert(route.take(k) =~= route);
    }
}

/// The load of a link on the routes of the first demands is no more than on
/// those of all of them.
pub proof fn lemma_link_load_prefix(demands: Seq<BidirectionalDemand>, routes: Seq<Seq<usize>>, ends: (usize, usize), k: int)
    requires
        0 <= k <= demands.len(),
    ensures
        link_load(demands.take(k), routes, ends) <= link_load(demands, routes, ends),
    decreases demands.len() - k,
{
    if k < demands.len() {
        lemma_link_load_prefix(demands, routes, ends, k + 1);
        assert(demands.take(k + 1).drop_last() =~= demands.take(k));
    } else {
        assert(demands.take(k) =~= demands);
    }
}

/// Where no route has more than `m` nodes, no link carries more than the
/// total traffic `m` times over.
pub proof fn lemma_link_load_bound(demands: Seq<BidirectionalDemand>, routes: Seq<Seq<usize>>, ends: (usize, usize), m: nat)
    requires
        routes.len() >= demands.len(),
        forall|i: int| 0 <= i < demands.len() ==> (#[trigger] routes[i]).len() <= m,
    ensures
        link_load(demands, routes, ends) <= total_traffic(demands) * m,
    decreases demands.len(),
{
    if demands.len() > 0 {
        let k = demands.len() - 1;
        lemma_link_load_bound(demands.drop_last(), routes, ends, m);
        lemma_pair_count_bound(routes[k], ends);
        let t = demands[k].traffic_view();
        let c = pair_count(routes[k], ends);
        assert(t * c <= t * m) by (nonlinear_arith)
            requires
                c <= m,
        ;
        assert(total_traffic(demands) * m == total_traffic(demands.drop_last()) * m + t * m) by (nonlinear_arith)
            requires
                total_traffic(demands) == total_traffic(demands.drop_last()) + t,
        ;
    }
}

/// An instance of the problem.
#[derive(Debug, Clone)]
pub struct Rofa {
    network: Network,
    demands: Vec<BidirectionalDemand>,
    capacity_types: CapacityTypes,
    problem_settings: ProblemSettings,
}

/// The parts make an instance: the nodes are numbered gaplessly from 0, the
/// links join only those numbers, every node can be reached from node 0, the
/// demands are between distinct nodes, there is a capacity type, and the
/// loads a plan can put on a link fit in `usize`.
pub open spec fn valid_instance(network: Network, demands: Seq<BidirectionalDemand>, capacity_types: Seq<CapacityType>) -> bool {
    let n = network.nodes_view().len();
    let links = network.links_view();
    &&& 0 < n
    &&& numbered(network.nodes_view())
    &&& links_within(links, n)
    &&& component(links, 0).len() == n
    &&& demands_within(demands, n)
    &&& capacity_types.len() > 0
    &&& total_traffic(demands) * route_len_bound(links) <= usize::MAX
}

impl Rofa {
    /// The network.
    pub closed spec fn network_view(&self) -> Network {
        self.network
    }

    /// The demands, in order.
    pub closed spec fn demands_view(&self) -> Seq<BidirectionalDemand> {
        self.demands@
    }

    /// The capacity types links can be given.
    pub closed spec fn capacity_types_view(&self) -> Seq<CapacityType> {
        self.capacity_types.types_view()
    }

    /// The settings the instance was generated from.
    pub closed spec fn settings_view(&self) -> ProblemSettings {
        self.problem_settings
    }

    /// How many nodes a route of a plan may have.
    pub open spec fn max_route_len(&self) -> nat {
        route_len_bound(self.network_view().links_view())
    }

    /// The instance is well formed, and every two nodes can be reached from
    /// each other.
    pub closed spec fn wf(&self) -> bool {
        let n = self.network.nodes_view().len();
        &&& self.network.wf()
        &&& valid_instance(self.network, self.demands@, self.capacity_types.types_view())
        &&& connected(self.network.links_view(), n)
        &&& n <= usize::MAX
    }

    /// What a well formed instance offers its plans.
    pub proof fn lemma_wf_facts(&self)
        requires
            self.wf(),
        ensures
            self.network_view().wf(),
            valid_instance(self.network_view(), self.demands_view(), self.capacity_types_view()),
            connected(self.network_view().links_view(), self.network_view().nodes_view().len()),
    {
    }

    /// The instance of the given parts, if they make one (see
    /// `valid_instance`); `None` where they do not.
    #[verifier::loop_isolation(false)]
    #[verifier::spinoff_prover]
    pub fn new(network: Network, demands: Vec<BidirectionalDemand>, capacity_types: CapacityTypes, problem_settings: ProblemSettings) -> (r: Option<Self>)
        requires
            network.wf(),
        ensures
            r is Some <==> valid_instance(network, demands@, capacity_types.types_view()),
            r matches Some(p) ==> p.wf() && p.network_view() == network && p.demands_view() == demands@
                && p.capacity_types_view() == capacity_types.types_view() && p.settings_view() == problem_settings,
    {
        let nodes = network.nodes();
        let links = network.links();
        let n = nodes.len();
        if n == 0 {
            return None;
        }
        let mut j: usize = 0;
        while j < n
            invariant
                n == nodes@.len(),
                j <= n,
                forall|i: int| 0 <= i < j ==> (#[trigger] nodes@[i]).id_view() == i,
            decreases n - j,
        {
            if nodes[j].id() != j {
                assert(!numbered(nodes@));
                return None;
            }
            j = j + 1;
        }
        let mut j: usize = 0;
        while j < links.len()
            invariant
                j <= links@.len(),
                forall|i: int| 0 <= i < j ==> (#[trigger] links@[i].ends()).0 < n && links@[i].ends().1 < n,
            decreases links.len() - j,
        {
            let (a, b) = links[j].ends_pair();
            if a >= n || b >= n {
                assert(!links_within(links@, n as nat));
                return None;
            }
            j = j + 1;
        }
        proof {
            network.lemma_wf_links();
        }
        if !Network::coherent(nodes, links) {
            return None;
        }
        let mut total: usize = 0;
        let mut j: usize = 0;
        while j < demands.len()
            invariant
                j <= demands@.len(),
                total == total_traffic(demands@.take(j as int)),
                forall|i: int| 0 <= i < j ==> {
                    let d = (#[trigger] demands@[i]).nodes_view();
                    d.0 < n && d.1 < n && d.0 != d.1
                },
            decreases demands.len() - j,
        {
            let (a, b) = demands[j].demand_nodes();
            if a >= n || b >= n || a == b {
                assert(!demands_within(demands@, n as nat));
                return None;
            }
            proof {
                assert(demands@.take(j + 1).drop_last() =~= demands@.take(j as int));
            }
            match total.checked_add(demands[j].required_traffic()) {
                Some(t) => {
                    total = t;
                },
                None => {
                    proof {
                        lemma_total_traffic_prefix(demands@, j + 1);
                        assert(total_traffic(demands@) * route_len_bound(links@) >= total_traffic(demands@)) by (nonlinear_arith)
                            requires
                                route_len_bound(links@) >= 1,
                        ;
                    }
                    return None;
                },
            }
            j = j + 1;
        }
        assert(demands@.take(demands@.len() as int) =~= demands@);
        if capacity_types.capacity_types().len() == 0 {
            return None;
        }
        let bound = match links.len().checked_mul(4) {
            Some(x) => x.checked_add(2),
            None => None,
        };
        let fits = match bound {
            Some(m) => total.checked_mul(m).is_some(),
            None => {
                proof {
                    assert(total_traffic(demands@) * route_len_bound(links@) >= route_len_bound(links@) || total_traffic(demands@) == 0) by (nonlinear_arith);
                }
                total == 0
            },
        };
        if !fits {
            return None;
        }
        proof {
            lemma_coherent_connected(links@, n as nat);
        }
        Some(Rofa { network, demands, capacity_types, problem_settings })
    }

    /// The network.
    pub fn network(&self) -> (n: &Network)
        ensures
            *n == self.network_view(),
    {
        &self.network
    }

    /// The demands, in order.
    pub fn demands(&self) -> (d: &Vec<BidirectionalDemand>)
        ensures
            d@ == self.demands_view(),
    {
        &self.demands
    }

    /// The capacity types links can be given.
    pub fn capacity_types(&self) -> (t: &CapacityTypes)
        ensures
            t.types_view() == self.capacity_types_view(),
    {
        &self.capacity_types
    }

    /// The settings the instance was generated from.
    pub fn problem_settings(&self) -> (s: ProblemSettings)
        ensures
            s == self.settings_view(),
    {
        self.problem_settings
    }

    /// How many links the network has.
    pub fn number_links(&self) -> (n: usize)
        ensures
            n == self.network_view().links_view().len(),
    {
        self.network.links().len()
    }

    /// How many demands there are.
    pub fn number_demands(&self) -> (n: usize)
        ensures
            n == self.demands_view().len(),
    {
        self.demands.len()
    }

    /// A random plan for the instance (see `RoutingAndCapacityPlan::random`).
    pub fn random_individual(&self, id: usize) -> (p: RoutingAndCapacityPlan)
        requires
            self.wf(),
        ensures
            p.fits(self),
            p.id_view() == id,
            p.parent_ids_view() is None,
    {
        RoutingAndCapacityPlan::random(self, id)
    }
}

/// The traffic of the first demands is no more than that of all.
pub proof fn lemma_total_traffic_prefix(demands: Seq<BidirectionalDemand>, k: int)
    requires
        0 <= k <= demands.len(),
    ensures
        total_traffic(demands.take(k)) <= total_traffic(demands),
    decreases demands.len() - k,
{
    if k < demands.len() {
        lemma_total_traffic_prefix(demands, k + 1);
        assert(demands.take(k + 1).drop_last() =~= demands.take(k));
    } else {
        assert(demands.take(k) =~= demands);
    }
}

/// A candidate solution: a route for each demand and a capacity type for
/// each link, the loads those routes put on the links as last computed, and
/// its identity and that of its parents.
#[derive(Debug, Clone)]
pub struct RoutingAndCapacityPlan {
    routing_plan: RoutingPlan,
    capacity_plan: CapacityPlan,
    links_demands: Vec<usize>,
    id: usize,
    parent_ids: Option<(usize, usize)>,
}

impl RoutingAndCapacityPlan {
    /// The routes, one for each demand.
    pub closed spec fn routes_view(&self) -> Seq<Seq<usize>> {
        self.routing_plan.routes_view()
    }

    /// The capacity types, one for each link.
    pub closed spec fn capacities_view(&self) -> Seq<CapacityType> {
        self.capacity_plan.plan_view()
    }

    /// The loads of the links, as last computed.
    pub closed spec fn loads_view(&self) -> Seq<usize> {
        self.links_demands@
    }

    /// The identity.
    pub closed spec fn id_view(&self) -> usize {
        self.id
    }

    /// The identities of the parents, where the plan has some.
    pub closed spec fn parent_ids_view(&self) -> Option<(usize, usize)> {
        self.parent_ids
    }

    /// The plan fits the instance: it routes each demand along a walk between
    /// its nodes, and has a capacity type and a load for each link.
    pub open spec fn fits(&self, problem: &Rofa) -> bool {
        let links = problem.network_view().links_view();
        &&& routes_demands(links, problem.demands_view(), self.routes_view(), problem.max_route_len())
        &&& self.capacities_view().len() == links.len()
        &&& self.loads_view().len() == links.len()
    }

    /// Routes of the instance's demands, as a plan that fits has them, load
    /// no link beyond `usize::MAX`, and every demand has one.
    proof fn lemma_routed_loads_fit(problem: &Rofa, rv: Seq<Seq<usize>>)
        requires
            problem.wf(),
            routes_demands(problem.network_view().links_view(), problem.demands_view(), rv, problem.max_route_len()),
        ensures
            zipped_demands(problem.demands_view(), rv) == problem.demands_view(),
            forall|j: int| 0 <= j < problem.network_view().links_view().len() ==> #[trigger] link_load(
                problem.demands_view(),
                rv,
                problem.network_view().links_view()[j].ends(),
            ) <= usize::MAX,
    {
        problem.lemma_wf_facts();
        let ds = problem.demands_view();
        assert forall|e: (usize, usize)| #[trigger] link_load(ds, rv, e) <= usize::MAX by {
            lemma_link_load_bound(ds, rv, e, problem.max_route_len());
        }
    }

    /// The loads that the plan's routes put on the links of the instance:
    /// each demand with a route (see `zipped_demands`) adds its traffic to
    /// each link its route passes, each time it passes it. Those routes are
    /// walks along links, and no load exceeds `usize::MAX`.
    pub fn calculate_links_demands(problem: &Rofa, routing_plan: &RoutingPlan) -> (loads: Vec<usize>)
        requires
            problem.wf(),
            forall|i: int| 0 <= i < zipped_demands(problem.demands_view(), routing_plan.routes_view()).len() ==> is_walk(
                problem.network_view().links_view(),
                #[trigger] routing_plan.routes_view()[i],
            ),
            forall|j: int| 0 <= j < problem.network_view().links_view().len() ==> #[trigger] link_load(
                zipped_demands(problem.demands_view(), routing_plan.routes_view()),
                routing_plan.routes_view(),
                problem.network_view().links_view()[j].ends(),
            ) <= usize::MAX,
        ensures
            loads@.len() == problem.network_view().links_view().len(),
            forall|j: int| 0 <= j < loads@.len() ==> #[trigger] loads@[j] == link_load(
                zipped_demands(problem.demands_view(), routing_plan.routes_view()),
                routing_plan.routes_view(),
                problem.network_view().links_view()[j].ends(),
            ),
    {
        let network = problem.network();
        let demands = problem.demands();
        let routes = routing_plan.routes();
        let ghost links = network.links_view();
        let ghost rv = routing_plan.routes_view();
        let ghost ds = zipped_demands(demands@, rv);
        let count = if routes.len() < demands.len() {
            routes.len()
        } else {
            demands.len()
        };
        let number_links = network.links().len();
        let mut links_demands: Vec<usize> = Vec::new();
        let mut j: usize = 0;
        while j < number_links
            invariant
                j <= number_links,
                links_demands@.len() == j,
                forall|i: int| 0 <= i < j ==> #[trigger] links_demands@[i] == 0,
            decreases number_links - j,
        {
            links_demands.push(0);
            j = j + 1;
        }
        proof {
            problem.lemma_wf_facts();
            network.lemma_wf_links();
            assert(rv.len() == routes@.len());
        }
        let mut d: usize = 0;
        while d < count
            invariant
                network.wf(),
                links == network.links_view(),
                number_links == links.len(),
                ds.len() == count,
                count <= demands@.len(),
                count <= rv.len(),
                forall|k: int| 0 <= k < count ==> #[trigger] ds[k] == demands@[k],
                rv == routes@.map_values(|v: Vec<usize>| v@),
                crate::network::unique_links(links),
                forall|k: int| 0 <= k < ds.len() ==> is_walk(links, #[trigger] rv[k]),
                forall|k: int| 0 <= k < number_links ==> #[trigger] link_load(ds, rv, links[k].ends()) <= usize::MAX,
                d <= ds.len(),
                links_demands@.len() == number_links,
                forall|i: int| 0 <= i < number_links ==> #[trigger] links_demands@[i] == link_load(ds.take(d as int), rv, links[i].ends()),
            decreases ds.len() - d,
        {
            proof {
                assert(ds[d as int] == demands@[d as int]);
            }
            let traffic = demands[d].required_traffic();
            let route = &routes[d];
            let ghost r = rv[d as int];
            proof {
                assert(route@ == r);
                assert(is_walk(links, r));
                assert(ds.take(d + 1).drop_last() =~= ds.take(d as int));
                assert forall|e: (usize, usize)| #[trigger] pair_count(r.take(1), e) == 0 by {}
            }
            let steps = route.len() - 1;
            let mut i: usize = 0;
            proof {
                assert forall|k: int| 0 <= k < number_links implies #[trigger] links_demands@[k] == link_load(ds.take(d as int), rv, links[k].ends())
                    + traffic * pair_count(r.take(i + 1), links[k].ends()) by {
                    assert(pair_count(r.take(1), links[k].ends()) == 0);
                    assert(traffic * 0 == 0);
                }
            }
            while i < steps
                invariant
                    steps + 1 == r.len(),
                    network.wf(),
                    links == network.links_view(),
                    number_links == links.len(),
                    route@ == r,
                    r.len() >= 1,
                    is_walk(links, r),
                    traffic == ds[d as int].traffic_view(),
                    0 <= d < ds.len(),
                    ds.len() <= rv.len(),
                    crate::network::unique_links(links),
                    forall|k: int| 0 <= k < number_links ==> #[trigger] link_load(ds, rv, links[k].ends()) <= usize::MAX,
                    rv[d as int] == r,
                    i + 1 <= r.len(),
                    links_demands@.len() == number_links,
                    forall|k: int| 0 <= k < number_links ==> #[trigger] links_demands@[k] == link_load(ds.take(d as int), rv, links[k].ends())
                        + traffic * pair_count(r.take(i + 1), links[k].ends()),
                decreases r.len() - i,
            {
                let a = route[i];
                let b = route[i + 1];
                proof {
                    assert(linked(links, r[i as int], r[i + 1]));
                }
                let link_index = network.link_index_by_start_and_end_id((a, b));
                proof {
                    let e = links[link_index as int].ends();
                    let t2 = r.take(i + 2);
                    assert(t2.drop_last() =~= r.take(i + 1));
                    assert(t2[t2.len() - 2] == a && t2.last() == b);
                    lemma_pair_count_prefix(r, e, i + 2);
                    lemma_link_load_prefix(ds, rv, e, d + 1);
                    assert(ds.take(d + 1).drop_last() =~= ds.take(d as int));
                    assert(ds.take(d + 1)[d as int] == ds[d as int]);
                    let pc = pair_count(t2, e);
                    let pcr = pair_count(r, e);
                    assert(traffic * pc <= traffic * pcr) by (nonlinear_arith)
                        requires
                            pc <= pcr,
                    ;
                    assert(link_load(ds.take(d + 1), rv, e) == link_load(ds.take(d as int), rv, e) + traffic * pcr);
                    assert(traffic * pc == traffic * pair_count(r.take(i + 1), e) + traffic) by (nonlinear_arith)
                        requires
                            pc == pair_count(r.take(i + 1), e) + 1,
                    ;
                }
                let current = links_demands[link_index];
                links_demands.set(link_index, current + traffic);
                proof {
                    let t2 = r.take(i + 2);
                    assert forall|k: int| 0 <= k < number_links implies #[trigger] links_demands@[k] == link_load(ds.take(d as int), rv, links[k].ends())
                        + traffic * pair_count(r.take(i + 2), links[k].ends()) by {
                        let e = links[k].ends();
                        if k == link_index {
                        } else {
                            if joins(e, a, b) {
                                let f = links[link_index as int].ends();
                                assert(joins(f, a, b));
                                assert(joins(e, f.0, f.1));
                            }
                            assert(pair_count(t2, e) == pair_count(r.take(i + 1), e));
                        }
                    }
                }
                i = i + 1;
            }
            proof {
                assert(r.take(r.len() as int) =~= r);
                assert forall|k: int| 0 <= k < number_links implies #[trigger] links_demands@[k] == link_load(ds.take(d + 1), rv, links[k].ends()) by {
                    let e = links[k].ends();
                    assert(ds.take(d + 1)[d as int] == ds[d as int]);
                }
            }
            d = d + 1;
        }
        assert(ds.take(ds.len() as int) =~= ds);
        links_demands
    }

    /// A plan for the instance: each demand routed by `any_route` (on a
    /// shortest route), each link given the largest capacity type, and the
    /// loads computed; it has identity `id` and no parents.
    pub fn random(problem: &Rofa, id: usize) -> (p: Self)
        requires
            problem.wf(),
        ensures
            p.fits(problem),
            forall|i: int| 0 <= i < problem.demands_view().len() ==> is_route(
                problem.network_view().links_view(),
                #[trigger] p.routes_view()[i],
                problem.demands_view()[i].nodes_view().0,
                problem.demands_view()[i].nodes_view().1,
            ) && no_shorter_walk(
                problem.network_view().links_view(),
                problem.demands_view()[i].nodes_view().0,
                problem.demands_view()[i].nodes_view().1,
                p.routes_view()[i].len(),
            ),
            exists|t: int| crate::capacity::is_first_largest(problem.capacity_types_view(), t) && forall|j: int| 0 <= j < p.capacities_view().len() ==> #[trigger] p.capacities_view()[j] == problem.capacity_types_view()[t],
            p.loads_view().len() == link_loads(problem.network_view().links_view(), problem.demands_view(), p.routes_view()).len(),
            forall|j: int| 0 <= j < p.loads_view().len() ==> p.loads_view()[j] == #[trigger] link_loads(problem.network_view().links_view(), problem.demands_view(), p.routes_view())[j],
            p.id_view() == id,
            p.parent_ids_view() is None,
    {
        proof {
            problem.lemma_wf_facts();
        }
        let network = problem.network();
        let routing_plan = RoutingPlan::random_from_demands(network, problem.demands());
        let capacity_plan = CapacityPlan::with_highest_capacities(problem.capacity_types(), network.links().len());
        proof {
            Self::lemma_routed_loads_fit(problem, routing_plan.routes_view());
        }
        let links_demands = Self::calculate_links_demands(problem, &routing_plan);
        RoutingAndCapacityPlan { routing_plan, capacity_plan, links_demands, id, parent_ids: None }
    }

    /// The loads of the links, as last computed.
    pub fn get_links_demands(&self) -> (v: Vec<usize>)
        ensures
            v@ == self.loads_view(),
    {
        let v = self.links_demands.clone();
        assert(v@ =~= self.links_demands@);
        v
    }

    /// The child of two plans: the crossover of their routing plans and that
    /// of their capacity plans, with the loads of its routes computed, the
    /// identity `id`, and the two plans as its parents. There are at least
    /// two demands and two links (and fewer links than half the address
    /// space, as the capacity plans' crossover asks).
    pub fn crossover(rng: &mut StdRng, first: &Self, second: &Self, problem: &Rofa, id: usize) -> (child: Self)
        requires
            problem.wf(),
            first.fits(problem),
            second.fits(problem),
            problem.demands_view().len() >= 2,
            2 <= problem.network_view().links_view().len() <= usize::MAX / 2,
        ensures
            child.fits(problem),
            exists|point: int| 0 <= point < first.routes_view().len() / 2 && #[trigger] crossover_child(
                first.routes_view(),
                second.routes_view(),
                point,
                (first.routes_view().len() / 2) as int,
                child.routes_view(),
            ),
            exists|point: int| 0 <= point < f32_half(first.capacities_view().len()) && #[trigger] two_point_child(
                first.capacities_view(),
                second.capacities_view(),
                point,
                f32_half(first.capacities_view().len()) as int,
                child.capacities_view(),
            ),
            forall|j: int| 0 <= j < child.loads_view().len() ==> child.loads_view()[j] == #[trigger] link_loads(problem.network_view().links_view(), problem.demands_view(), child.routes_view())[j],
            child.id_view() == id,
            child.parent_ids_view() == Some((first.id_view(), second.id_view())),
    {
        let routing_plan = RoutingPlan::crossover(rng, &first.routing_plan, &second.routing_plan);
        let capacity_plan = CapacityPlan::crossover(rng, &first.capacity_plan, &second.capacity_plan);
        proof {
            let links = problem.network_view().links_view();
            let half = (first.routes_view().len() / 2) as int;
            let point = choose|point: int| 0 <= point < first.routes_view().len() / 2 && #[trigger] crossover_child(
                first.routes_view(),
                second.routes_view(),
                point,
                half,
                routing_plan.routes_view(),
            );
            let rv = routing_plan.routes_view();
            assert forall|i: int| 0 <= i < rv.len() implies {
                &&& is_walk(links, #[trigger] rv[i])
                &&& rv[i][0] == problem.demands_view()[i].nodes_view().0
                &&& rv[i].last() == problem.demands_view()[i].nodes_view().1
                &&& rv[i].len() <= problem.max_route_len()
            } by {
                if i < point || i >= point + half {
                    assert(rv[i] == first.routes_view()[i]);
                } else {
                    assert(rv[i] == second.routes_view()[i]);
                }
            }
        }
        proof {
            Self::lemma_routed_loads_fit(problem, routing_plan.routes_view());
        }
        let links_demands = Self::calculate_links_demands(problem, &routing_plan);
        let child = RoutingAndCapacityPlan {
            routing_plan,
            capacity_plan,
            links_demands,
            id,
            parent_ids: Some((first.id, second.id)),
        };
        proof {
            let half = (first.routes_view().len() / 2) as int;
            let point = choose|point: int| 0 <= point < first.routes_view().len() / 2 && #[trigger] crossover_child(
                first.routing_plan.routes_view(),
                second.routing_plan.routes_view(),
                point,
                half,
                child.routing_plan.routes_view(),
            );
            assert(crossover_child(first.routes_view(), second.routes_view(), point, half, child.routes_view()));
            let chalf = f32_half(first.capacities_view().len()) as int;
            let cpoint = choose|point: int| 0 <= point < f32_half(first.capacities_view().len()) && #[trigger] two_point_child(
                first.capacity_plan.plan_view(),
                second.capacity_plan.plan_view(),
                point,
                chalf,
                child.capacity_plan.plan_view(),
            );
            assert(two_point_child(first.capacities_view(), second.capacities_view(), cpoint, chalf, child.capacities_view()));
        }
        child
    }

    /// Mutates the routing plan (see `RoutingPlan::mutate`), then the
    /// capacity plan against the loads as last computed, which the routing
    /// mutation leaves as they were (see `CapacityPlan::mutate`). There is
    /// some demand and some link, the network has at least three nodes, and
    /// for each link some capacity type exceeds its load.
    pub fn mutate(&mut self, rng: &mut StdRng, problem: &Rofa)
        requires
            problem.wf(),
            old(self).fits(problem),
            problem.demands_view().len() > 0,
            problem.network_view().links_view().len() > 0,
            problem.network_view().nodes_view().len() >= 3,
            forall|j: int| 0 <= j < old(self).loads_view().len() ==> has_capacity_above(problem.capacity_types_view(), #[trigger] old(self).loads_view()[j]),
        ensures
            final(self).fits(problem),
            final(self).loads_view() == old(self).loads_view(),
            final(self).id_view() == old(self).id_view(),
            final(self).parent_ids_view() == old(self).parent_ids_view(),
            exists|k: int, m: usize, r1: Seq<usize>, r2: Seq<usize>|
                0 <= k < old(self).routes_view().len() && #[trigger] is_detour(
                    problem.network_view().links_view(),
                    problem.network_view().nodes_view().len(),
                    old(self).routes_view()[k],
                    m,
                    r1,
                    r2,
                ) && final(self).routes_view() == old(self).routes_view().update(k, r1.drop_last() + r2),
            exists|j: int| 0 <= j < old(self).capacities_view().len() && problem.capacity_types_view().contains(final(self).capacities_view()[j])
                && final(self).capacities_view()[j].exceeds_spec(old(self).loads_view()[j])
                && final(self).capacities_view() == old(self).capacities_view().update(j, final(self).capacities_view()[j]),
    {
        let ghost old_routes = self.routing_plan.routes_view();
        self.routing_plan.mutate(rng, problem);
        proof {
            let links = problem.network_view().links_view();
            let ll = links.len();
            let (k, m, r1, r2) = choose|k: int, m: usize, r1: Seq<usize>, r2: Seq<usize>|
                0 <= k < old_routes.len() && #[trigger] is_detour(links, problem.network_view().nodes_view().len(), old_routes[k], m, r1, r2)
                    && self.routing_plan.routes_view() == old_routes.update(k, r1.drop_last() + r2);
            let nr = r1.drop_last() + r2;
            assert(is_walk(links, nr)) by {
                assert forall|i: int| 0 <= i < nr.len() - 1 implies linked(links, #[trigger] nr[i], nr[i + 1]) by {
                    if i < r1.len() - 2 {
                        assert(nr[i] == r1[i] && nr[i + 1] == r1[i + 1]);
                    } else if i == r1.len() - 2 {
                        assert(nr[i] == r1[i] && nr[i + 1] == r2[0] && r1[i + 1] == r1.last());
                    } else {
                        let q = i - (r1.len() - 1);
                        assert(nr[i] == r2[q] && nr[i + 1] == r2[q + 1]);
                    }
                }
            }
            let rv = self.routing_plan.routes_view();
            assert forall|i: int| 0 <= i < rv.len() implies {
                &&& is_walk(links, #[trigger] rv[i])
                &&& rv[i][0] == problem.demands_view()[i].nodes_view().0
                &&& rv[i].last() == problem.demands_view()[i].nodes_view().1
                &&& rv[i].len() <= problem.max_route_len()
            } by {
                if i == k {
                    assert(rv[i] == nr);
                    assert(nr[0] == r1[0]);
                    assert(nr.last() == r2.last());
                } else {
                    assert(rv[i] == old_routes[i]);
                }
            }
        }
        let links_demands = self.get_links_demands();
        self.capacity_plan.mutate(rng, links_demands, problem);
    }

    /// The identity.
    pub fn id(&self) -> (id: usize)
        ensures
            id == self.id_view(),
    {
        self.id
    }

    /// The identities of the parents, where the plan has some.
    pub fn parents(&self) -> (p: Option<(usize, usize)>)
        ensures
            p == self.parent_ids_view(),
    {
        self.parent_ids
    }

    /// The identities of the parents; the plan has some.
    pub fn parent_ids(&self) -> (p: (usize, usize))
        requires
            self.parent_ids_view() is Some,
        ensures
            Some(p) == self.parent_ids_view(),
    {
        match self.parent_ids {
            Some(p) => p,
            None => {
                assert(false);
                (0, 0)
            },
        }
    }

    /// The routing plan.
    pub fn routing_plan(&self) -> (r: &RoutingPlan)
        ensures
            r.routes_view() == self.routes_view(),
    {
        &self.routing_plan
    }

    /// The capacity plan.
    pub fn capacity_plan(&self) -> (c: &CapacityPlan)
        ensures
            c.plan_view() == self.capacities_view(),
    {
        &self.capacity_plan
    }
}

} // verus!
