//! Routing plans: for each traffic demand, the route its traffic takes
//! through the network.

use rand::rngs::StdRng;
use std::collections::{HashMap, HashSet, VecDeque};
use vstd::prelude::*;

use crate::network::{
    ends_and, is_walk, lemma_linked_in_ends, lemma_linked_touching, linked, reachable, touching,
    BidirectionalDemand, BidirectionalLink, Network,
};
use crate::permutation::lemma_distinct_within;
use crate::random::{choose_below, choose_from, random_below};
use crate::rofa::Rofa;

verus! {

broadcast use vstd::std_specs::hash::group_hash_axioms;

/// A route from its first node to its last: a walk along links that meets no
/// node twice.
pub open spec fn is_route(links: Seq<BidirectionalLink>, route: Seq<usize>, from: usize, to: usize) -> bool {
    &&& is_walk(links, route)
    &&& route[0] == from
    &&& route.last() == to
    &&& route.no_duplicates()
}

/// If `b` can be reached from a different node `a`, some link is at `a`.
pub proof fn lemma_reachable_first_step(links: Seq<BidirectionalLink>, a: usize, b: usize)
    requires
        reachable(links, a, b),
        a != b,
    ensures
        touching(links, a).len() > 0,
{
    let path = choose|path: Seq<usize>| #[trigger] is_walk(links, path) && path[0] == a && path.last() == b;
    assert(path.len() >= 2);
    assert(linked(links, path[0], path[1]));
    lemma_linked_touching(links, path[0], path[1]);
}

/// No walk from `from` to `to` has fewer than `n` nodes.
pub open spec fn no_shorter_walk(links: Seq<BidirectionalLink>, from: usize, to: usize, n: nat) -> bool {
    forall|p: Seq<usize>| #[trigger] is_walk(links, p) && p[0] == from && p.last() == to ==> p.len() >= n
}

/// Along `order`, the distances `d` never decrease.
spec fn dist_sorted(order: Seq<usize>, d: Map<usize, nat>) -> bool {
    forall|i: int, j: int| 0 <= i <= j < order.len() ==> #[trigger] d[order[i]] <= #[trigger] d[order[j]]
}

/// From `head` on, the distances along `order` exceed that at `head` by at
/// most one.
spec fn dist_spread(order: Seq<usize>, d: Map<usize, nat>, head: int) -> bool {
    forall|j: int| head <= j < order.len() ==> #[trigger] d[order[j]] <= d[order[head]] + 1
}

/// The first position after `k` whose node is outside `s`, on a walk that
/// starts inside `s` and ends outside it.
proof fn lemma_first_outside(p: Seq<usize>, s: Set<usize>, k: int) -> (j: int)
    requires
        0 <= k < p.len(),
        s.contains(p[k]),
        !s.contains(p.last()),
    ensures
        k < j < p.len(),
        s.contains(p[j - 1]),
        !s.contains(p[j]),
    decreases p.len() - k,
{
    if !s.contains(p[k + 1]) {
        k + 1
    } else {
        lemma_first_outside(p, s, k + 1)
    }
}

/// A node outside a set `s` that holds `from`, whose members `x` are known to
/// need walks of at least `d[x] + 1` nodes, needs at least `h + 2` nodes when
/// every link that leaves `s` starts at a member at distance `h` or more.
proof fn lemma_frontier_bound(
    links: Seq<BidirectionalLink>,
    from: usize,
    s: Set<usize>,
    d: Map<usize, nat>,
    h: nat,
    y: usize,
)
    requires
        s.contains(from),
        !s.contains(y),
        forall|x: usize| #[trigger] s.contains(x) ==> d.dom().contains(x) && no_shorter_walk(links, from, x, (d[x] + 1) as nat),
        forall|w: usize, z: usize| s.contains(w) && #[trigger] linked(links, w, z) && !s.contains(z) ==> h <= d[w],
    ensures
        no_shorter_walk(links, from, y, h + 2),
{
    assert forall|p: Seq<usize>| #[trigger] is_walk(links, p) && p[0] == from && p.last() == y implies p.len() >= h + 2 by {
        let j = lemma_first_outside(p, s, 0);
        let w = p[j - 1];
        let q = p.subrange(0, j);
        assert forall|i: int| 0 <= i < q.len() - 1 implies linked(links, #[trigger] q[i], q[i + 1]) by {
            assert(q[i] == p[i]);
            assert(q[i + 1] == p[i + 1]);
        }
        assert(is_walk(links, q));
        assert(q[0] == from);
        assert(q.last() == w);
        assert(s.contains(w));
        assert(q.len() >= d[w] + 1);
        assert(linked(links, p[j - 1], p[j]));
        assert(h <= d[w]);
    }
}

/// A breadth-first search step: appending a newly found neighbour of the
/// node at `head` with a distance one greater keeps the distances sorted,
/// spread by at most one from `head` on, and each a lower bound on walks.
proof fn lemma_visit_next(
    links: Seq<BidirectionalLink>,
    from: usize,
    order: Seq<usize>,
    d: Map<usize, nat>,
    head: int,
    current: usize,
    neighbor: usize,
)
    requires
        0 <= head < order.len(),
        order[head] == current,
        forall|i: int| 0 <= i < order.len() ==> d.dom().contains(#[trigger] order[i]),
        !d.dom().contains(neighbor),
        dist_sorted(order, d),
        dist_spread(order, d, head),
        forall|x: usize| #[trigger] d.dom().contains(x) ==> no_shorter_walk(links, from, x, (d[x] + 1) as nat),
        no_shorter_walk(links, from, neighbor, d[current] + 2),
    ensures
        dist_sorted(order.push(neighbor), d.insert(neighbor, (d[current] + 1) as nat)),
        dist_spread(order.push(neighbor), d.insert(neighbor, (d[current] + 1) as nat), head),
        forall|x: usize| #[trigger] d.insert(neighbor, (d[current] + 1) as nat).dom().contains(x) ==> no_shorter_walk(
            links,
            from,
            x,
            (d.insert(neighbor, (d[current] + 1) as nat)[x] + 1) as nat,
        ),
{
    let n = order.len() as int;
    let o2 = order.push(neighbor);
    let d2 = d.insert(neighbor, (d[current] + 1) as nat);
    assert forall|k: int| 0 <= k < n implies #[trigger] d2[o2[k]] == d[order[k]] by {
        assert(o2[k] == order[k]);
        assert(d.dom().contains(order[k]));
    }
    assert(d2[o2[n]] == d[current] + 1);
    assert forall|i: int, k: int| 0 <= i <= k < o2.len() implies #[trigger] d2[o2[i]] <= #[trigger] d2[o2[k]] by {
        if k == n {
            if i == n {
            } else if i >= head {
                assert(d[order[i]] <= d[order[head]] + 1);
            } else {
                assert(d[order[i]] <= d[order[head]]);
            }
        } else {
            assert(d[order[i]] <= d[order[k]]);
        }
    }
    assert forall|k: int| head <= k < o2.len() implies #[trigger] d2[o2[k]] <= d2[o2[head]] + 1 by {
        if k < n {
            assert(d[order[k]] <= d[order[head]] + 1);
        }
    }
    assert forall|x: usize| #[trigger] d2.dom().contains(x) implies no_shorter_walk(links, from, x, (d2[x] + 1) as nat) by {
        if x != neighbor {
            assert(d.dom().contains(x));
        }
    }
}

/// For each demand, in order, the route its traffic takes.
#[derive(Debug, Clone)]
pub struct RoutingPlan {
    routes: Vec<Vec<usize>>,
}

impl RoutingPlan {
    /// Finds a route from `from` to `to` by a breadth-first search through
    /// the network; `to` can be reached from `from`. The route meets no node
    /// twice and is a shortest one: no walk from `from` to `to` has fewer
    /// nodes.
    pub fn any_route(network: &Network, from: usize, to: usize) -> (route: Vec<usize>)
        requires
            network.wf(),
            reachable(network.links_view(), from, to),
        ensures
            is_route(network.links_view(), route@, from, to),
            no_shorter_walk(network.links_view(), from, to, route@.len() as nat),
            route@.len() <= 2 * network.links_view().len() + 1,
    {
        let ghost l = network.links_view();
        let ghost u = ends_and(l, from);
        let mut queue: VecDeque<usize> = VecDeque::new();
        let mut visited: HashSet<usize> = HashSet::new();
        let mut path_sections: HashMap<usize, usize> = HashMap::new();
        queue.push_back(from);
        visited.insert(from);
        let ghost mut order: Seq<usize> = seq![from];
        let ghost mut pos: Map<usize, int> = map![from => 0int];
        let ghost mut head: int = 0;
        // Each visited node's distance from `from`, in links; nodes are
        // visited in order of distance.
        let ghost mut d: Map<usize, nat> = map![from => 0nat];
        proof {
            assert(u[0] == from);
            assert forall|p: Seq<usize>| #[trigger] is_walk(l, p) && p[0] == from && p.last() == from implies p.len() >= 1 by {}
            assert(d[order[0]] == 0);
            assert(queue@ =~= order.subrange(0, 1));
        }
        loop
            invariant_except_break
                queue@ == order.subrange(head, order.len() as int),
                forall|i: int, y: usize| 0 <= i < head && #[trigger] linked(l, order[i], y) ==> visited@.contains(y),
            invariant
                network.wf(),
                l == network.links_view(),
                u == ends_and(l, from),
                reachable(l, from, to),
                order.len() >= 1,
                order[0] == from,
                0 <= head <= order.len(),
                forall|x: usize| #[trigger] visited@.contains(x) <==> pos.dom().contains(x),
                forall|i: int| 0 <= i < order.len() ==> pos[#[trigger] order[i]] == i && visited@.contains(order[i]),
                forall|x: usize| #[trigger] pos.dom().contains(x) ==> 0 <= pos[x] < order.len() && order[pos[x]] == x,
                forall|i: int| 0 <= i < order.len() ==> u.contains(#[trigger] order[i]),
                forall|x: usize| #[trigger] path_sections@.contains_key(x) ==> {
                    let p = path_sections@[x];
                    &&& visited@.contains(x)
                    &&& visited@.contains(p)
                    &&& pos[p] < pos[x]
                    &&& linked(l, p, x)
                    &&& d[x] == d[p] + 1
                },
                forall|x: usize| #[trigger] visited@.contains(x) && x != from ==> path_sections@.contains_key(x),
                !path_sections@.contains_key(from),
                d.dom() == pos.dom(),
                d[from] == 0,
                dist_sorted(order, d),
                dist_spread(order, d, head),
                forall|x: usize| #[trigger] d.dom().contains(x) ==> no_shorter_walk(l, from, x, (d[x] + 1) as nat),
            ensures
                visited@.contains(to),
            decreases u.len() - head,
        {
            proof {
                assert forall|i: int, k: int| 0 <= i < order.len() && 0 <= k < order.len() && i != k implies order[i] != order[k] by {
                    assert(pos[order[i]] == i);
                    assert(pos[order[k]] == k);
                }
                assert(order.no_duplicates());
                lemma_distinct_within(order, u);
            }
            let popped = queue.pop_front();
            match popped {
                None => {
                    proof {
                        let s = visited@;
                        assert(head == order.len());
                        assert forall|x: usize, y: usize| #[trigger] s.contains(x) && linked(l, x, y) implies #[trigger] s.contains(y) by {
                            let i = pos[x];
                            assert(order[i] == x);
                            assert(linked(l, order[i], y));
                        }
                        assert(s.contains(order[0]));
                        crate::network::lemma_closed_holds_component(l, s, from, to);
                    }
                    break;
                },
                Some(current) => {
                    proof {
                        assert(current == order[head]);
                        assert(visited@.contains(order[head]));
                    }
                    if current == to {
                        break;
                    }
                    proof {
                        if current == from {
                            lemma_reachable_first_step(l, from, to);
                        } else {
                            assert(visited@.contains(current));
                            assert(path_sections@.contains_key(current));
                            lemma_linked_touching(l, path_sections@[current], current);
                        }
                    }
                    let neighbors = network.neighbors(current);
                    let ghost head0 = head;
                    let mut j: usize = 0;
                    while j < neighbors.len()
                        invariant
                            network.wf(),
                            l == network.links_view(),
                            u == ends_and(l, from),
                            current == order[head0],
                            0 <= head0 < order.len(),
                            j <= neighbors@.len(),
                            forall|y: usize| #[trigger] neighbors@.contains(y) <==> linked(l, current, y),
                            queue@ == order.subrange(head0 + 1, order.len() as int),
                            forall|i: int, y: usize| 0 <= i < head0 && #[trigger] linked(l, order[i], y) ==> visited@.contains(y),
                            forall|k: int| 0 <= k < j ==> visited@.contains(#[trigger] neighbors@[k]),
                            order.len() >= 1,
                            order[0] == from,
                            forall|x: usize| #[trigger] visited@.contains(x) <==> pos.dom().contains(x),
                            forall|i: int| 0 <= i < order.len() ==> pos[#[trigger] order[i]] == i && visited@.contains(order[i]),
                            forall|x: usize| #[trigger] pos.dom().contains(x) ==> 0 <= pos[x] < order.len() && order[pos[x]] == x,
                            forall|i: int| 0 <= i < order.len() ==> u.contains(#[trigger] order[i]),
                            forall|x: usize| #[trigger] path_sections@.contains_key(x) ==> {
                                let p = path_sections@[x];
                                &&& visited@.contains(x)
                                &&& visited@.contains(p)
                                &&& pos[p] < pos[x]
                                &&& linked(l, p, x)
                                &&& d[x] == d[p] + 1
                            },
                            forall|x: usize| #[trigger] visited@.contains(x) && x != from ==> path_sections@.contains_key(x),
                            !path_sections@.contains_key(from),
                            d.dom() == pos.dom(),
                            d[from] == 0,
                            dist_sorted(order, d),
                            dist_spread(order, d, head0),
                            forall|x: usize| #[trigger] d.dom().contains(x) ==> no_shorter_walk(l, from, x, (d[x] + 1) as nat),
                        decreases neighbors.len() - j,
                    {
                        let neighbor = neighbors[j];
                        proof {
                            assert(neighbors@.contains(neighbor));
                        }
                        if !visited.contains(&neighbor) {
                            proof {
                                let s0 = visited@;
                                assert(no_shorter_walk(l, from, neighbor, d[current] + 2)) by {
                                    assert forall|w: usize, z: usize| s0.contains(w) && #[trigger] linked(l, w, z) && !s0.contains(z) implies d[current] <= d[w] by {
                                        let i = pos[w];
                                        assert(order[i] == w);
                                        if i < head0 {
                                            assert(linked(l, order[i], z));
                                        } else {
                                            assert(d[order[head0]] <= d[order[i]]);
                                        }
                                    }
                                    assert forall|x: usize| #[trigger] s0.contains(x) implies d.dom().contains(x) && no_shorter_walk(l, from, x, (d[x] + 1) as nat) by {
                                        assert(pos.dom().contains(x));
                                    }
                                    assert(s0.contains(order[0]));
                                    lemma_frontier_bound(l, from, s0, d, d[current], neighbor);
                                }
                                assert forall|i: int| 0 <= i < order.len() implies d.dom().contains(#[trigger] order[i]) by {
                                    assert(pos.dom().contains(order[i]));
                                }
                                lemma_visit_next(l, from, order, d, head0, current, neighbor);
                            }
                            path_sections.insert(neighbor, current);
                            queue.push_back(neighbor);
                            visited.insert(neighbor);
                            proof {
                                let n = order.len() as int;
                                lemma_linked_in_ends(l, from, current, neighbor);
                                assert(order.push(neighbor).subrange(head0 + 1, n + 1) =~= order.subrange(head0 + 1, n).push(neighbor));
                                assert(neighbor != current);
                                assert(pos[order[head0]] == head0);
                                let d0 = d;
                                order = order.push(neighbor);
                                pos = pos.insert(neighbor, n);
                                d = d.insert(neighbor, (d0[current] + 1) as nat);
                                assert(pos[current] == head0);
                            }
                        }
                        j = j + 1;
                    }
                    proof {
                        assert forall|i: int, y: usize| 0 <= i < head0 + 1 && #[trigger] linked(l, order[i], y) implies visited@.contains(y) by {
                            if i == head0 {
                                assert(neighbors@.contains(y));
                                let k = choose|k: int| 0 <= k < neighbors@.len() && neighbors@[k] == y;
                                assert(visited@.contains(neighbors@[k]));
                            }
                        }
                        assert forall|k: int| head0 + 1 <= k < order.len() implies #[trigger] d[order[k]] <= d[order[head0 + 1]] + 1 by {
                            assert(d[order[k]] <= d[order[head0]] + 1);
                            assert(d[order[head0]] <= d[order[head0 + 1]]);
                        }
                        head = head0 + 1;
                    }
                },
            }
        }
        proof {
            assert forall|x: usize| #[trigger] visited@.contains(x) implies u.contains(x) by {
                assert(pos.dom().contains(x));
                assert(order[pos[x]] == x);
            }
        }
        proof {
            assert(pos.dom().contains(to));
            assert(d.dom().contains(to));
        }
        let mut path: Vec<usize> = Vec::new();
        path.push(to);
        let mut current = to;
        loop
            invariant
                l == network.links_view(),
                u == ends_and(l, from),
                forall|x: usize| #[trigger] visited@.contains(x) ==> u.contains(x),
                path@.len() >= 1,
                path@[0] == to,
                path@.last() == current,
                visited@.contains(current),
                forall|x: usize| #[trigger] visited@.contains(x) <==> pos.dom().contains(x),
                forall|x: usize| #[trigger] pos.dom().contains(x) ==> 0 <= pos[x],
                forall|i: int| 0 <= i < path@.len() ==> visited@.contains(#[trigger] path@[i]),
                forall|i: int| 0 <= i < path@.len() - 1 ==> linked(l, #[trigger] path@[i + 1], path@[i]),
                forall|i: int, k: int| 0 <= i < k < path@.len() ==> pos[#[trigger] path@[k]] < pos[#[trigger] path@[i]],
                forall|x: usize| #[trigger] path_sections@.contains_key(x) ==> {
                    let p = path_sections@[x];
                    &&& visited@.contains(x)
                    &&& visited@.contains(p)
                    &&& pos[p] < pos[x]
                    &&& linked(l, p, x)
                    &&& d[x] == d[p] + 1
                },
                forall|x: usize| #[trigger] visited@.contains(x) && x != from ==> path_sections@.contains_key(x),
                !path_sections@.contains_key(from),
                d.dom() == pos.dom(),
                d[from] == 0,
                path@.len() + d[current] == d[to] + 1,
                no_shorter_walk(l, from, to, (d[to] + 1) as nat),
            ensures
                current == from,
                path@.len() == d[to] + 1,
                no_shorter_walk(l, from, to, path@.len() as nat),
                path@.last() == from,
                forall|i: int| 0 <= i < path@.len() ==> u.contains(#[trigger] path@[i]),
                path@.len() >= 1,
                path@[0] == to,
                forall|i: int| 0 <= i < path@.len() - 1 ==> linked(l, #[trigger] path@[i + 1], path@[i]),
                forall|i: int, k: int| 0 <= i < k < path@.len() ==> pos[#[trigger] path@[k]] < pos[#[trigger] path@[i]],
            decreases pos[current],
        {
            match path_sections.get(&current) {
                Some(previous) => {
                    let previous = *previous;
                    let ghost before = path@;
                    path.push(previous);
                    proof {
                        assert(path@ =~= before.push(previous));
                        assert(path@[before.len() as int] == previous);
                        assert forall|i: int, k: int| 0 <= i < k < path@.len() implies pos[#[trigger] path@[k]] < pos[#[trigger] path@[i]] by {
                            if k == before.len() {
                                if i < before.len() - 1 {
                                    assert(pos[before[before.len() - 1]] < pos[before[i]]);
                                }
                                assert(path@[i] == before[i]);
                            } else {
                                assert(path@[i] == before[i]);
                                assert(path@[k] == before[k]);
                            }
                        }
                        assert forall|i: int| 0 <= i < path@.len() - 1 implies linked(l, #[trigger] path@[i + 1], path@[i]) by {
                            if i < before.len() - 1 {
                                assert(path@[i] == before[i]);
                                assert(path@[i + 1] == before[i + 1]);
                            }
                        }
                    }
                    current = previous;
                },
                None => {
                    break;
                },
            }
        }
        let n = path.len();
        let mut route: Vec<usize> = Vec::new();
        let mut k: usize = 0;
        while k < n
            invariant
                n == path@.len(),
                k <= n,
                route@.len() == k,
                forall|i: int| 0 <= i < k ==> #[trigger] route@[i] == path@[n - 1 - i],
            decreases n - k,
        {
            route.push(path[n - 1 - k]);
            k = k + 1;
        }
        proof {
            assert(route@[0] == path@[n - 1]);
            assert(route@[n - 1] == path@[0]);
            assert forall|i: int| 0 <= i < route@.len() - 1 implies linked(l, #[trigger] route@[i], route@[i + 1]) by {
                let j = n - 2 - i;
                assert(route@[i] == path@[j + 1]);
                assert(route@[i + 1] == path@[j]);
            }
            assert forall|i: int| 0 <= i < route@.len() implies u.contains(#[trigger] route@[i]) by {
                assert(route@[i] == path@[n - 1 - i]);
            }
            assert forall|i: int, k2: int| 0 <= i < route@.len() && 0 <= k2 < route@.len() && i != k2 implies route@[i] != route@[k2] by {
                let a = n - 1 - i;
                let b = n - 1 - k2;
                if a < b {
                    assert(pos[path@[b]] < pos[path@[a]]);
                } else {
                    assert(pos[path@[a]] < pos[path@[b]]);
                }
            }
        }
        proof {
            assert(route@.no_duplicates());
            lemma_distinct_within(route@, u);
        }
        route
    }
}


/// `routes` has a route for each demand, in order: a walk from the demand's
/// first node to its second, at most `max_len` nodes long.
pub open spec fn routes_demands(links: Seq<BidirectionalLink>, demands: Seq<BidirectionalDemand>, routes: Seq<Seq<usize>>, max_len: nat) -> bool {
    &&& routes.len() == demands.len()
    &&& forall|i: int| 0 <= i < routes.len() ==> {
        &&& is_walk(links, #[trigger] routes[i])
        &&& routes[i][0] == demands[i].nodes_view().0
        &&& routes[i].last() == demands[i].nodes_view().1
        &&& routes[i].len() <= max_len
    }
}

/// `r1` followed by `r2` is a detour for `route` through the node `m`, one
/// of the `n` nodes and neither end of the route: `r1` is a route from the
/// route's first node to `m`, and `r2` one from `m` to the route's last node,
/// each no longer than a route that meets no node twice can be.
pub open spec fn is_detour(links: Seq<BidirectionalLink>, n: nat, route: Seq<usize>, m: usize, r1: Seq<usize>, r2: Seq<usize>) -> bool {
    &&& m < n
    &&& m != route[0]
    &&& m != route.last()
    &&& is_route(links, r1, route[0], m)
    &&& is_route(links, r2, m, route.last())
    &&& r1.len() <= 2 * links.len() + 1
    &&& r2.len() <= 2 * links.len() + 1
}

/// `child` takes the routes of `second` from `point` up to but excluding
/// `point + half`, and those of `first` elsewhere.
pub open spec fn crossover_child(first: Seq<Seq<usize>>, second: Seq<Seq<usize>>, point: int, half: int, child: Seq<Seq<usize>>) -> bool {
    &&& child.len() == first.len()
    &&& forall|i: int| 0 <= i < child.len() ==> #[trigger] child[i] == if i < point || i >= point + half {
        first[i]
    } else {
        second[i]
    }
}

/// Crossing a routing plan with itself gives it back, wherever the point
/// falls.
pub proof fn lemma_crossover_with_itself(routes: Seq<Seq<usize>>, point: int, half: int, child: Seq<Seq<usize>>)
    requires
        crossover_child(routes, routes, point, half, child),
    ensures
        child == routes,
{
    assert(child =~= routes);
}

/// A copy of the route.
fn copy_route(route: &Vec<usize>) -> (c: Vec<usize>)
    ensures
        c@ == route@,
{
    let c = route.clone();
    assert(c@ =~= route@);
    c
}

impl RoutingPlan {
    /// The routes, one for each demand, in order.
    pub closed spec fn routes_view(&self) -> Seq<Seq<usize>> {
        self.routes@.map_values(|r: Vec<usize>| r@)
    }

    /// The routes, one for each demand, in order.
    pub fn routes(&self) -> (r: &Vec<Vec<usize>>)
        ensures
            r@.map_values(|v: Vec<usize>| v@) == self.routes_view(),
    {
        &self.routes
    }

    /// A route for each demand, found by `any_route`: a shortest one; the
    /// second node of each demand can be reached from its first.
    pub fn random_from_demands(network: &Network, demands: &Vec<BidirectionalDemand>) -> (plan: Self)
        requires
            network.wf(),
            forall|i: int| 0 <= i < demands@.len() ==> reachable(
                network.links_view(),
                (#[trigger] demands@[i]).nodes_view().0,
                demands@[i].nodes_view().1,
            ),
        ensures
            plan.routes_view().len() == demands@.len(),
            forall|i: int| 0 <= i < demands@.len() ==> is_route(
                network.links_view(),
                #[trigger] plan.routes_view()[i],
                demands@[i].nodes_view().0,
                demands@[i].nodes_view().1,
            ) && plan.routes_view()[i].len() <= 2 * network.links_view().len() + 1 && no_shorter_walk(
                network.links_view(),
                demands@[i].nodes_view().0,
                demands@[i].nodes_view().1,
                plan.routes_view()[i].len(),
            ),
    {
        let mut routes: Vec<Vec<usize>> = Vec::new();
        let mut k: usize = 0;
        while k < demands.len()
            invariant
                network.wf(),
                k <= demands@.len(),
                forall|i: int| 0 <= i < demands@.len() ==> reachable(
                    network.links_view(),
                    (#[trigger] demands@[i]).nodes_view().0,
                    demands@[i].nodes_view().1,
                ),
                routes@.len() == k,
                forall|i: int| 0 <= i < k ==> is_route(
                    network.links_view(),
                    (#[trigger] routes@[i])@,
                    demands@[i].nodes_view().0,
                    demands@[i].nodes_view().1,
                ) && routes@[i]@.len() <= 2 * network.links_view().len() + 1 && no_shorter_walk(
                    network.links_view(),
                    demands@[i].nodes_view().0,
                    demands@[i].nodes_view().1,
                    routes@[i]@.len(),
                ),
            decreases demands.len() - k,
        {
            let (first, second) = demands[k].demand_nodes();
            assert(reachable(network.links_view(), demands@[k as int].nodes_view().0, demands@[k as int].nodes_view().1));
            let route = Self::any_route(network, first, second);
            routes.push(route);
            k = k + 1;
        }
        let plan = RoutingPlan { routes };
        assert forall|i: int| 0 <= i < demands@.len() implies is_route(
            network.links_view(),
            #[trigger] plan.routes_view()[i],
            demands@[i].nodes_view().0,
            demands@[i].nodes_view().1,
        ) && plan.routes_view()[i].len() <= 2 * network.links_view().len() + 1 && no_shorter_walk(
            network.links_view(),
            demands@[i].nodes_view().0,
            demands@[i].nodes_view().1,
            plan.routes_view()[i].len(),
        ) by {
            assert(plan.routes_view()[i] == routes@[i]@);
        }
        plan
    }

    /// Two point crossover: a point is drawn below half the number of routes,
    /// and the child takes the routes of `second` from that point on for half
    /// the number of routes, and those of `first` elsewhere. The plans have
    /// equally many routes, at least two.
    pub fn crossover(rng: &mut StdRng, first: &Self, second: &Self) -> (child: Self)
        requires
            first.routes_view().len() == second.routes_view().len(),
            first.routes_view().len() >= 2,
        ensures
            exists|point: int| 0 <= point < first.routes_view().len() / 2 && #[trigger] crossover_child(
                first.routes_view(),
                second.routes_view(),
                point,
                (first.routes_view().len() / 2) as int,
                child.routes_view(),
            ),
    {
        let length = first.routes.len();
        let half_routing_length = length / 2;
        let first_crossover_index = random_below(rng, half_routing_length);
        let second_crossover_index = first_crossover_index + half_routing_length;
        let mut routes: Vec<Vec<usize>> = Vec::new();
        let mut i: usize = 0;
        while i < length
            invariant
                length == first.routes@.len(),
                length == second.routes@.len(),
                second_crossover_index == first_crossover_index + half_routing_length,
                i <= length,
                routes@.len() == i,
                forall|j: int| 0 <= j < i ==> (#[trigger] routes@[j])@ == if j < first_crossover_index || j >= second_crossover_index {
                    first.routes@[j]@
                } else {
                    second.routes@[j]@
                },
            decreases length - i,
        {
            if i < first_crossover_index || i >= second_crossover_index {
                routes.push(copy_route(&first.routes[i]));
            } else {
                routes.push(copy_route(&second.routes[i]));
            }
            i = i + 1;
        }
        let child = RoutingPlan { routes };
        assert(crossover_child(
            first.routes_view(),
            second.routes_view(),
            first_crossover_index as int,
            half_routing_length as int,
            child.routes_view(),
        ));
        child
    }

    /// Replaces the route of a demand drawn at random by a detour through a
    /// node drawn among those that are neither of its ends: a route to that
    /// node followed by a route from it. There is some route, each route has
    /// a first and a last node, both nodes of the network, and the network
    /// has at least three nodes.
    pub fn mutate(&mut self, rng: &mut StdRng, problem: &Rofa)
        requires
            problem.wf(),
            old(self).routes_view().len() > 0,
            forall|i: int| 0 <= i < old(self).routes_view().len() ==> {
                &&& (#[trigger] old(self).routes_view()[i]).len() >= 1
                &&& old(self).routes_view()[i][0] < problem.network_view().nodes_view().len()
                &&& old(self).routes_view()[i].last() < problem.network_view().nodes_view().len()
            },
            problem.network_view().nodes_view().len() >= 3,
        ensures
            exists|k: int, m: usize, r1: Seq<usize>, r2: Seq<usize>|
                0 <= k < old(self).routes_view().len() && #[trigger] is_detour(
                    problem.network_view().links_view(),
                    problem.network_view().nodes_view().len(),
                    old(self).routes_view()[k],
                    m,
                    r1,
                    r2,
                ) && final(self).routes_view() == old(self).routes_view().update(k, r1.drop_last() + r2),
    {
        let length = self.routes.len();
        let index_to_mutate = match choose_below(rng, length) {
            Some(i) => i,
            None => {
                assert(false);
                0
            },
        };
        let ghost old_routes = self.routes_view();
        let ghost old_route = old_routes[index_to_mutate as int];
        let network = problem.network();
        let ghost links = network.links_view();
        proof {
            problem.lemma_wf_facts();
            assert(old_route == self.routes@[index_to_mutate as int]@);
            assert(old_route.len() >= 1);
        }
        let route_length = self.routes[index_to_mutate].len();
        let first = self.routes[index_to_mutate][0];
        let second = self.routes[index_to_mutate][route_length - 1];
        let nodes = network.nodes();
        let mut possible_intermediates: Vec<usize> = Vec::new();
        let mut j: usize = 0;
        while j < nodes.len()
            invariant
                j <= nodes@.len(),
                nodes@ == network.nodes_view(),
                forall|i: int| 0 <= i < nodes@.len() ==> (#[trigger] nodes@[i]).id_view() == i,
                forall|x: usize| #[trigger] possible_intermediates@.contains(x) <==> (x < j && x != first && x != second),
            decreases nodes.len() - j,
        {
            let id = nodes[j].id();
            let ghost before = possible_intermediates@;
            if id != first && id != second {
                possible_intermediates.push(id);
                proof {
                    assert forall|x: usize| #[trigger] possible_intermediates@.contains(x) <==> (x < j + 1 && x != first && x != second) by {
                        if possible_intermediates@.contains(x) && x != id {
                            let w = choose|w: int| 0 <= w < possible_intermediates@.len() && possible_intermediates@[w] == x;
                            assert(before[w] == x);
                        }
                        if before.contains(x) {
                            let w = choose|w: int| 0 <= w < before.len() && before[w] == x;
                            assert(possible_intermediates@[w] == x);
                        }
                        if x == id {
                            assert(possible_intermediates@[before.len() as int] == x);
                        }
                    }
                }
            }
            j = j + 1;
        }
        proof {
            let n = nodes@.len();
            let candidate: usize = if first != 0 && second != 0 {
                0
            } else if first != 1 && second != 1 {
                1
            } else {
                2
            };
            assert(possible_intermediates@.contains(candidate));
        }
        let intermediate = match choose_from(rng, &possible_intermediates) {
            Some(x) => x,
            None => {
                assert(false);
                0
            },
        };
        proof {
            assert(intermediate < nodes@.len());
            assert(first < nodes@.len() && second < nodes@.len());
            assert(reachable(links, first, intermediate));
            assert(reachable(links, intermediate, second));
        }
        let mut first_part = Self::any_route(network, first, intermediate);
        let second_part = Self::any_route(network, intermediate, second);
        let ghost r1 = first_part@;
        first_part.pop();
        let mut mutated_route: Vec<usize> = Vec::new();
        let mut k: usize = 0;
        while k < first_part.len()
            invariant
                k <= first_part@.len(),
                mutated_route@ == first_part@.take(k as int),
            decreases first_part.len() - k,
        {
            mutated_route.push(first_part[k]);
            k = k + 1;
            assert(mutated_route@ =~= first_part@.take(k as int));
        }
        let mut k: usize = 0;
        while k < second_part.len()
            invariant
                k <= second_part@.len(),
                mutated_route@ == first_part@ + second_part@.take(k as int),
            decreases second_part.len() - k,
        {
            mutated_route.push(second_part[k]);
            k = k + 1;
            assert(mutated_route@ =~= first_part@ + second_part@.take(k as int));
        }
        proof {
            assert(first_part@ =~= r1.drop_last());
            assert(second_part@.take(second_part@.len() as int) =~= second_part@);
        }
        let ghost new_route = mutated_route@;
        self.routes.set(index_to_mutate, mutated_route);
        proof {
            assert(self.routes_view() =~= old_routes.update(index_to_mutate as int, new_route));
            assert(old_route[0] == first);
            assert(old_route.last() == second);
            assert(is_detour(links, nodes@.len(), old_route, intermediate, r1, second_part@));
        }
    }
}

} // verus!
