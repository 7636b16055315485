use pairing::network::{
    can_demand, can_join, demand_with_random_traffic, draw_demand_ends, draw_link_ends, BidirectionalDemand,
    BidirectionalLink, Network, Node,
};
use pairing::routing::RoutingPlan;

#[test]
fn test_coherent() {
    let nodes: Vec<Node> = (1..=5).map(Node::with_id).collect();
    let mut links = vec![
        BidirectionalLink::between((1, 2)),
        BidirectionalLink::between((1, 3)),
        BidirectionalLink::between((1, 4)),
        BidirectionalLink::between((2, 3)),
        BidirectionalLink::between((2, 4)),
    ];
    assert!(
        !Network::coherent(&nodes, &links),
        "Network should not be coherent"
    );
    links.push(BidirectionalLink::between((3, 5)));
    assert!(
        Network::coherent(&nodes, &links),
        "Network should be coherent"
    );
}

#[test]
fn test_any_route() {
    let nodes: Vec<Node> = (1..=5).map(Node::with_id).collect();
    let links = vec![
        BidirectionalLink::between((1, 2)),
        BidirectionalLink::between((2, 3)),
        BidirectionalLink::between((3, 4)),
        BidirectionalLink::between((4, 5)),
    ];
    let network = Network::from(nodes, links);
    let path = RoutingPlan::any_route(&network, 1, 5);
    assert_eq!(
        path,
        vec![1, 2, 3, 4, 5],
        "Should find a path through the network"
    );
}

fn square_with_diagonal() -> (Vec<Node>, Vec<BidirectionalLink>) {
    let nodes: Vec<Node> = (0..4).map(Node::with_id).collect();
    let links = vec![
        BidirectionalLink::between((0, 1)),
        BidirectionalLink::between((1, 2)),
        BidirectionalLink::between((2, 3)),
        BidirectionalLink::between((3, 0)),
        BidirectionalLink::between((1, 3)),
    ];
    (nodes, links)
}

#[test]
fn links_and_their_ends() {
    let link = BidirectionalLink::between((3, 7));
    assert!(link.is_between((3, 7)));
    assert!(link.is_between((7, 3)));
    assert!(!link.is_between((3, 3)));
    assert_eq!(link.froms(), vec![3, 7]);
    assert!(link.is_from(7));
    assert!(!link.is_from(4));
    assert_eq!(link.to(3), 7);
    assert_eq!(link.to(7), 3);
    assert_eq!(link.ends_pair(), (3, 7));
}

#[test]
fn new_links_and_demands_must_be_fresh() {
    let (_, links) = square_with_diagonal();
    assert!(!pairing::network::can_join(&links, (2, 2)));
    assert!(!pairing::network::can_join(&links, (2, 1)));
    assert!(pairing::network::can_join(&links, (0, 2)));
    let demands = vec![pairing::network::BidirectionalDemand::between_with_traffic((0, 2), 4)];
    assert!(!pairing::network::can_demand(&demands, (2, 0)));
    assert!(!pairing::network::can_demand(&demands, (1, 1)));
    assert!(pairing::network::can_demand(&demands, (1, 3)));
    assert_eq!(demands[0].demand_nodes(), (0, 2));
    assert_eq!(demands[0].required_traffic(), 4);
    assert!(demands[0].is_between((2, 0)));
}

#[test]
fn network_indexes() {
    let (nodes, links) = square_with_diagonal();
    let network = Network::from(nodes, links);
    assert_eq!(network.link_index_by_start_and_end_id((3, 1)), 4);
    assert_eq!(network.link_index_by_start_and_end_id((0, 3)), 3);
    let at_one: Vec<(usize, usize)> = network
        .filter_by_start_id(&1)
        .iter()
        .map(|l| l.ends_pair())
        .collect();
    assert_eq!(at_one, vec![(0, 1), (1, 2), (1, 3)]);
    assert_eq!(network.neighbors(1), vec![0, 2, 3]);
    assert_eq!(network.neighbors(0), vec![1, 3]);
    assert_eq!(network.nodes().len(), 4);
    assert_eq!(network.links().len(), 5);
}

#[test]
fn coherent_counts_reached_nodes() {
    let (nodes, links) = square_with_diagonal();
    assert!(Network::coherent(&nodes, &links));
    let lonely: Vec<Node> = (0..5).map(Node::with_id).collect();
    assert!(!Network::coherent(&lonely, &links));
    let single = vec![Node::with_id(9)];
    assert!(Network::coherent(&single, &Vec::new()));
}

#[test]
fn any_route_meets_no_node_twice() {
    let (nodes, links) = square_with_diagonal();
    let network = Network::from(nodes, links);
    assert_eq!(RoutingPlan::any_route(&network, 0, 2), vec![0, 1, 2]);
    assert_eq!(RoutingPlan::any_route(&network, 1, 3), vec![1, 3]);
    assert_eq!(RoutingPlan::any_route(&network, 2, 2), vec![2]);
    let route = RoutingPlan::any_route(&network, 3, 1);
    assert_eq!(route, vec![3, 1]);
}

#[test]
fn any_route_takes_a_shortest_route() {
    let nodes: Vec<Node> = (0..4).map(Node::with_id).collect();
    let links = vec![
        BidirectionalLink::between((0, 1)),
        BidirectionalLink::between((1, 2)),
        BidirectionalLink::between((2, 3)),
        BidirectionalLink::between((0, 3)),
    ];
    let network = Network::from(nodes, links);
    assert_eq!(RoutingPlan::any_route(&network, 0, 3), vec![0, 3]);
    assert_eq!(RoutingPlan::any_route(&network, 1, 3).len(), 3);

    let ring: Vec<Node> = (0..6).map(Node::with_id).collect();
    let ring_links: Vec<BidirectionalLink> = (0..6)
        .map(|i| BidirectionalLink::between((i, (i + 1) % 6)))
        .collect();
    let ring_network = Network::from(ring, ring_links);
    let route = RoutingPlan::any_route(&ring_network, 0, 3);
    assert_eq!(route.len(), 4);
    assert_eq!(route[0], 0);
    assert_eq!(route[3], 3);
    assert_eq!(RoutingPlan::any_route(&ring_network, 0, 5), vec![0, 5]);
}

#[test]
fn drawn_ends_can_join() {
    let links = vec![BidirectionalLink::between((0, 1))];
    let demands = vec![BidirectionalDemand::between_with_traffic((1, 2), 4)];
    let mut rng = <rand::rngs::StdRng as rand::SeedableRng>::seed_from_u64(5);
    let mut found = 0;
    for _ in 0..200 {
        if let Some((a, b)) = draw_link_ends(&mut rng, &links, 3) {
            assert!(a < 3 && b < 3 && can_join(&links, (a, b)));
            found += 1;
        }
        if let Some((a, b)) = draw_demand_ends(&mut rng, &demands, 3) {
            assert!(a < 3 && b < 3 && can_demand(&demands, (a, b)));
            found += 1;
        }
    }
    assert!(found > 0);
    for _ in 0..50 {
        let d = demand_with_random_traffic(&mut rng, (0, 2), 10);
        assert!(d.required_traffic() <= 10);
        assert!(d.is_between((2, 0)));
    }
}
