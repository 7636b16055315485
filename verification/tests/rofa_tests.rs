use pairing::capacity::{CapacityPlan, CapacityType, CapacityTypes};
use pairing::network::{BidirectionalDemand, BidirectionalLink, Network, Node};
use pairing::rofa::{Rofa, RoutingAndCapacityPlan};
use pairing::routing::RoutingPlan;
use pairing::settings::ProblemSettings;
use rand::rngs::StdRng;
use rand::SeedableRng;

fn network() -> Network {
    let nodes: Vec<Node> = (0..4).map(Node::with_id).collect();
    let links = vec![
        BidirectionalLink::between((0, 1)),
        BidirectionalLink::between((1, 2)),
        BidirectionalLink::between((2, 3)),
        BidirectionalLink::between((3, 0)),
        BidirectionalLink::between((1, 3)),
    ];
    Network::from(nodes, links)
}

fn types() -> CapacityTypes {
    CapacityTypes::new(vec![
        CapacityType::from_multiplier(0),
        CapacityType::from_multiplier(2),
        CapacityType::from_multiplier(1),
        CapacityType::from_multiplier(2),
    ])
}

fn settings() -> ProblemSettings {
    ProblemSettings::Rofa {
        nodes: 4,
        links_percentage: 100,
        demands_percentage: 50,
        link_types: 4,
    }
}

fn problem() -> Rofa {
    let demands = vec![
        BidirectionalDemand::between_with_traffic((0, 2), 5),
        BidirectionalDemand::between_with_traffic((1, 3), 2),
    ];
    Rofa::new(network(), demands, types(), settings()).expect("valid instance")
}

#[test]
fn capacity_types_from_multipliers() {
    let c = CapacityType::from_multiplier(0);
    assert_eq!(c.capacity(), 1000);
    assert_eq!(c.multiplier(), 0);
    assert_eq!(CapacityType::from_multiplier(6).capacity(), 1_000_000_000);
    assert_eq!(CapacityType::from_multiplier(7).capacity(), 10u32.wrapping_pow(10) as usize);
    assert_eq!(CapacityType::from_multiplier(7).capacity(), 1_410_065_408);
    assert_eq!(CapacityType::from_multiplier(40).capacity(), 0);
    assert!(c.exceeds(999));
    assert!(!c.exceeds(1000));
}

#[test]
fn largest_capacity_type_is_the_first_largest() {
    let t = types();
    let max = t.max();
    assert_eq!(max.capacity(), 100_000);
    assert_eq!(max.multiplier(), 2);
    let plan = CapacityPlan::with_highest_capacities(&t, 3);
    let caps: Vec<usize> = plan.planned_capacity_types().iter().map(|c| c.capacity()).collect();
    assert_eq!(caps, vec![100_000, 100_000, 100_000]);
}

#[test]
fn instances_are_checked() {
    let demands = vec![BidirectionalDemand::between_with_traffic((0, 2), 5)];
    assert!(Rofa::new(network(), demands.clone(), types(), settings()).is_some());
    let outside = vec![BidirectionalDemand::between_with_traffic((0, 9), 5)];
    assert!(Rofa::new(network(), outside, types(), settings()).is_none());
    assert!(Rofa::new(network(), demands.clone(), CapacityTypes::new(vec![]), settings()).is_none());
    let split = Network::from(
        (0..4).map(Node::with_id).collect(),
        vec![BidirectionalLink::between((0, 1)), BidirectionalLink::between((2, 3))],
    );
    assert!(Rofa::new(split, demands.clone(), types(), settings()).is_none());
    let gap = Network::from(
        vec![Node::with_id(0), Node::with_id(2)],
        vec![BidirectionalLink::between((0, 2))],
    );
    assert!(Rofa::new(gap, vec![], types(), settings()).is_none());
    let heavy = vec![BidirectionalDemand::between_with_traffic((0, 2), usize::MAX / 2)];
    assert!(Rofa::new(network(), heavy, types(), settings()).is_none());
}

#[test]
fn random_plan_routes_and_loads() {
    let p = problem();
    assert_eq!(p.number_links(), 5);
    assert_eq!(p.number_demands(), 2);
    assert_eq!(p.problem_settings(), settings());
    let plan = p.random_individual(7);
    assert_eq!(plan.id(), 7);
    assert_eq!(plan.routing_plan().routes(), &vec![vec![0, 1, 2], vec![1, 3]]);
    assert_eq!(plan.get_links_demands(), vec![5, 5, 0, 0, 2]);
    let caps: Vec<usize> = plan
        .capacity_plan()
        .planned_capacity_types()
        .iter()
        .map(|c| c.capacity())
        .collect();
    assert_eq!(caps, vec![100_000; 5]);
}

#[test]
fn loads_count_each_passage() {
    let p = problem();
    let plan = RoutingAndCapacityPlan::random(&p, 0);
    let loads = RoutingAndCapacityPlan::calculate_links_demands(&p, plan.routing_plan());
    assert_eq!(loads, vec![5, 5, 0, 0, 2]);
}

#[test]
fn routing_plan_from_demands() {
    let p = problem();
    let plan = RoutingPlan::random_from_demands(p.network(), p.demands());
    assert_eq!(plan.routes(), &vec![vec![0, 1, 2], vec![1, 3]]);
}

#[test]
fn crossover_takes_from_both_parents() {
    let p = problem();
    let a = p.random_individual(1);
    let b = p.random_individual(2);
    let mut rng = StdRng::seed_from_u64(3);
    let child = RoutingAndCapacityPlan::crossover(&mut rng, &a, &b, &p, 9);
    assert_eq!(child.id(), 9);
    assert_eq!(child.parent_ids(), (1, 2));
    assert_eq!(child.routing_plan().routes().len(), 2);
    assert_eq!(child.get_links_demands(), vec![5, 5, 0, 0, 2]);
}

#[test]
fn routing_crossover_splits_at_a_point() {
    let first = RoutingPlan::random_from_demands(&network(), &vec![
        BidirectionalDemand::between_with_traffic((0, 2), 1),
        BidirectionalDemand::between_with_traffic((1, 3), 1),
        BidirectionalDemand::between_with_traffic((0, 1), 1),
        BidirectionalDemand::between_with_traffic((2, 3), 1),
    ]);
    let second = RoutingPlan::random_from_demands(&network(), &vec![
        BidirectionalDemand::between_with_traffic((2, 0), 1),
        BidirectionalDemand::between_with_traffic((3, 1), 1),
        BidirectionalDemand::between_with_traffic((1, 0), 1),
        BidirectionalDemand::between_with_traffic((3, 2), 1),
    ]);
    for seed in 0..8 {
        let mut rng = StdRng::seed_from_u64(seed);
        let child = RoutingPlan::crossover(&mut rng, &first, &second);
        let routes = child.routes();
        let from_second: Vec<bool> = (0..4).map(|i| routes[i] == second.routes()[i]).collect();
        assert!(
            from_second == vec![true, true, false, false] || from_second == vec![false, true, true, false],
            "{:?}",
            from_second
        );
    }
}

#[test]
fn capacity_crossover_splits_after_a_point() {
    let t = types();
    let first = CapacityPlan::with_highest_capacities(&CapacityTypes::new(vec![CapacityType::from_multiplier(0)]), 4);
    let second = CapacityPlan::with_highest_capacities(&t, 4);
    for seed in 0..8 {
        let mut rng = StdRng::seed_from_u64(seed);
        let child = CapacityPlan::crossover(&mut rng, &first, &second);
        let caps: Vec<usize> = child.planned_capacity_types().iter().map(|c| c.capacity()).collect();
        assert!(
            caps == vec![1000, 100_000, 100_000, 1000] || caps == vec![1000, 1000, 100_000, 100_000],
            "{:?}",
            caps
        );
    }
}

#[test]
fn mutation_detours_one_route_and_changes_one_capacity() {
    let p = problem();
    let initial = p.random_individual(4);
    for seed in 0..8 {
        let mut plan = initial.clone();
        let mut rng = StdRng::seed_from_u64(seed);
        plan.mutate(&mut rng, &p);
        assert_eq!(plan.id(), 4);
        assert_eq!(plan.get_links_demands(), initial.get_links_demands());
        let before = initial.routing_plan().routes();
        let after = plan.routing_plan().routes();
        let changed: Vec<usize> = (0..2).filter(|&i| before[i] != after[i]).collect();
        assert!(changed.len() <= 1);
        for i in 0..2 {
            assert_eq!(after[i].first(), before[i].first());
            assert_eq!(after[i].last(), before[i].last());
        }
        let caps_before = initial.capacity_plan().planned_capacity_types();
        let caps_after = plan.capacity_plan().planned_capacity_types();
        let loads = initial.get_links_demands();
        let differing = (0..5).filter(|&j| caps_before[j].capacity() != caps_after[j].capacity()).count();
        assert!(differing <= 1);
        for j in 0..5 {
            assert!(caps_after[j].capacity() > loads[j]);
        }
    }
}

#[test]
fn crossing_a_plan_with_itself_changes_nothing() {
    let p = problem();
    let plan = RoutingPlan::random_from_demands(p.network(), p.demands());
    let capacities = CapacityPlan::with_highest_capacities(&types(), 5);
    for seed in 0..4 {
        let mut rng = StdRng::seed_from_u64(seed);
        let child = RoutingPlan::crossover(&mut rng, &plan, &plan);
        assert_eq!(child.routes(), plan.routes());
        let child = CapacityPlan::crossover(&mut rng, &capacities, &capacities);
        let a: Vec<usize> = child.planned_capacity_types().iter().map(|c| c.capacity()).collect();
        let b: Vec<usize> = capacities.planned_capacity_types().iter().map(|c| c.capacity()).collect();
        assert_eq!(a, b);
    }
}

#[test]
fn mutation_detours_routes_of_any_demands() {
    let p = problem();
    let other = vec![
        BidirectionalDemand::between_with_traffic((0, 3), 1),
        BidirectionalDemand::between_with_traffic((2, 1), 1),
        BidirectionalDemand::between_with_traffic((1, 0), 1),
    ];
    for seed in 0..10u64 {
        let mut plan = RoutingPlan::random_from_demands(p.network(), &other);
        let before = plan.routes().clone();
        let mut rng = StdRng::seed_from_u64(seed);
        plan.mutate(&mut rng, &p);
        let after = plan.routes();
        assert_eq!(after.len(), 3);
        let changed = (0..3).filter(|&i| after[i] != before[i]).count();
        assert_eq!(changed, 1);
        for i in 0..3 {
            assert_eq!(after[i][0], before[i][0]);
            assert_eq!(after[i].last(), before[i].last());
        }
    }
}

#[test]
fn loads_count_only_demands_with_a_route() {
    let p = problem();
    let one = RoutingPlan::random_from_demands(
        p.network(),
        &vec![BidirectionalDemand::between_with_traffic((0, 1), 7)],
    );
    let loads = RoutingAndCapacityPlan::calculate_links_demands(&p, &one);
    assert_eq!(loads, vec![5, 0, 0, 0, 0]);
}

#[test]
fn half_in_f32_matches_f32_arithmetic() {
    let samples = [
        2usize,
        3,
        10,
        16_777_215,
        16_777_216,
        16_777_217,
        16_777_218,
        16_777_219,
        33_554_431,
        33_554_433,
        100_000_007,
        1 << 40,
        (1 << 40) + 12_345,
        usize::MAX / 2,
    ];
    for &x in &samples {
        assert_eq!(pairing::capacity::half_in_f32(x), (x as f32 / 2.0).floor() as usize, "{}", x);
    }
    assert_eq!(pairing::capacity::half_in_f32(33_554_431), 16_777_216);
    assert_eq!(pairing::capacity::half_in_f32(16_777_219), 8_388_610);
}

#[test]
fn capacity_types_above_a_load_by_place() {
    let t = types();
    assert_eq!(pairing::capacity::exceeding_indices(t.capacity_types(), 1000), vec![1, 2, 3]);
    assert_eq!(pairing::capacity::exceeding_indices(t.capacity_types(), 10_000), vec![1, 3]);
    assert_eq!(pairing::capacity::exceeding_indices(t.capacity_types(), 100_000), Vec::<usize>::new());
}
