use pairing::ga::{
    asexual_pairs, close_individual, pair_consecutive, pairing_from_pairing_settings, parent_indices,
    random_pairs, select_survivors, similar_fitness_pairs, sort_by_key, AsexualPairing, Pairings,
    RandomPairing, SimilarFitnessPairing, SpatialDistancePairing,
};
use pairing::settings::{IndividualQuantity, PairingSettings};
use pairing::tsp::Sequence;
use rand::rngs::StdRng;
use rand::RngExt;
use rand::SeedableRng;

fn is_permutation(v: &[usize], n: usize) -> bool {
    let mut sorted = v.to_vec();
    sorted.sort();
    sorted == (0..n).collect::<Vec<usize>>()
}

#[test]
fn random_sequences_are_permutations() {
    for seed in 0..5 {
        let mut rng = StdRng::seed_from_u64(seed);
        let s = Sequence::random(&mut rng, 8, 3);
        assert!(is_permutation(s.numbers(), 8));
        assert_eq!(s.len(), 8);
        assert_eq!(s.id(), 3);
    }
}

#[test]
fn sequence_lookups() {
    let mut rng = StdRng::seed_from_u64(1);
    let s = Sequence::random(&mut rng, 6, 0);
    for i in 0..6 {
        let n = s.get_number_at_index(i);
        assert_eq!(s.get_index_of_number(n), i);
    }
    let numbers = s.numbers().clone();
    let third = numbers[3];
    let (before, after) = s.get_surrounding_numbers(third);
    assert_eq!(before, numbers[3 % 5]);
    assert_eq!(after, numbers[4 % 5]);
    let last = numbers[5];
    let (before, after) = s.get_surrounding_numbers(last);
    assert_eq!(before, numbers[0]);
    assert_eq!(after, numbers[1]);
}

#[test]
fn crossover_gives_a_permutation_with_parents() {
    for seed in 0..10 {
        let mut rng = StdRng::seed_from_u64(seed);
        let a = Sequence::random(&mut rng, 9, 1);
        let b = Sequence::random(&mut rng, 9, 2);
        let child = Sequence::crossover(&mut rng, &a, &b, 5);
        assert!(is_permutation(child.numbers(), 9));
        assert_eq!(child.id(), 5);
        assert_eq!(child.parent_ids(), (1, 2));
        assert_eq!(child.numbers()[0], a.numbers()[0]);
        assert_eq!(child.numbers()[1], a.numbers()[1]);
    }
}

#[test]
fn swapping_keeps_a_permutation() {
    let mut rng = StdRng::seed_from_u64(4);
    let mut s = Sequence::random(&mut rng, 7, 0);
    let before = s.numbers().clone();
    s.swap_two_numbers(&mut rng);
    assert!(is_permutation(s.numbers(), 7));
    let moved = (0..7).filter(|&i| before[i] != s.numbers()[i]).count();
    assert!(moved == 0 || moved == 2);
}

#[test]
fn parents_of_each_quantity() {
    let ranking = vec![2, 0, 1];
    let mut rng = StdRng::seed_from_u64(0);
    let random = parent_indices(&mut rng, &IndividualQuantity::Random, &ranking, 5);
    assert_eq!(random.len(), 10);
    assert_eq!(&random[..3], &[0, 1, 2]);
    assert!(random[3] < 3 && random[4] < 3);
    assert_eq!(&random[5..], &random[..5]);
    let elite = parent_indices(&mut rng, &IndividualQuantity::Elite { percentage: 100 }, &ranking, 6);
    assert_eq!(elite, vec![0, 1, 2, 2, 0, 2, 0, 1, 2, 2, 0, 2]);
    let anti = parent_indices(&mut rng, &IndividualQuantity::AntiElite { percentage: 100 }, &ranking, 5);
    assert_eq!(anti, vec![0, 1, 2, 2, 0, 0, 1, 2, 2, 0]);
}

#[test]
fn consecutive_and_random_pairs() {
    let pairs = pair_consecutive(vec![1, 2, 3, 4, 5], 2);
    assert_eq!(pairs, vec![(1, 2), (3, 4)]);
    let mut rng = StdRng::seed_from_u64(2);
    let pairs = random_pairs(&mut rng, vec![1, 2, 3, 4], 2);
    let mut all: Vec<i32> = pairs.iter().flat_map(|(a, b)| vec![*a, *b]).collect();
    all.sort();
    assert_eq!(all, vec![1, 2, 3, 4]);
}

#[test]
fn closest_candidate_at_the_desired_rank() {
    let ids = vec![7, 3, 9];
    assert_eq!(close_individual(&ids, 0), 7);
    assert_eq!(close_individual(&ids, 2), 9);
    assert_eq!(close_individual(&ids, 5), 9);
}

#[test]
fn stable_sort_by_key() {
    let sorted = sort_by_key(vec![(2, 'a'), (1, 'b'), (2, 'c'), (0, 'd'), (1, 'e')]);
    assert_eq!(sorted, vec![(0, 'd'), (1, 'b'), (1, 'e'), (2, 'a'), (2, 'c')]);
}

#[test]
fn asexual_pairs_need_matching_identities() {
    let pairs = asexual_pairs(vec![(4, 'a'), (2, 'b'), (4, 'c'), (2, 'd')], 2);
    assert_eq!(pairs, Some(vec![((2, 'b'), (2, 'd')), ((4, 'a'), (4, 'c'))]));
    assert_eq!(asexual_pairs(vec![(1, 'a'), (2, 'b')], 1), None);
}

#[test]
fn similar_fitness_pairs_by_distance() {
    let mut rng = StdRng::seed_from_u64(0);
    let pairs = similar_fitness_pairs(&mut rng, vec![10, 11, 12, 13, 14, 15], 2, &vec![1, 1]);
    assert_eq!(pairs, vec![(10, 12), (13, 15)]);
    let pairs = similar_fitness_pairs(&mut rng, vec![10, 11, 12, 13], 2, &vec![0, 0]);
    assert_eq!(pairs, vec![(10, 11), (13, 12)]);
    let pairs = similar_fitness_pairs(&mut rng, vec![10, 11, 12, 13, 14, 15], 2, &vec![3, 0]);
    assert_eq!(pairs, vec![(10, 14), (12, 13)]);
}

#[test]
fn survivors_in_population_order() {
    let ranked = vec![(3, "d"), (0, "a"), (2, "c"), (1, "b")];
    assert_eq!(select_survivors(ranked.clone(), 3), vec![(0, "a"), (2, "c"), (3, "d")]);
    assert_eq!(select_survivors(ranked, 0), vec![]);
}

#[test]
fn pairing_strategies_from_settings() {
    let q = IndividualQuantity::Random;
    let settings = [
        PairingSettings::AsexualPairing { quantity: q },
        PairingSettings::RandomPairing { quantity: q },
        PairingSettings::SimilarFitnessPairing { quantity: q, similarity: 30 },
        PairingSettings::SpatialDistancePairing { quantity: q, desired_individual_distance_percentage: 60 },
    ];
    for s in settings {
        assert_eq!(pairing_from_pairing_settings(s).pairing_settings(), s);
    }
    assert!(matches!(pairing_from_pairing_settings(settings[0]), Pairings::AsexualPairing(_)));
    assert!(matches!(pairing_from_pairing_settings(settings[3]), Pairings::SpatialDistancePairing(_)));
    assert_eq!(SimilarFitnessPairing::new(settings[2]).similarity(), 30);
    assert_eq!(
        SpatialDistancePairing::new(settings[3]).desired_individual_distance_percentage(),
        60
    );
    assert_eq!(RandomPairing::new(settings[1]).pairing_settings(), settings[1]);
    assert_eq!(AsexualPairing::new(settings[0]).pairing_settings(), settings[0]);
}

fn line_ranks() -> Vec<Vec<usize>> {
    // Keys at places 0, 1, 2 and 10 of a line, nearest first.
    vec![vec![0, 1, 2, 3], vec![1, 0, 2, 3], vec![2, 1, 0, 3], vec![3, 2, 1, 0]]
}

#[test]
fn spatial_pairs_take_the_nearest_left() {
    let ranks = line_ranks();
    for seed in 0..8u64 {
        let mut rng = StdRng::seed_from_u64(seed);
        let parents: Vec<(usize, usize)> = (0..4).map(|k| (k, k)).collect();
        let pairs = pairing::ga::spatial_pairs(&mut rng, parents, 2, &ranks, 0);
        assert_eq!(pairs.len(), 2);
        let (a, b) = pairs[0];
        assert_eq!(b, ranks[a][1]);
        let mut all = vec![pairs[0].0, pairs[0].1, pairs[1].0, pairs[1].1];
        all.sort();
        assert_eq!(all, vec![0, 1, 2, 3]);
    }
}

#[test]
fn spatial_pairs_take_the_farthest_when_too_few_are_left() {
    let ranks = line_ranks();
    let mut rng = StdRng::seed_from_u64(3);
    let parents: Vec<(usize, usize)> = (0..4).map(|k| (k, k)).collect();
    let pairs = pairing::ga::spatial_pairs(&mut rng, parents, 1, &ranks, 10);
    let (a, b) = pairs[0];
    assert_eq!(b, ranks[a][3]);
}

#[test]
fn elite_and_anti_elite_leave_the_generator_untouched() {
    let ranking = vec![1, 2, 0];
    let mut rng = StdRng::seed_from_u64(0);
    parent_indices(&mut rng, &IndividualQuantity::Elite { percentage: 100 }, &ranking, 6);
    parent_indices(&mut rng, &IndividualQuantity::AntiElite { percentage: 50 }, &ranking, 5);
    let mut fresh = StdRng::seed_from_u64(0);
    assert_eq!(rng.random_range(0..1000usize), fresh.random_range(0..1000usize));
}

#[test]
fn untaken_numbers_below_a_size() {
    assert_eq!(pairing::permutation::untaken_below(6, &vec![4, 1, 0]), vec![2, 3, 5]);
    assert_eq!(pairing::permutation::untaken_below(3, &vec![0, 1, 2]), Vec::<usize>::new());
}
