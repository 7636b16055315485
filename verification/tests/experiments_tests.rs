use pairing::experiments::{
    e1, e10, e11, e2, e3, e4, e5a, e5b, e6a, e6b, e7, e8, e9, execution_plan,
    genetic_algorithm_settings, latest_run, padded_run_id, product, rofa_problem_settings,
    unique_number_of_file_name,
};
use pairing::settings::{IndividualQuantity, PairingSettings, ProblemSettings};

#[test]
fn experiment_grids() {
    let x = e1();
    assert_eq!(x.name, "e1");
    assert_eq!(x.nodes, vec![25]);
    assert_eq!(x.population_sizes_and_generations, vec![(100, 2000)]);
    assert_eq!(x.survival_rate_percentages, vec![50]);
    assert_eq!(x.mutation_rate_percentages, vec![1]);
    assert_eq!(x.pairing_settings.len(), 4);
    assert_eq!(
        x.pairing_settings[1],
        PairingSettings::RandomPairing { quantity: IndividualQuantity::FitnessProportionate }
    );
    assert_eq!(e2().pairing_settings.len(), 4);
    let three = e3();
    assert_eq!(three.pairing_settings.len(), 10);
    assert_eq!(
        three.pairing_settings[9],
        PairingSettings::SpatialDistancePairing {
            quantity: IndividualQuantity::Random,
            desired_individual_distance_percentage: 100
        }
    );
    assert_eq!(
        e4().pairing_settings[0],
        PairingSettings::SimilarFitnessPairing { quantity: IndividualQuantity::Random, similarity: 10 }
    );
    assert_eq!(e5a().survival_rate_percentages, vec![90]);
    assert_eq!(e5b().survival_rate_percentages, vec![10]);
    assert_eq!(e6a().nodes, vec![10]);
    assert_eq!(e6b().nodes, vec![50]);
    assert_eq!(e7().population_sizes_and_generations, vec![(50, 100)]);
    let eight = e8();
    assert_eq!(eight.name, "e8a");
    assert_eq!(eight.exhaustive_search, Some(("e8b".to_string(), (4, 100, 100, 3))));
    assert_eq!(e9().pairing_settings.len(), 8);
    assert_eq!(e10().mutation_strengths, vec![100]);
    assert_eq!(e11().population_sizes_and_generations, vec![(2, 200000)]);
    assert!(e1().exhaustive_search.is_none());
}

#[test]
fn run_ids_are_padded() {
    assert_eq!(padded_run_id("e1".to_string()), "e1xxxxxxxxxxxx");
    assert_eq!(padded_run_id("e5a".to_string()), "e5axxxxxxxxxxx");
    assert_eq!(padded_run_id("abcdefghijklmnop".to_string()), "abcdefghijklmnop");
    assert_eq!(padded_run_id("é".to_string()).len(), 14);
}

#[test]
fn products_in_run_order() {
    assert_eq!(
        product(&vec![1, 2], &vec!['a', 'b', 'c']),
        vec![(1, 'a'), (1, 'b'), (1, 'c'), (2, 'a'), (2, 'b'), (2, 'c')]
    );
    assert_eq!(product(&Vec::<u8>::new(), &vec![1]), vec![]);
    let mut x = e1();
    x.nodes = vec![4, 5];
    x.link_types = vec![1, 2];
    let settings = rofa_problem_settings(&x);
    assert_eq!(settings.len(), 4);
    assert_eq!(
        settings[1],
        ProblemSettings::Rofa { nodes: 4, links_percentage: 30, demands_percentage: 20, link_types: 2 }
    );
    assert_eq!(
        settings[2],
        ProblemSettings::Rofa { nodes: 5, links_percentage: 30, demands_percentage: 20, link_types: 1 }
    );
    let ga = genetic_algorithm_settings(&e11());
    assert_eq!(ga, vec![((((2, 200000), 40), 10), 2)]);
    let plan = execution_plan(2, 1, 3);
    assert_eq!(
        plan,
        vec![((0, 0), 0), ((0, 0), 1), ((0, 0), 2), ((1, 0), 0), ((1, 0), 1), ((1, 0), 2)]
    );
}

#[test]
fn saved_result_numbers() {
    assert_eq!(unique_number_of_file_name("12.json"), Some(12));
    assert_eq!(unique_number_of_file_name("+7.json"), Some(7));
    assert_eq!(unique_number_of_file_name("007.json"), Some(7));
    assert_eq!(unique_number_of_file_name(".json"), None);
    assert_eq!(unique_number_of_file_name("+.json"), None);
    assert_eq!(unique_number_of_file_name("1a.json"), None);
    assert_eq!(unique_number_of_file_name("12.txt"), None);
    assert_eq!(unique_number_of_file_name("99999999999999999999999.json"), None);
    assert_eq!(
        unique_number_of_file_name(&format!("{}.json", usize::MAX)),
        Some(usize::MAX)
    );
}

#[test]
fn latest_run_directory() {
    let names = vec![
        ".2024-01-01".to_string(),
        "src".to_string(),
        ".2025-03-04".to_string(),
        ".e1xxxxxxxxxxxx".to_string(),
        ".2025-01-09".to_string(),
    ];
    assert_eq!(latest_run(&names), Some("2025-03-04".to_string()));
    assert_eq!(latest_run(&vec!["a".to_string(), ".19".to_string()]), None);
}

#[test]
fn saved_numbers_are_found_again() {
    for n in [0usize, 9, 10, 12345, usize::MAX] {
        let name = pairing::text::usize_to_decimal(n) + ".json";
        assert_eq!(unique_number_of_file_name(&name), Some(n));
    }
}

#[test]
fn as_many_runs_as_combinations() {
    assert_eq!(execution_plan(3, 4, 5).len(), 60);
    assert_eq!(execution_plan(3, 0, 5).len(), 0);
}
