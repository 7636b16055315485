use pairing::math::transpose;
use pairing::settings::{IndividualQuantity, PairingSettings, ProblemSettings};
use pairing::synchronization::Semaphore;
use pairing::text::{split_on_slash, string_lex_le, usize_to_decimal};

#[test]
fn problem_settings_descriptions() {
    assert_eq!(ProblemSettings::Tsp { size: 10 }.description(), "Tsp size:10");
    let rofa = ProblemSettings::Rofa {
        nodes: 25,
        links_percentage: 30,
        demands_percentage: 20,
        link_types: 15,
    };
    assert_eq!(
        rofa.description(),
        "Rofa nodes:25 links_per:30 demands_per:20 link_types:15"
    );
}

#[test]
fn individual_quantity_descriptions() {
    assert_eq!(IndividualQuantity::Random.description(), "Random");
    assert_eq!(
        IndividualQuantity::Elite { percentage: 5 }.description(),
        "Elite(5%)"
    );
    assert_eq!(
        IndividualQuantity::AntiElite { percentage: 100 }.description(),
        "AntiElite(100%)"
    );
    assert_eq!(
        IndividualQuantity::FitnessProportionate.description(),
        "FitnessProportionate"
    );
}

#[test]
fn pairing_settings_descriptions_and_quantities() {
    let q = IndividualQuantity::Elite { percentage: 5 };
    let asexual = PairingSettings::AsexualPairing { quantity: q };
    let random = PairingSettings::RandomPairing { quantity: IndividualQuantity::Random };
    let similar = PairingSettings::SimilarFitnessPairing { quantity: q, similarity: 40 };
    let spatial = PairingSettings::SpatialDistancePairing {
        quantity: IndividualQuantity::FitnessProportionate,
        desired_individual_distance_percentage: 10,
    };
    assert_eq!(asexual.description(), "Asexual<Elite(5%)>");
    assert_eq!(random.description(), "Random<Random>");
    assert_eq!(similar.description(), "SimilarFitness(40%)<Elite(5%)>");
    assert_eq!(
        spatial.description(),
        "SpatialDistance(10%)<FitnessProportionate>"
    );
    assert_eq!(*asexual.quantity(), q);
    assert_eq!(*similar.quantity(), q);
    assert_eq!(*spatial.quantity(), IndividualQuantity::FitnessProportionate);
}

#[test]
fn decimal_rendering() {
    assert_eq!(usize_to_decimal(0), "0");
    assert_eq!(usize_to_decimal(7), "7");
    assert_eq!(usize_to_decimal(1203), "1203");
    assert_eq!(usize_to_decimal(usize::MAX), usize::MAX.to_string());
}

#[test]
fn splitting_on_slashes() {
    assert_eq!(split_on_slash("results/run/0.json"), vec!["results", "run", "0.json"]);
    assert_eq!(split_on_slash(""), vec![""]);
    assert_eq!(split_on_slash("/a//"), vec!["", "a", "", ""]);
}

#[test]
fn lexicographic_order_of_strings() {
    let a = "abc".to_string();
    let b = "abd".to_string();
    let c = "ab".to_string();
    assert!(string_lex_le(&a, &b));
    assert!(!string_lex_le(&b, &a));
    assert!(string_lex_le(&c, &a));
    assert!(!string_lex_le(&a, &c));
    assert!(string_lex_le(&a, &a));
    assert!(string_lex_le(&"".to_string(), &c));
}

#[test]
fn transpose_rows_and_columns() {
    let m = vec![vec![1, 2, 3], vec![4, 5, 6]];
    let t = transpose(m.clone());
    assert_eq!(t, vec![vec![1, 4], vec![2, 5], vec![3, 6]]);
    assert_eq!(transpose(t), m);
    let empty: Vec<Vec<u8>> = vec![vec![]];
    assert_eq!(transpose(empty), Vec::<Vec<u8>>::new());
}

#[test]
fn semaphore_counts_holders() {
    let mut s = Semaphore::new(2);
    assert_eq!(s.current(), 0);
    assert!(s.acquire());
    assert!(s.acquire());
    assert!(!s.acquire());
    assert_eq!(s.current(), 2);
    s.release();
    assert_eq!(s.current(), 1);
    assert!(s.acquire());
    s.release();
    s.release();
    assert_eq!(s.current(), 0);
}

#[test]
fn semaphore_release_undoes_acquire() {
    let mut s = Semaphore::new(3);
    assert!(s.acquire());
    let before = s.current();
    assert!(s.acquire());
    s.release();
    assert_eq!(s.current(), before);
}

#[test]
fn semaphore_without_slots_never_admits() {
    let mut s = Semaphore::new(0);
    assert!(!s.acquire());
    assert_eq!(s.current(), 0);
}


#[test]
fn holders_never_exceed_the_bound() {
    let mut s = Semaphore::new(2);
    let mut acquired = 0usize;
    let mut released = 0usize;
    for step in 0..20 {
        if step % 3 == 2 && s.current() > 0 {
            s.release();
            released += 1;
        } else if s.acquire() {
            acquired += 1;
        }
        assert_eq!(s.current(), acquired - released);
        assert!(s.current() <= 2);
    }
}
