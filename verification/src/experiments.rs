//! The experiments of the study: for each, the grid of problem settings,
//! genetic algorithm settings and pairing strategies that is run; and the
//! bookkeeping of a run: its padded identity, the grids spelled out in the
//! order they are run, the numbers of the results already saved, and the
//! latest run directory.

use vstd::prelude::*;

use crate::settings::{IndividualQuantity, PairingSettings, ProblemSettings};
use crate::text::{
    decimal, digit_char, lex_le, lemma_lex_reflexive, lemma_lex_total, lemma_lex_transitive,
    string_lex_le,
};

verus! {

/// An experiment: the values of each setting that it combines. Rates are in
/// hundredths.
pub struct Experiment {
    pub name: String,
    pub nodes: Vec<usize>,
    pub links_percentages: Vec<usize>,
    pub demands_percentages: Vec<usize>,
    pub link_types: Vec<usize>,
    pub population_sizes_and_generations: Vec<(usize, usize)>,
    pub survival_rate_percentages: Vec<usize>,
    pub mutation_rate_percentages: Vec<usize>,
    pub mutation_strengths: Vec<usize>,
    pub pairing_settings: Vec<PairingSettings>,
    /// A run of the exhaustive search that follows the experiment, with its
    /// identity and its problem settings (nodes, links percentage, demands
    /// percentage, link types).
    pub exhaustive_search: Option<(String, (usize, usize, usize, usize))>,
}

/// The experiment `x` is named `name` and combines one value of each
/// setting: `cfa` gives nodes, links percentage, demands percentage and link
/// types; `ga` gives population size, generations, survival rate, mutation
/// rate (both in hundredths) and mutation strength.
pub open spec fn single_valued(x: Experiment, name: Seq<char>, cfa: (usize, usize, usize, usize), ga: (usize, usize, usize, usize, usize)) -> bool {
    &&& x.name@ == name
    &&& x.nodes@ == seq![cfa.0]
    &&& x.links_percentages@ == seq![cfa.1]
    &&& x.demands_percentages@ == seq![cfa.2]
    &&& x.link_types@ == seq![cfa.3]
    &&& x.population_sizes_and_generations@ == seq![(ga.0, ga.1)]
    &&& x.survival_rate_percentages@ == seq![ga.2]
    &&& x.mutation_rate_percentages@ == seq![ga.3]
    &&& x.mutation_strengths@ == seq![ga.4]
}

/// The four pairing strategies with the given quantity: asexual, random,
/// similar fitness with `similarity`, and spatial distance with `distance`.
pub open spec fn four_pairings(quantity: IndividualQuantity, similarity: usize, distance: usize) -> Seq<PairingSettings> {
    seq![
        PairingSettings::AsexualPairing { quantity },
        PairingSettings::RandomPairing { quantity },
        PairingSettings::SimilarFitnessPairing { quantity, similarity },
        PairingSettings::SpatialDistancePairing { quantity, desired_individual_distance_percentage: distance },
    ]
}

fn experiment(name: &str, cfa: (usize, usize, usize, usize), ga: (usize, usize, usize, usize, usize), pairing_settings: Vec<PairingSettings>) -> (x: Experiment)
    ensures
        single_valued(x, name@, cfa, ga),
        x.pairing_settings@ == pairing_settings@,
        x.exhaustive_search is None,
{
    Experiment {
        name: String::from_str(name),
        nodes: single(cfa.0),
        links_percentages: single(cfa.1),
        demands_percentages: single(cfa.2),
        link_types: single(cfa.3),
        population_sizes_and_generations: single((ga.0, ga.1)),
        survival_rate_percentages: single(ga.2),
        mutation_rate_percentages: single(ga.3),
        mutation_strengths: single(ga.4),
        pairing_settings,
        exhaustive_search: None,
    }
}

fn single<T>(x: T) -> (v: Vec<T>)
    ensures
        v@ == seq![x],
{
    let mut v: Vec<T> = Vec::new();
    v.push(x);
    assert(v@ =~= seq![x]);
    v
}

fn four_pairings_of(quantity: IndividualQuantity, similarity: usize, distance: usize) -> (v: Vec<PairingSettings>)
    ensures
        v@ == four_pairings(quantity, similarity, distance),
{
    let v = vec![
        PairingSettings::AsexualPairing { quantity },
        PairingSettings::RandomPairing { quantity },
        PairingSettings::SimilarFitnessPairing { quantity, similarity },
        PairingSettings::SpatialDistancePairing { quantity, desired_individual_distance_percentage: distance },
    ];
    assert(v@ =~= four_pairings(quantity, similarity, distance));
    v
}

/// Random pairing with each way of drawing the further parents.
pub fn e1() -> (x: Experiment)
    ensures
        single_valued(x, "e1"@, (25, 30, 20, 15), (100, 2000, 50, 1, 1)),
        x.pairing_settings@ == seq![
            PairingSettings::RandomPairing { quantity: IndividualQuantity::Random },
            PairingSettings::RandomPairing { quantity: IndividualQuantity::FitnessProportionate },
            PairingSettings::RandomPairing { quantity: IndividualQuantity::Elite { percentage: 5 } },
            PairingSettings::RandomPairing { quantity: IndividualQuantity::AntiElite { percentage: 5 } },
        ],
        x.exhaustive_search is None,
{
    let pairings = vec![
        PairingSettings::RandomPairing { quantity: IndividualQuantity::Random },
        PairingSettings::RandomPairing { quantity: IndividualQuantity::FitnessProportionate },
        PairingSettings::RandomPairing { quantity: IndividualQuantity::Elite { percentage: 5 } },
        PairingSettings::RandomPairing { quantity: IndividualQuantity::AntiElite { percentage: 5 } },
    ];
    experiment("e1", (25, 30, 20, 15), (100, 2000, 50, 1, 1), pairings)
}

/// The four pairing strategies side by side.
pub fn e2() -> (x: Experiment)
    ensures
        single_valued(x, "e2"@, (25, 30, 20, 15), (100, 2000, 50, 1, 1)),
        x.pairing_settings@ == four_pairings(IndividualQuantity::Random, 100, 10),
        x.exhaustive_search is None,
{
    experiment("e2", (25, 30, 20, 15), (100, 2000, 50, 1, 1), four_pairings_of(IndividualQuantity::Random, 100, 10))
}

/// The settings `first`, `first + step`, ... up to `last`, each made by `make`.
pub open spec fn stepped(first: int, step: int, count: nat, make: spec_fn(usize) -> PairingSettings) -> Seq<PairingSettings> {
    Seq::new(count, |i: int| make((first + i * step) as usize))
}

/// Spatial distance pairing with desired distances 10, 20, ..., 100.
pub fn e3() -> (x: Experiment)
    ensures
        single_valued(x, "e3"@, (25, 30, 20, 15), (100, 2000, 50, 1, 1)),
        x.pairing_settings@ == stepped(10, 10, 10, |d: usize| PairingSettings::SpatialDistancePairing {
            quantity: IndividualQuantity::Random,
            desired_individual_distance_percentage: d,
        }),
        x.exhaustive_search is None,
{
    let mut pairings: Vec<PairingSettings> = Vec::new();
    let mut d: usize = 10;
    while d <= 100
        invariant
            10 <= d <= 110,
            d % 10 == 0,
            pairings@ == stepped(10, 10, ((d - 10) / 10) as nat, |d: usize| PairingSettings::SpatialDistancePairing {
                quantity: IndividualQuantity::Random,
                desired_individual_distance_percentage: d,
            }),
        decreases 110 - d,
    {
        pairings.push(PairingSettings::SpatialDistancePairing {
            quantity: IndividualQuantity::Random,
            desired_individual_distance_percentage: d,
        });
        d = d + 10;
        assert(pairings@ =~= stepped(10, 10, ((d - 10) / 10) as nat, |d: usize| PairingSettings::SpatialDistancePairing {
            quantity: IndividualQuantity::Random,
            desired_individual_distance_percentage: d,
        }));
    }
    experiment("e3", (25, 30, 20, 15), (100, 2000, 50, 1, 1), pairings)
}

/// Similar fitness pairing with similarities 10, 20, ..., 100.
pub fn e4() -> (x: Experiment)
    ensures
        single_valued(x, "e4"@, (25, 30, 20, 15), (100, 2000, 50, 1, 1)),
        x.pairing_settings@ == stepped(10, 10, 10, |s: usize| PairingSettings::SimilarFitnessPairing {
            quantity: IndividualQuantity::Random,
            similarity: s,
        }),
        x.exhaustive_search is None,
{
    let mut pairings: Vec<PairingSettings> = Vec::new();
    let mut s: usize = 10;
    while s <= 100
        invariant
            10 <= s <= 110,
            s % 10 == 0,
            pairings@ == stepped(10, 10, ((s - 10) / 10) as nat, |s: usize| PairingSettings::SimilarFitnessPairing {
                quantity: IndividualQuantity::Random,
                similarity: s,
            }),
        decreases 110 - s,
    {
        pairings.push(PairingSettings::SimilarFitnessPairing { quantity: IndividualQuantity::Random, similarity: s });
        s = s + 10;
        assert(pairings@ =~= stepped(10, 10, ((s - 10) / 10) as nat, |s: usize| PairingSettings::SimilarFitnessPairing {
            quantity: IndividualQuantity::Random,
            similarity: s,
        }));
    }
    experiment("e4", (25, 30, 20, 15), (100, 2000, 50, 1, 1), pairings)
}

/// The four pairing strategies with a high survival rate.
pub fn e5a() -> (x: Experiment)
    ensures
        single_valued(x, "e5a"@, (25, 30, 20, 15), (100, 3000, 90, 1, 1)),
        x.pairing_settings@ == four_pairings(IndividualQuantity::Random, 100, 10),
        x.exhaustive_search is None,
{
    experiment("e5a", (25, 30, 20, 15), (100, 3000, 90, 1, 1), four_pairings_of(IndividualQuantity::Random, 100, 10))
}

/// The four pairing strategies with a low survival rate.
pub fn e5b() -> (x: Experiment)
    ensures
        single_valued(x, "e5b"@, (25, 30, 20, 15), (100, 3000, 10, 1, 1)),
        x.pairing_settings@ == four_pairings(IndividualQuantity::Random, 100, 10),
        x.exhaustive_search is None,
{
    experiment("e5b", (25, 30, 20, 15), (100, 3000, 10, 1, 1), four_pairings_of(IndividualQuantity::Random, 100, 10))
}

/// The four pairing strategies on a small network.
pub fn e6a() -> (x: Experiment)
    ensures
        single_valued(x, "e6a"@, (10, 30, 20, 15), (100, 2000, 50, 1, 1)),
        x.pairing_settings@ == four_pairings(IndividualQuantity::Random, 100, 10),
        x.exhaustive_search is None,
{
    experiment("e6a", (10, 30, 20, 15), (100, 2000, 50, 1, 1), four_pairings_of(IndividualQuantity::Random, 100, 10))
}

/// The four pairing strategies on a large network.
pub fn e6b() -> (x: Experiment)
    ensures
        single_valued(x, "e6b"@, (50, 30, 20, 15), (100, 2000, 50, 1, 1)),
        x.pairing_settings@ == four_pairings(IndividualQuantity::Random, 100, 10),
        x.exhaustive_search is None,
{
    experiment("e6b", (50, 30, 20, 15), (100, 2000, 50, 1, 1), four_pairings_of(IndividualQuantity::Random, 100, 10))
}

/// The four pairing strategies on a very large network, briefly.
pub fn e7() -> (x: Experiment)
    ensures
        single_valued(x, "e7"@, (100, 30, 20, 15), (50, 100, 50, 1, 1)),
        x.pairing_settings@ == four_pairings(IndividualQuantity::Random, 100, 60),
        x.exhaustive_search is None,
{
    experiment("e7", (100, 30, 20, 15), (50, 100, 50, 1, 1), four_pairings_of(IndividualQuantity::Random, 100, 60))
}

/// The four pairing strategies on a tiny instance, followed by an exhaustive
/// search of that instance.
pub fn e8() -> (x: Experiment)
    ensures
        single_valued(x, "e8a"@, (4, 100, 100, 3), (20, 100, 50, 1, 1)),
        x.pairing_settings@ == four_pairings(IndividualQuantity::Random, 100, 60),
        x.exhaustive_search matches Some((name, settings)) && name@ == "e8b"@ && settings == (4usize, 100usize, 100usize, 3usize),
{
    let mut x = experiment("e8a", (4, 100, 100, 3), (20, 100, 50, 1, 1), four_pairings_of(IndividualQuantity::Random, 100, 60));
    x.exhaustive_search = Some((String::from_str("e8b"), (4, 100, 100, 3)));
    x
}

/// The four pairing strategies on the elite and on the anti-elite.
pub fn e9() -> (x: Experiment)
    ensures
        single_valued(x, "e9"@, (25, 30, 20, 15), (100, 2000, 50, 1, 1)),
        x.pairing_settings@ == four_pairings(IndividualQuantity::Elite { percentage: 100 }, 100, 10) + four_pairings(
            IndividualQuantity::AntiElite { percentage: 100 },
            100,
            10,
        ),
        x.exhaustive_search is None,
{
    let mut pairings = four_pairings_of(IndividualQuantity::Elite { percentage: 100 }, 100, 10);
    let mut more = four_pairings_of(IndividualQuantity::AntiElite { percentage: 100 }, 100, 10);
    pairings.append(&mut more);
    experiment("e9", (25, 30, 20, 15), (100, 2000, 50, 1, 1), pairings)
}

/// A single individual that only mutates.
pub fn e10() -> (x: Experiment)
    ensures
        single_valued(x, "e10"@, (25, 30, 20, 15), (1, 200000, 100, 100, 100)),
        x.pairing_settings@ == seq![PairingSettings::AsexualPairing { quantity: IndividualQuantity::Elite { percentage: 100 } }],
        x.exhaustive_search is None,
{
    let pairings = vec![PairingSettings::AsexualPairing { quantity: IndividualQuantity::Elite { percentage: 100 } }];
    experiment("e10", (25, 30, 20, 15), (1, 200000, 100, 100, 100), pairings)
}

/// A parent and its child, as in a (1 + 1) evolution strategy.
pub fn e11() -> (x: Experiment)
    ensures
        single_valued(x, "e11"@, (25, 30, 20, 15), (2, 200000, 40, 10, 2)),
        x.pairing_settings@ == seq![PairingSettings::AsexualPairing { quantity: IndividualQuantity::Elite { percentage: 100 } }],
        x.exhaustive_search is None,
{
    let pairings = vec![PairingSettings::AsexualPairing { quantity: IndividualQuantity::Elite { percentage: 100 } }];
    experiment("e11", (25, 30, 20, 15), (2, 200000, 40, 10, 2), pairings)
}

/// Every pair of an element of `a` and one of `b`, in the order of `a` and,
/// for each, in the order of `b`.
pub open spec fn pairs<A, B>(a: Seq<A>, b: Seq<B>) -> Seq<(A, B)>
    decreases a.len(),
{
    if a.len() == 0 {
        Seq::empty()
    } else {
        pairs(a.drop_last(), b) + b.map_values(|y: B| (a.last(), y))
    }
}

/// There are as many pairs as the product of the lengths.
pub proof fn lemma_pairs_len<A, B>(a: Seq<A>, b: Seq<B>)
    ensures
        pairs(a, b).len() == a.len() * b.len(),
    decreases a.len(),
{
    if a.len() > 0 {
        lemma_pairs_len(a.drop_last(), b);
        assert(a.len() * b.len() == (a.len() - 1) * b.len() + b.len()) by (nonlinear_arith)
            requires
                a.len() > 0,
        ;
    }
}

/// Every pair of an element of `a` and one of `b`, in the order of `a` and,
/// for each, in the order of `b`.
pub fn product<A: Copy, B: Copy>(a: &Vec<A>, b: &Vec<B>) -> (v: Vec<(A, B)>)
    ensures
        v@ == pairs(a@, b@),
{
    let mut v: Vec<(A, B)> = Vec::new();
    let mut i: usize = 0;
    while i < a.len()
        invariant
            i <= a@.len(),
            v@ == pairs(a@.take(i as int), b@),
        decreases a.len() - i,
    {
        let x = a[i];
        let ghost before = v@;
        let mut j: usize = 0;
        while j < b.len()
            invariant
                j <= b@.len(),
                x == a@[i as int],
                v@ == before + b@.take(j as int).map_values(|y: B| (x, y)),
            decreases b.len() - j,
        {
            v.push((x, b[j]));
            j = j + 1;
            assert(v@ =~= before + b@.take(j as int).map_values(|y: B| (x, y)));
        }
        proof {
            assert(b@.take(b@.len() as int) =~= b@);
            assert(a@.take(i + 1).drop_last() =~= a@.take(i as int));
            assert(a@.take(i + 1).last() == x);
        }
        i = i + 1;
    }
    assert(a@.take(a@.len() as int) =~= a@);
    v
}

/// The problem settings of the experiment, in the order they are run: every
/// combination of nodes, links percentage, demands percentage and link types.
pub fn rofa_problem_settings(x: &Experiment) -> (v: Vec<ProblemSettings>)
    ensures
        v@ == pairs(pairs(pairs(x.nodes@, x.links_percentages@), x.demands_percentages@), x.link_types@).map_values(
            |c: (((usize, usize), usize), usize)| ProblemSettings::Rofa {
                nodes: c.0.0.0,
                links_percentage: c.0.0.1,
                demands_percentage: c.0.1,
                link_types: c.1,
            },
        ),
{
    let a = product(&x.nodes, &x.links_percentages);
    let b = product(&a, &x.demands_percentages);
    let c = product(&b, &x.link_types);
    let mut v: Vec<ProblemSettings> = Vec::new();
    let mut i: usize = 0;
    while i < c.len()
        invariant
            i <= c@.len(),
            v@ == c@.take(i as int).map_values(
                |c: (((usize, usize), usize), usize)| ProblemSettings::Rofa {
                    nodes: c.0.0.0,
                    links_percentage: c.0.0.1,
                    demands_percentage: c.0.1,
                    link_types: c.1,
                },
            ),
        decreases c.len() - i,
    {
        let (((n, l), d), t) = c[i];
        v.push(ProblemSettings::Rofa { nodes: n, links_percentage: l, demands_percentage: d, link_types: t });
        i = i + 1;
        assert(v@ =~= c@.take(i as int).map_values(
            |c: (((usize, usize), usize), usize)| ProblemSettings::Rofa {
                nodes: c.0.0.0,
                links_percentage: c.0.0.1,
                demands_percentage: c.0.1,
                link_types: c.1,
            },
        ));
    }
    assert(c@.take(c@.len() as int) =~= c@);
    v
}

/// The genetic algorithm settings of the experiment, in the order they are
/// run: every combination of population size and generations, survival
/// rate, mutation rate and mutation strength.
pub fn genetic_algorithm_settings(x: &Experiment) -> (v: Vec<((((usize, usize), usize), usize), usize)>)
    ensures
        v@ == pairs(
            pairs(pairs(x.population_sizes_and_generations@, x.survival_rate_percentages@), x.mutation_rate_percentages@),
            x.mutation_strengths@,
        ),
{
    let a = product(&x.population_sizes_and_generations, &x.survival_rate_percentages);
    let b = product(&a, &x.mutation_rate_percentages);
    product(&b, &x.mutation_strengths)
}

/// The numbers `0..n`.
pub fn numbers_below(n: usize) -> (v: Vec<usize>)
    ensures
        v@.len() == n,
        forall|i: int| 0 <= i < n ==> #[trigger] v@[i] == i,
{
    let mut v: Vec<usize> = Vec::new();
    let mut i: usize = 0;
    while i < n
        invariant
            i <= n,
            v@.len() == i,
            forall|k: int| 0 <= k < i ==> #[trigger] v@[k] == k,
        decreases n - i,
    {
        v.push(i);
        i = i + 1;
    }
    v
}

/// The runs of an experiment, in order; the position of a run is its unique
/// number. Each run is a combination of a genetic algorithm setting, a
/// pairing setting and a problem, given by their positions.
pub fn execution_plan(genetic_algorithm_settings: usize, pairing_settings: usize, problems: usize) -> (v: Vec<((usize, usize), usize)>)
    ensures
        exists|g: Seq<usize>, p: Seq<usize>, r: Seq<usize>|
            g.len() == genetic_algorithm_settings && p.len() == pairing_settings && r.len() == problems
                && (forall|i: int| 0 <= i < g.len() ==> #[trigger] g[i] == i) && (forall|i: int| 0 <= i < p.len() ==> #[trigger] p[i] == i)
                && (forall|i: int| 0 <= i < r.len() ==> #[trigger] r[i] == i) && v@ == #[trigger] pairs(pairs(g, p), r),
        v@.len() == genetic_algorithm_settings * pairing_settings * problems,
{
    let g = numbers_below(genetic_algorithm_settings);
    let p = numbers_below(pairing_settings);
    let r = numbers_below(problems);
    let gp = product(&g, &p);
    let v = product(&gp, &r);
    proof {
        lemma_pairs_len(g@, p@);
        lemma_pairs_len(pairs(g@, p@), r@);
    }
    assert(v@ == pairs(pairs(g@, p@), r@));
    v
}

/// The byte length of `s` in UTF-8, as `str::len` gives it.
pub open spec fn byte_len(s: Seq<char>) -> usize {
    vstd::utf8::encode_utf8(s).len() as usize
}

/// Run identities are 14 bytes long: a shorter one is padded with `x`.
pub open spec fn padded(run_id: Seq<char>) -> Seq<char> {
    let n = byte_len(run_id);
    if n >= 14 {
        run_id
    } else {
        run_id + Seq::new((14 - n) as nat, |i: int| 'x')
    }
}

/// The run identity, padded with `x` to 14 bytes where it is shorter.
pub fn padded_run_id(run_id: String) -> (id: String)
    ensures
        id@ == padded(run_id@),
{
    let mut id = run_id;
    let ghost initial = id@;
    let length = id.as_str().len();
    if length >= 14 {
        return id;
    }
    let mut k: usize = length;
    proof {
        assert(initial + Seq::new(0, |i: int| 'x') =~= initial);
    }
    while k < 14
        invariant
            length == byte_len(initial),
            length <= k <= 14,
            id@ == initial + Seq::new((k - length) as nat, |i: int| 'x'),
        decreases 14 - k,
    {
        id.append("x");
        proof {
            reveal_strlit("x");
            assert(id@ =~= initial + Seq::new((k + 1 - length) as nat, |i: int| 'x'));
        }
        k = k + 1;
    }
    id
}

/// The number of a saved result from the name of its file: the decimal
/// digits before `.json`, with an optional leading `+`, as `usize` parses
/// them, where the value fits.
pub open spec fn saved_number(name: Seq<char>) -> Option<nat> {
    if name.len() >= 5 && name.subrange(name.len() - 5, name.len() as int) == ".json"@ {
        let body = unsigned(name.subrange(0, name.len() - 5));
        if body.len() > 0 && all_digits(body) && digits_value(body) <= usize::MAX {
            Some(digits_value(body))
        } else {
            None
        }
    } else {
        None
    }
}

/// The digits of a number, without the `+` that may lead them.
pub open spec fn unsigned(stem: Seq<char>) -> Seq<char> {
    if stem.len() > 0 && stem[0] == '+' {
        stem.drop_first()
    } else {
        stem
    }
}

/// Every character is a decimal digit.
pub open spec fn all_digits(s: Seq<char>) -> bool {
    forall|i: int| 0 <= i < s.len() ==> is_digit(#[trigger] s[i])
}

/// A decimal digit.
pub open spec fn is_digit(c: char) -> bool {
    '0' <= c && c <= '9'
}

/// The value of a sequence of decimal digits.
pub open spec fn digits_value(s: Seq<char>) -> nat
    decreases s.len(),
{
    if s.len() == 0 {
        0
    } else {
        digits_value(s.drop_last()) * 10 + ((s.last() as u32) - ('0' as u32)) as nat
    }
}

/// The number of a saved result from the name of its file (see
/// `saved_number`), or `None` where the name is not of that form.
#[verifier::loop_isolation(false)]
pub fn unique_number_of_file_name(name: &str) -> (r: Option<usize>)
    ensures
        r matches Some(v) ==> saved_number(name@) == Some(v as nat),
        r is None ==> saved_number(name@) is None,
{
    let n = name.unicode_len();
    proof {
        reveal_strlit(".json");
    }
    if n < 5 {
        return None;
    }
    let suffix = name.get_char(n - 5) == '.' && name.get_char(n - 4) == 'j' && name.get_char(n - 3) == 's'
        && name.get_char(n - 2) == 'o' && name.get_char(n - 1) == 'n';
    proof {
        let tail = name@.subrange(n - 5, n as int);
        if suffix {
            assert(tail =~= ".json"@);
        } else {
            assert(tail != ".json"@) by {
                if tail == ".json"@ {
                    assert(tail[0] == '.' && tail[1] == 'j' && tail[2] == 's' && tail[3] == 'o' && tail[4] == 'n');
                }
            }
        }
    }
    if !suffix {
        return None;
    }
    let ghost stem = name@.subrange(0, n - 5);
    let mut start: usize = 0;
    if n > 5 && name.get_char(0) == '+' {
        start = 1;
    }
    let ghost body = stem.subrange(start as int, stem.len() as int);
    proof {
        assert(stem.len() == n - 5);
        if n > 5 {
            assert(stem[0] == name@[0]);
        }
        if start == 1 {
            assert(body =~= stem.drop_first());
        } else {
            assert(body =~= stem);
        }
        assert(body == unsigned(stem));
        assert(name@.subrange(0, name@.len() - 5) == stem);
    }
    if start == n - 5 {
        return None;
    }
    let mut value: usize = 0;
    let mut i: usize = start;
    while i < n - 5
        invariant
            n == name@.len(),
            n >= 5,
            start <= i <= n - 5,
            stem == name@.subrange(0, n - 5),
            body == stem.subrange(start as int, stem.len() as int),
            forall|k: int| start <= k < i ==> is_digit(#[trigger] stem[k]),
            value == digits_value(stem.subrange(start as int, i as int)),
        decreases n - 5 - i,
    {
        let c = name.get_char(i);
        proof {
            assert(stem.subrange(start as int, i + 1).drop_last() =~= stem.subrange(start as int, i as int));
            assert(stem[i as int] == c);
        }
        if c < '0' || c > '9' {
            proof {
                assert(body[i - start] == c);
                assert(!is_digit(body[i - start]));
                assert(!all_digits(body));
            }
            return None;
        }
        let d = (c as u32 - '0' as u32) as usize;
        let shifted = match value.checked_mul(10) {
            Some(s) => s,
            None => {
                proof {
                    lemma_digits_value_prefix(body, i - start + 1);
                    assert(body.take(i - start + 1) =~= stem.subrange(start as int, i + 1));
                }
                return None;
            },
        };
        value = match shifted.checked_add(d) {
            Some(v) => v,
            None => {
                proof {
                    lemma_digits_value_prefix(body, i - start + 1);
                    assert(body.take(i - start + 1) =~= stem.subrange(start as int, i + 1));
                }
                return None;
            },
        };
        i = i + 1;
    }
    assert(stem.subrange(start as int, (n - 5) as int) =~= body);
    Some(value)
}

/// A prefix of a digit sequence is worth no more than the sequence.
proof fn lemma_digits_value_prefix(s: Seq<char>, k: int)
    requires
        0 <= k <= s.len(),
    ensures
        digits_value(s.take(k)) <= digits_value(s),
    decreases s.len() - k,
{
    if k < s.len() {
        lemma_digits_value_prefix(s, k + 1);
        assert(s.take(k + 1).drop_last() =~= s.take(k));
    } else {
        assert(s.take(k) =~= s);
    }
}

/// The decimal notation of a number is worth that number.
pub proof fn lemma_digits_value_of_decimal(n: nat)
    ensures
        all_digits(decimal(n)),
        decimal(n).len() > 0,
        digits_value(decimal(n)) == n,
        decimal(n)[0] != '+',
    decreases n,
{
    let d = decimal(n);
    let c = digit_char(n % 10);
    assert((c as u32) == 48 + n % 10);
    assert(('0' as u32) == 48);
    assert(n == (n / 10) * 10 + n % 10) by (nonlinear_arith);
    if n < 10 {
        assert(d == seq![c]);
        assert(d.drop_last() =~= Seq::<char>::empty());
        assert(d.last() == c);
        assert(digits_value(d.drop_last()) == 0);
        assert(((c as u32) - ('0' as u32)) as nat == n % 10);
        assert(digits_value(d) == n);
    } else {
        lemma_digits_value_of_decimal(n / 10);
        let front = decimal(n / 10);
        assert(d == front + seq![c]);
        assert(d.drop_last() =~= front);
        assert(d.last() == c);
        assert(((c as u32) - ('0' as u32)) as nat == n % 10);
        assert(digits_value(d) == digits_value(front) * 10 + n % 10);
        assert(d[0] == front[0]);
        assert forall|i: int| 0 <= i < d.len() implies is_digit(#[trigger] d[i]) by {
            if i < front.len() {
                assert(d[i] == front[i]);
            }
        }
    }
}

/// A result saved under its number in decimal, followed by `.json`, is
/// found again under that number.
pub proof fn lemma_saved_number_of_decimal(n: nat)
    requires
        n <= usize::MAX,
    ensures
        saved_number(decimal(n) + ".json"@) == Some(n),
{
    reveal_strlit(".json");
    lemma_digits_value_of_decimal(n);
    let name = decimal(n) + ".json"@;
    assert(name.subrange(name.len() - 5, name.len() as int) =~= ".json"@);
    assert(name.subrange(0, name.len() - 5) =~= decimal(n));
    assert(unsigned(decimal(n)) == decimal(n));
}

/// The name starts with `.20`, as the names of run directories do.
pub open spec fn is_run_directory(name: Seq<char>) -> bool {
    name.len() >= 3 && name[0] == '.' && name[1] == '2' && name[2] == '0'
}

/// The latest run directory among `names`: that of the run directories that
/// comes last in lexicographic order, without its leading `.`; `None` where
/// there is no run directory.
pub fn latest_run(names: &Vec<String>) -> (r: Option<String>)
    ensures
        r is None <==> (forall|i: int| 0 <= i < names@.len() ==> !is_run_directory(#[trigger] names@[i]@)),
        r matches Some(run) ==> exists|i: int| 0 <= i < names@.len() && is_run_directory(#[trigger] names@[i]@)
            && run@ == names@[i]@.drop_first()
            && forall|j: int| 0 <= j < names@.len() && is_run_directory(#[trigger] names@[j]@) ==> lex_le(names@[j]@, names@[i]@),
{
    let mut best: Option<usize> = None;
    let mut k: usize = 0;
    while k < names.len()
        invariant
            k <= names@.len(),
            best is None <==> (forall|i: int| 0 <= i < k ==> !is_run_directory(#[trigger] names@[i]@)),
            best matches Some(b) ==> b < k && is_run_directory(names@[b as int]@)
                && forall|j: int| 0 <= j < k && is_run_directory(#[trigger] names@[j]@) ==> lex_le(names@[j]@, names@[b as int]@),
        decreases names.len() - k,
    {
        let name = names[k].as_str();
        let candidate = name.unicode_len() >= 3 && name.get_char(0) == '.' && name.get_char(1) == '2' && name.get_char(2) == '0';
        assert(candidate == is_run_directory(names@[k as int]@));
        if candidate {
            match best {
                None => {
                    proof {
                        lemma_lex_reflexive(names@[k as int]@);
                    }
                    best = Some(k);
                },
                Some(b) => {
                    if !string_lex_le(&names[k], &names[b]) {
                        proof {
                            lemma_lex_total(names@[k as int]@, names@[b as int]@);
                            lemma_lex_reflexive(names@[k as int]@);
                            assert forall|j: int| 0 <= j < k + 1 && is_run_directory(#[trigger] names@[j]@) implies lex_le(names@[j]@, names@[k as int]@) by {
                                if j < k {
                                    lemma_lex_transitive(names@[j]@, names@[b as int]@, names@[k as int]@);
                                }
                            }
                        }
                        best = Some(k);
                    }
                },
            }
        }
        k = k + 1;
    }
    match best {
        None => None,
        Some(b) => {
            let full = names[b].as_str();
            let n = full.unicode_len();
            Some(String::from_str(full.substring_char(1, n)))
        },
    }
}

} // verus!
