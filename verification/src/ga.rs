//! The integer side of the genetic algorithm's parent selection and pairing
//! strategies. Whatever compares fitness values (which are floating point)
//! happens before these functions and reaches them as an order of indices.

use rand::rngs::StdRng;
use vstd::prelude::*;

use crate::permutation::is_permutation;
use crate::random::{random_below, shuffle};
use crate::settings::{IndividualQuantity, PairingSettings};

verus! {

/// How many individuals survive the truncation of the elite (or anti-elite)
/// strategy: the quantity's number times the number of individuals, capped
/// by the number of individuals.
pub open spec fn kept_individuals(percentage: nat, n: nat) -> nat {
    if percentage * n < n {
        percentage * n
    } else {
        n
    }
}

/// Which position of the fitness ranking the `i`-th extra parent of the elite
/// strategy takes.
pub open spec fn elite_pick(n: nat, i: nat) -> int {
    if n == 1 {
        0
    } else {
        (i % (n - 1) as nat) as int
    }
}

/// Which position of the fitness ranking the `i`-th extra parent of the
/// anti-elite strategy takes.
pub open spec fn anti_elite_pick(n: nat, i: nat) -> int {
    (i % (n - 1) as nat) as int
}

/// The quantities whose parent selection reads no fitness values beyond a
/// ranking, and on which the selection finishes without a panic.
pub open spec fn selectable(quantity: IndividualQuantity, n: nat, number_parents: nat) -> bool {
    match quantity {
        IndividualQuantity::Random => n > 0 || number_parents == 0,
        IndividualQuantity::Elite { percentage } => kept_individuals(percentage as nat, n) == n && (
        n >= 1 || number_parents == n),
        IndividualQuantity::AntiElite { percentage } => kept_individuals(percentage as nat, n) == n
            && (n >= 2 || number_parents == n),
        IndividualQuantity::FitnessProportionate => false,
    }
}

/// Parent selection, by index into the list of `n` selected individuals,
/// where `ranking` orders those indices by fitness (best first for the elite
/// strategy, worst first for the anti-elite one). Every selected individual is
/// a parent; the parents that are missing to `number_parents` are drawn at
/// random or taken round-robin from the ranking; the whole list then repeats
/// once, so that every parent can take part in two pairs.
pub fn parent_indices(
    rng: &mut StdRng,
    quantity: &IndividualQuantity,
    ranking: &Vec<usize>,
    number_parents: usize,
) -> (parents: Vec<usize>)
    requires
        ranking@.len() <= number_parents <= usize::MAX / 2,
        is_permutation(ranking@, ranking@.len()),
        selectable(*quantity, ranking@.len(), number_parents as nat),
    ensures
        parents@.len() == 2 * number_parents,
        (*quantity is Elite || *quantity is AntiElite) ==> *final(rng) == *old(rng),
        forall|i: int|
            0 <= i < number_parents ==> #[trigger] parents@[number_parents + i] == parents@[i],
        forall|i: int| 0 <= i < ranking@.len() ==> #[trigger] parents@[i] == i,
        forall|i: int|
            ranking@.len() <= i < number_parents ==> {
                let n = ranking@.len();
                let extra = (i - n) as nat;
                match *quantity {
                    IndividualQuantity::Random => #[trigger] parents@[i] < n,
                    IndividualQuantity::Elite { .. } => parents@[i] == ranking@[elite_pick(n, extra)],
                    IndividualQuantity::AntiElite { .. } => parents@[i] == ranking@[anti_elite_pick(
                        n,
                        extra,
                    )],
                    IndividualQuantity::FitnessProportionate => false,
                }
            },
{
    let n = ranking.len();
    let mut first_parents: Vec<usize> = Vec::new();
    let mut k: usize = 0;
    while k < n
        invariant
            k <= n,
            first_parents@ == Seq::new(k as nat, |i: int| i as usize),
        decreases n - k,
    {
        first_parents.push(k);
        k = k + 1;
    }
    let mut i: usize = 0;
    while i < number_parents - n
        invariant
            n == ranking@.len(),
            n <= number_parents,
            is_permutation(ranking@, n as nat),
            selectable(*quantity, n as nat, number_parents as nat),
            (*quantity is Elite || *quantity is AntiElite) ==> *rng == *old(rng),
            i <= number_parents - n,
            first_parents@.len() == n + i,
            forall|j: int| 0 <= j < n ==> #[trigger] first_parents@[j] == j,
            forall|j: int|
                n <= j < n + i ==> {
                    let extra = (j - n) as nat;
                    match *quantity {
                        IndividualQuantity::Random => #[trigger] first_parents@[j] < n,
                        IndividualQuantity::Elite { .. } => first_parents@[j]
                            == ranking@[elite_pick(n as nat, extra)],
                        IndividualQuantity::AntiElite { .. } => first_parents@[j]
                            == ranking@[anti_elite_pick(n as nat, extra)],
                        IndividualQuantity::FitnessProportionate => false,
                    }
                },
        decreases number_parents - n - i,
    {
        let pick = match quantity {
            IndividualQuantity::Random => random_below(rng, n),
            IndividualQuantity::Elite { .. } => {
                let index = if n == 1 {
                    0
                } else {
                    i % (n - 1)
                };
                ranking[index]
            },
            IndividualQuantity::AntiElite { .. } => ranking[i % (n - 1)],
            IndividualQuantity::FitnessProportionate => {
                assert(false);
                0
            },
        };
        first_parents.push(pick);
        i = i + 1;
    }
    let mut parents: Vec<usize> = Vec::new();
    let mut round: usize = 0;
    while round < 2
        invariant
            round <= 2,
            first_parents@.len() == number_parents,
            parents@.len() == round * number_parents,
            forall|j: int| 0 <= j < parents@.len() ==> #[trigger] parents@[j]
                == first_parents@[j % number_parents as int],
        decreases 2 - round,
    {
        let mut j: usize = 0;
        while j < number_parents
            invariant
                round < 2,
                j <= number_parents,
                first_parents@.len() == number_parents,
                parents@.len() == round * number_parents + j,
                forall|m: int| 0 <= m < parents@.len() ==> #[trigger] parents@[m]
                    == first_parents@[m % number_parents as int],
            decreases number_parents - j,
        {
            proof {
                vstd::arithmetic::div_mod::lemma_mod_multiples_vanish(
                    round as int,
                    j as int,
                    number_parents as int,
                );
                vstd::arithmetic::div_mod::lemma_small_mod(j as nat, number_parents as nat);
            }
            parents.push(first_parents[j]);
            j = j + 1;
        }
        assert((round + 1) * number_parents == round * number_parents + number_parents)
            by (nonlinear_arith);
        round = round + 1;
    }
    proof {
        assert forall|m: int| 0 <= m < number_parents implies #[trigger] parents@[number_parents
            + m] == parents@[m] by {
            vstd::arithmetic::div_mod::lemma_small_mod(m as nat, number_parents as nat);
            vstd::arithmetic::div_mod::lemma_mod_add_multiples_vanish(m, number_parents as int);
        }
        assert forall|m: int| 0 <= m < number_parents implies #[trigger] parents@[m]
            == first_parents@[m] by {
            vstd::arithmetic::div_mod::lemma_small_mod(m as nat, number_parents as nat);
        }
    }
    parents
}

/// `pairs` are the first `size` pairs of consecutive elements of `list`.
pub open spec fn consecutive_pairs_of<T>(pairs: Seq<(T, T)>, list: Seq<T>, size: nat) -> bool {
    &&& pairs.len() == size
    &&& 2 * size <= list.len()
    &&& forall|k: int| 0 <= k < size ==> #[trigger] pairs[k] == (list[2 * k], list[2 * k + 1])
}

/// Consecutive elements of `parents` form the pairs: the first two, the next
/// two, and so on, `size` times.
pub fn pair_consecutive<T>(parents: Vec<T>, size: usize) -> (pairs: Vec<(T, T)>)
    requires
        2 * size <= parents@.len(),
    ensures
        consecutive_pairs_of(pairs@, parents@, size as nat),
{
    let ghost initial = parents@;
    let mut rest = parents;
    let mut pairs: Vec<(T, T)> = Vec::new();
    let mut k: usize = 0;
    while k < size
        invariant
            k <= size,
            2 * size <= initial.len(),
            rest@ == initial.skip(2 * k),
            pairs@.len() == k,
            forall|m: int|
                0 <= m < k ==> #[trigger] pairs@[m] == (initial[2 * m], initial[2 * m + 1]),
        decreases size - k,
    {
        let first = rest.remove(0);
        let second = rest.remove(0);
        pairs.push((first, second));
        assert(rest@ =~= initial.skip(2 * (k + 1)));
        k = k + 1;
    }
    pairs
}

/// Random pairing: the parents are shuffled, then consecutive ones pair up.
pub fn random_pairs<T>(rng: &mut StdRng, parents: Vec<T>, size: usize) -> (pairs: Vec<(T, T)>)
    requires
        2 * size <= parents@.len(),
    ensures
        exists|shuffled: Seq<T>|
            shuffled.to_multiset() == parents@.to_multiset() && #[trigger] consecutive_pairs_of(
                pairs@,
                shuffled,
                size as nat,
            ),
{
    let mut parents = parents;
    let ghost before = parents@;
    shuffle(rng, &mut parents);
    proof {
        vstd::seq_lib::to_multiset_len(before);
        vstd::seq_lib::to_multiset_len(parents@);
    }
    let ghost shuffled = parents@;
    let pairs = pair_consecutive(parents, size);
    assert(shuffled.to_multiset() == before.to_multiset() && consecutive_pairs_of(
        pairs@,
        shuffled,
        size as nat,
    ));
    pairs
}

/// The individual at the desired rank of closeness: among the candidates
/// ordered by their distance, the one at rank `desired`, or the farthest one
/// when there are fewer candidates. (Candidates are tried outwards from the
/// desired rank; the first that exists is taken.)
pub fn close_individual(ids_by_distance: &Vec<usize>, desired: usize) -> (id: usize)
    requires
        ids_by_distance@.len() > 0,
        desired <= usize::MAX / 2,
    ensures
        id == ids_by_distance@[if desired < ids_by_distance@.len() {
            desired as int
        } else {
            ids_by_distance@.len() - 1
        }],
        id == ids_by_distance@[closest_rank(desired as nat, ids_by_distance@.len())],
{
    let len = ids_by_distance.len();
    let mut found: Vec<usize> = Vec::new();
    let mut delta: usize = 0;
    while delta <= desired
        invariant
            len == ids_by_distance@.len(),
            len > 0,
            desired <= usize::MAX / 2,
            delta <= desired + 1,
            delta == 0 ==> found@.len() == 0,
            desired < len ==> delta > 0 ==> found@.len() > 0 && found@[0] == ids_by_distance@[desired as int],
            desired >= len ==> (delta <= desired - len + 1 ==> found@.len() == 0),
            desired >= len ==> delta > desired - len + 1 ==> found@.len() > 0 && found@[0]
                == ids_by_distance@[len - 1],
        decreases desired + 1 - delta,
    {
        let ghost before = found@;
        let upper = desired + delta;
        if upper < len {
            found.push(ids_by_distance[upper]);
        }
        let lower = desired - delta;
        if lower < len {
            found.push(ids_by_distance[lower]);
        }
        proof {
            if before.len() > 0 {
                assert(found@[0] == before[0]);
            }
        }
        delta = delta + 1;
    }
    found[0]
}

/// The place of the individual at the desired rank of closeness among
/// `len` candidates: the desired rank, or the last place when there are
/// fewer candidates.
pub open spec fn closest_rank(desired: nat, len: nat) -> int {
    if desired < len {
        desired as int
    } else {
        len - 1
    }
}

/// The partner's rank is the candidate rank nearest to the desired one, and
/// no other rank is as near: the desired rank itself where there are that
/// many candidates, else the farthest candidate.
pub proof fn lemma_closest_rank_is_nearest(desired: nat, len: nat)
    requires
        len > 0,
    ensures
        0 <= closest_rank(desired, len) < len,
        forall|r: int|
            0 <= r < len && r != closest_rank(desired, len) ==> #[trigger] nat_distance(r, desired as int) > nat_distance(
                closest_rank(desired, len),
                desired as int,
            ),
        desired < len ==> closest_rank(desired, len) == desired,
{
}

/// How far apart two integers are.
pub open spec fn nat_distance(a: int, b: int) -> int {
    if a < b {
        b - a
    } else {
        a - b
    }
}

/// Some entry of `s` has the key `id`.
pub open spec fn has_id<T>(s: Seq<(usize, T)>, id: usize) -> bool {
    exists|j: int| 0 <= j < s.len() && #[trigger] s[j].0 == id
}

/// The place of the first entry of `s` with the key `id`.
pub open spec fn first_with_id<T>(s: Seq<(usize, T)>, id: usize) -> int {
    choose|k: int| 0 <= k < s.len() && s[k].0 == id && forall|j: int| 0 <= j < k ==> #[trigger] s[j].0 != id
}

/// The ids of `ranking` that are keys of `s`, in the order of `ranking`.
pub open spec fn present_ids<T>(ranking: Seq<usize>, s: Seq<(usize, T)>) -> Seq<usize>
    decreases ranking.len(),
{
    if ranking.len() == 0 {
        Seq::empty()
    } else {
        present_ids(ranking.drop_last(), s) + if has_id(s, ranking.last()) {
            seq![ranking.last()]
        } else {
            Seq::empty()
        }
    }
}

/// The candidates are the ranked keys that some entry of `s` has, each as
/// often as the ranking lists it, in the ranking's order: an id is among them
/// exactly when the ranking lists it and `s` holds it.
pub proof fn lemma_present_ids_are_ranked_and_present<T>(ranking: Seq<usize>, s: Seq<(usize, T)>)
    ensures
        forall|x: usize| #[trigger] present_ids(ranking, s).contains(x) <==> (ranking.contains(x) && has_id(s, x)),
        present_ids(ranking, s).len() <= ranking.len(),
        ranking.no_duplicates() ==> present_ids(ranking, s).no_duplicates(),
    decreases ranking.len(),
{
    if ranking.len() > 0 {
        let front = ranking.drop_last();
        let x0 = ranking.last();
        lemma_present_ids_are_ranked_and_present(front, s);
        let p0 = present_ids(front, s);
        let p = present_ids(ranking, s);
        if has_id(s, x0) {
            assert(p == p0.push(x0));
        } else {
            assert(p == p0);
        }
        assert forall|x: usize| #[trigger] p.contains(x) <==> (ranking.contains(x) && has_id(s, x)) by {
            if p.contains(x) {
                let k = choose|k: int| 0 <= k < p.len() && p[k] == x;
                if k < p0.len() {
                    assert(p0[k] == x);
                    assert(p0.contains(x));
                    assert(front.contains(x));
                    let w = choose|w: int| 0 <= w < front.len() && front[w] == x;
                    assert(front[w] == ranking[w]);
                    assert(ranking[w] == x);
                } else {
                    assert(x == x0);
                    assert(ranking[ranking.len() - 1] == x);
                }
            }
            if ranking.contains(x) && has_id(s, x) {
                let w = choose|w: int| 0 <= w < ranking.len() && ranking[w] == x;
                if w < ranking.len() - 1 {
                    assert(front[w] == x);
                    assert(front.contains(x));
                    assert(p0.contains(x));
                    let k = choose|k: int| 0 <= k < p0.len() && p0[k] == x;
                    assert(p[k] == x);
                } else {
                    assert(p[p.len() - 1] == x);
                }
            }
        }
        if ranking.no_duplicates() {
            assert(front.no_duplicates());
            if has_id(s, x0) {
                assert(!p0.contains(x0)) by {
                    if p0.contains(x0) {
                        let w = choose|w: int| 0 <= w < front.len() && front[w] == x0;
                        assert(ranking[w] == ranking[ranking.len() - 1]);
                    }
                }
                assert forall|i: int, j: int| 0 <= i < j < p.len() implies p[i] != p[j] by {
                    if j == p.len() - 1 {
                        assert(p[i] == p0[i]);
                    } else {
                        assert(p[i] == p0[i] && p[j] == p0[j]);
                    }
                }
            }
        }
    }
}

/// The pairs that spatial distance pairing forms from round `i` on, out of
/// `list` (each parent with its key): in round `i` the parent at the drawn
/// place `draws[i]` is taken out; its partner is the parent, among the rest,
/// whose key stands at the desired rank of closeness (`closest_rank`) among
/// the keys of the rest, ranked by their distance from the first parent
/// (`ranks` at the first parent's key); the first parent with that key is
/// taken out too. `None` where a draw is out of range or no candidate is left.
pub open spec fn spatial_run<T>(
    list: Seq<(usize, T)>,
    i: nat,
    size: nat,
    ranks: Seq<Vec<usize>>,
    desired: nat,
    draws: Seq<int>,
) -> Option<Seq<(T, T)>>
    decreases size - i,
{
    if i >= size {
        Some(Seq::empty())
    } else {
        let first_index = draws[i as int];
        if !(0 <= first_index < list.len()) {
            None
        } else {
            let first = list[first_index];
            let rest = list.remove(first_index);
            let candidates = present_ids(ranks[first.0 as int]@, rest);
            if candidates.len() == 0 {
                None
            } else {
                let second_id = candidates[closest_rank(desired, candidates.len())];
                let second_index = first_with_id(rest, second_id);
                match spatial_run(rest.remove(second_index), i + 1, size, ranks, desired, draws) {
                    Some(tail) => Some(seq![(first.1, rest[second_index].1)] + tail),
                    None => None,
                }
            }
        }
    }
}

/// Whether some entry of `list` has the key `id`.
fn contains_id<T>(list: &Vec<(usize, T)>, id: usize) -> (b: bool)
    ensures
        b == has_id(list@, id),
{
    let mut j: usize = 0;
    while j < list.len()
        invariant
            j <= list@.len(),
            forall|m: int| 0 <= m < j ==> #[trigger] list@[m].0 != id,
        decreases list@.len() - j,
    {
        if list[j].0 == id {
            return true;
        }
        j = j + 1;
    }
    false
}

/// The place of the first entry of `list` with the key `id`; there is one.
fn position_of_id<T>(list: &Vec<(usize, T)>, id: usize) -> (k: usize)
    requires
        has_id(list@, id),
    ensures
        k < list@.len(),
        k == first_with_id(list@, id),
{
    let mut k: usize = 0;
    while list[k].0 != id
        invariant
            has_id(list@, id),
            k < list.len(),
            forall|m: int| 0 <= m < k ==> #[trigger] list@[m].0 != id,
        decreases list@.len() - k,
    {
        k = k + 1;
        proof {
            if k == list@.len() {
                let w = choose|w: int| 0 <= w < list@.len() && #[trigger] list@[w].0 == id;
                assert(list@[w].0 != id);
            }
        }
    }
    proof {
        let s = list@;
        assert(0 <= k < s.len() && s[k as int].0 == id && forall|j: int| 0 <= j < k ==> #[trigger] s[j].0 != id);
        let c = first_with_id(s, id);
        if c < k {
            assert(s[c].0 != id);
        } else if c > k {
            assert(s[k as int].0 != id);
        }
    }
    k
}

/// The ids of `ranking` that are keys of `list`, in the order of `ranking`.
fn present_ids_of<T>(ranking: &Vec<usize>, list: &Vec<(usize, T)>) -> (ids: Vec<usize>)
    ensures
        ids@ == present_ids(ranking@, list@),
        forall|m: int| 0 <= m < ids@.len() ==> has_id(list@, #[trigger] ids@[m]),
        (exists|m: int| 0 <= m < ranking@.len() && has_id(list@, #[trigger] ranking@[m])) ==> ids@.len() > 0,
{
    let mut ids: Vec<usize> = Vec::new();
    let mut c: usize = 0;
    while c < ranking.len()
        invariant
            c <= ranking@.len(),
            ids@ == present_ids(ranking@.take(c as int), list@),
            forall|m: int| 0 <= m < ids@.len() ==> has_id(list@, #[trigger] ids@[m]),
            (exists|m: int| 0 <= m < c && has_id(list@, #[trigger] ranking@[m])) ==> ids@.len() > 0,
        decreases ranking@.len() - c,
    {
        let id = ranking[c];
        let present = contains_id(list, id);
        proof {
            assert(ranking@.take(c + 1).drop_last() =~= ranking@.take(c as int));
            assert(ranking@.take(c + 1).last() == id);
        }
        if present {
            ids.push(id);
        }
        proof {
            if exists|m: int| 0 <= m < c + 1 && has_id(list@, #[trigger] ranking@[m]) {
                let m = choose|m: int| 0 <= m < c + 1 && has_id(list@, #[trigger] ranking@[m]);
                if m == c {
                    assert(present);
                }
            }
        }
        c = c + 1;
    }
    proof {
        assert(ranking@.take(ranking@.len() as int) =~= ranking@);
    }
    ids
}

/// Every key of `s` has a ranking in `ranks`, and that ranking holds every
/// key of `s`.
pub open spec fn keys_ranked<T>(s: Seq<(usize, T)>, ranks: Seq<Vec<usize>>) -> bool {
    &&& forall|j: int| 0 <= j < s.len() ==> (#[trigger] s[j]).0 < ranks.len()
    &&& forall|j: int, m: int|
        0 <= j < s.len() && 0 <= m < s.len() ==> ranks[(#[trigger] s[j]).0 as int]@.contains((#[trigger] s[m]).0)
}

/// Taking an entry out keeps the keys ranked.
proof fn lemma_keys_ranked_remove<T>(s: Seq<(usize, T)>, ranks: Seq<Vec<usize>>, k: int)
    requires
        keys_ranked(s, ranks),
        0 <= k < s.len(),
    ensures
        keys_ranked(s.remove(k), ranks),
{
    let r = s.remove(k);
    assert forall|j: int| 0 <= j < r.len() implies #[trigger] r[j] == s[if j < k { j } else { j + 1 }] by {}
    assert forall|j: int, m: int|
        0 <= j < r.len() && 0 <= m < r.len() implies ranks[(#[trigger] r[j]).0 as int]@.contains((#[trigger] r[m]).0) by {
        let a = if j < k { j } else { j + 1 };
        let b = if m < k { m } else { m + 1 };
        assert(r[j] == s[a]);
        assert(r[m] == s[b]);
    }
    assert forall|j: int| 0 <= j < r.len() implies (#[trigger] r[j]).0 < ranks.len() by {
        let a = if j < k { j } else { j + 1 };
        assert(r[j] == s[a]);
    }
}

/// Spatial distance pairing: round after round a parent is drawn at random
/// and taken out, together with its partner: among the parents left, the
/// first whose key stands at the desired rank of closeness (or the farthest
/// rank, when fewer keys are left) in the drawn parent's ranking, `ranks` at
/// its key, which orders keys by their distance from it.
#[verifier::rlimit(60)]
#[verifier::spinoff_prover]
pub fn spatial_pairs<T>(
    rng: &mut StdRng,
    parents: Vec<(usize, T)>,
    size: usize,
    ranks: &Vec<Vec<usize>>,
    desired: usize,
) -> (pairs: Vec<(T, T)>)
    requires
        2 * size <= parents@.len(),
        desired <= usize::MAX / 2,
        keys_ranked(parents@, ranks@),
    ensures
        exists|draws: Seq<int>|
            #[trigger] spatial_run(parents@, 0, size as nat, ranks@, desired as nat, draws) == Some(pairs@),
{
    let ghost initial = parents@;
    let mut list = parents;
    let mut pairs: Vec<(T, T)> = Vec::new();
    let ghost mut draws: Seq<int> = Seq::empty();
    let mut i: usize = 0;
    while i < size
        invariant
            i <= size,
            initial == parents@,
            2 * size <= initial.len(),
            desired <= usize::MAX / 2,
            list@.len() == initial.len() - 2 * i,
            draws.len() == i,
            keys_ranked(list@, ranks@),
            forall|ds: Seq<int>|
                #![trigger spatial_run(initial, 0, size as nat, ranks@, desired as nat, ds)]
                ds.len() >= size && ds.take(i as int) == draws ==> spatial_run(
                    initial,
                    0,
                    size as nat,
                    ranks@,
                    desired as nat,
                    ds,
                ) == prepend_pairs(
                    pairs@,
                    spatial_run(list@, i as nat, size as nat, ranks@, desired as nat, ds),
                ),
        decreases size - i,
    {
        let len = list.len();
        let first_index = random_below(rng, len);
        let ghost before = list@;
        let ghost pairs_before = pairs@;
        let ghost draws_before = draws;
        proof {
            assert(before[first_index as int].0 < ranks@.len());
        }
        let first = list.remove(first_index);
        let ghost rest = list@;
        proof {
            assert(before[first_index as int] == first);
            lemma_keys_ranked_remove(before, ranks@, first_index as int);
            assert(rest.len() >= 1);
            assert(rest[0] == before[if 0 < first_index { 0int } else { 1int }]);
            assert(ranks@[first.0 as int]@.contains(rest[0].0));
            assert(has_id(rest, rest[0].0));
        }
        let candidates = present_ids_of(&ranks[first.0], &list);
        proof {
            let ranking = ranks@[first.0 as int]@;
            let m = choose|m: int| 0 <= m < ranking.len() && ranking[m] == rest[0].0;
            assert(has_id(rest, ranking[m]));
        }
        let second_id = close_individual(&candidates, desired);
        proof {
            let c = closest_rank(desired as nat, candidates@.len());
            assert(second_id == candidates@[c]);
            assert(has_id(rest, candidates@[c]));
        }
        let second_index = position_of_id(&list, second_id);
        let second = list.remove(second_index);
        proof {
            lemma_keys_ranked_remove(rest, ranks@, second_index as int);
        }
        pairs.push((first.1, second.1));
        proof {
            draws = draws.push(first_index as int);
            assert forall|ds: Seq<int>|
                #![trigger spatial_run(initial, 0, size as nat, ranks@, desired as nat, ds)]
                ds.len() >= size && ds.take(i + 1) == draws implies spatial_run(
                    initial,
                    0,
                    size as nat,
                    ranks@,
                    desired as nat,
                    ds,
                ) == prepend_pairs(
                    pairs@,
                    spatial_run(list@, (i + 1) as nat, size as nat, ranks@, desired as nat, ds),
                ) by {
                assert(ds.take(i as int) =~= draws_before);
                assert(ds[i as int] == ds.take(i + 1)[i as int]);
                assert(rest == before.remove(first_index as int));
                assert(rest[second_index as int] == second);
                assert(list@ == rest.remove(second_index as int));
                match spatial_run(list@, (i + 1) as nat, size as nat, ranks@, desired as nat, ds) {
                    Some(tail) => {
                        assert(pairs_before + (seq![(first.1, second.1)] + tail) =~= pairs@ + tail);
                    },
                    None => {},
                }
            }
        }
        i = i + 1;
    }
    proof {
        assert(draws.take(size as int) =~= draws);
        assert(pairs@ + Seq::<(T, T)>::empty() =~= pairs@);
        assert(spatial_run(initial, 0, size as nat, ranks@, desired as nat, draws) == Some(pairs@));
    }
    pairs
}

/// The entries of `s` with key `k`, in their order.
pub open spec fn with_key<T>(s: Seq<(usize, T)>, k: usize) -> Seq<(usize, T)>
    decreases s.len(),
{
    if s.len() == 0 {
        Seq::empty()
    } else {
        with_key(s.drop_last(), k) + if s.last().0 == k {
            seq![s.last()]
        } else {
            Seq::empty()
        }
    }
}

/// The keys never decrease along `s`.
pub open spec fn sorted_by_key<T>(s: Seq<(usize, T)>) -> bool {
    forall|i: int, j: int| 0 <= i <= j < s.len() ==> #[trigger] s[i].0 <= #[trigger] s[j].0
}

/// `sorted` is the stable sort of `initial` by key: sorted, and with the
/// entries of every key in the order they had in `initial`.
pub open spec fn stable_sort_of<T>(sorted: Seq<(usize, T)>, initial: Seq<(usize, T)>) -> bool {
    &&& sorted.len() == initial.len()
    &&& sorted_by_key(sorted)
    &&& forall|k: usize| #[trigger] with_key(sorted, k) == with_key(initial, k)
}

/// Every key occurs an even number of times.
pub open spec fn even_key_counts<T>(s: Seq<(usize, T)>) -> bool {
    forall|k: usize| #[trigger] with_key(s, k).len() % 2 == 0
}

/// Picking the entries of one key distributes over concatenation.
pub proof fn lemma_with_key_add<T>(a: Seq<(usize, T)>, b: Seq<(usize, T)>, k: usize)
    ensures
        with_key(a + b, k) == with_key(a, k) + with_key(b, k),
    decreases b.len(),
{
    if b.len() == 0 {
        assert(a + b =~= a);
        assert(with_key(a, k) + with_key(b, k) =~= with_key(a, k));
    } else {
        lemma_with_key_add(a, b.drop_last(), k);
        assert((a + b).drop_last() =~= a + b.drop_last());
        assert((a + b).last() == b.last());
        assert(with_key(a + b, k) =~= with_key(a, k) + with_key(b, k));
    }
}

/// A sequence without key `k` has no entries of key `k`.
pub proof fn lemma_with_key_absent<T>(s: Seq<(usize, T)>, k: usize)
    requires
        forall|i: int| 0 <= i < s.len() ==> #[trigger] s[i].0 != k,
    ensures
        with_key(s, k) == Seq::<(usize, T)>::empty(),
    decreases s.len(),
{
    if s.len() > 0 {
        lemma_with_key_absent(s.drop_last(), k);
        assert(with_key(s, k) =~= Seq::<(usize, T)>::empty());
    }
}

/// The entries of one key in a single entry.
pub proof fn lemma_with_key_single<T>(x: (usize, T), k: usize)
    ensures
        with_key(seq![x], k) == if x.0 == k {
            seq![x]
        } else {
            Seq::<(usize, T)>::empty()
        },
{
    let s = seq![x];
    assert(s.len() == 1);
    assert(s.last() == x);
    assert(s.drop_last().len() == 0);
    assert(with_key(s.drop_last(), k) == Seq::<(usize, T)>::empty());
    assert(Seq::<(usize, T)>::empty() + seq![x] =~= seq![x]);
    assert(Seq::<(usize, T)>::empty() + Seq::<(usize, T)>::empty() =~= Seq::<(usize, T)>::empty());
}

/// Inserting an entry behind every smaller-or-equal key and before every
/// greater one adds it to the end of its key's entries.
proof fn lemma_with_key_insert<T>(s: Seq<(usize, T)>, p: int, x: (usize, T), k: usize)
    requires
        0 <= p <= s.len(),
        forall|i: int| 0 <= i < p ==> #[trigger] s[i].0 <= x.0,
        forall|i: int| p <= i < s.len() ==> #[trigger] s[i].0 > x.0,
    ensures
        with_key(s.insert(p, x), k) == with_key(s, k) + if x.0 == k {
            seq![x]
        } else {
            Seq::<(usize, T)>::empty()
        },
{
    let front = s.take(p);
    let back = s.skip(p);
    assert(s =~= front + back);
    assert(s.insert(p, x) =~= front + seq![x] + back);
    lemma_with_key_add(front, back, k);
    lemma_with_key_add(front + seq![x], back, k);
    lemma_with_key_add(front, seq![x], k);
    lemma_with_key_single(x, k);
    if x.0 == k {
        assert forall|i: int| 0 <= i < back.len() implies #[trigger] back[i].0 != k by {
            assert(back[i] == s[p + i]);
        }
        lemma_with_key_absent(back, k);
        assert(with_key(s.insert(p, x), k) =~= with_key(s, k) + seq![x]);
    } else {
        assert(with_key(s.insert(p, x), k) =~= with_key(s, k));
    }
}

/// Sorts by key, keeping entries of equal key in their order (insertion sort).
pub fn sort_by_key<T>(v: Vec<(usize, T)>) -> (sorted: Vec<(usize, T)>)
    ensures
        stable_sort_of(sorted@, v@),
{
    let ghost initial = v@;
    let mut sorted: Vec<(usize, T)> = Vec::new();
    let ghost mut j: int = 0;
    for x in it: v
        invariant
            j == it.index(),
            it.seq() == initial,
            sorted@.len() == j,
            sorted_by_key(sorted@),
            forall|k: usize| #[trigger] with_key(sorted@, k) == with_key(initial.take(j), k),
    {
        let mut p = sorted.len();
        while p > 0 && sorted[p - 1].0 > x.0
            invariant
                p <= sorted@.len(),
                sorted_by_key(sorted@),
                forall|i: int| p <= i < sorted@.len() ==> #[trigger] sorted@[i].0 > x.0,
            decreases p,
        {
            p = p - 1;
        }
        let ghost before = sorted@;
        proof {
            assert forall|i: int| 0 <= i < p implies #[trigger] before[i].0 <= x.0 by {
                assert(before[i].0 <= before[p - 1].0);
            }
        }
        let ghost xv = x;
        sorted.insert(p, x);
        proof {
            assert(initial[j] == xv);
            assert(initial.take(j + 1) =~= initial.take(j) + seq![xv]);
            assert forall|k: usize| #[trigger] with_key(sorted@, k) == with_key(
                initial.take(j + 1),
                k,
            ) by {
                lemma_with_key_insert(before, p as int, xv, k);
                lemma_with_key_add(initial.take(j), seq![xv], k);
                lemma_with_key_single(xv, k);
            }
            assert forall|a: int, b: int| 0 <= a <= b < sorted@.len() implies #[trigger] sorted@[a].0
                <= #[trigger] sorted@[b].0 by {
                if a < p && b > p {
                    assert(before[a].0 <= xv.0);
                } else if a < p && b == p {
                } else if a == p && b > p {
                    assert(sorted@[b] == before[b - 1]);
                }
            }
            j = j + 1;
        }
    }
    assert(initial.take(j) =~= initial);
    sorted
}

/// In a sorted sequence whose first key occurs at least twice, the first two
/// entries share their key.
proof fn lemma_first_two_share_key<T>(s: Seq<(usize, T)>)
    requires
        s.len() >= 2,
        sorted_by_key(s),
        with_key(s, s[0].0).len() >= 2,
    ensures
        s[0].0 == s[1].0,
{
    let k0 = s[0].0;
    if s[1].0 != k0 {
        let tail = s.skip(1);
        assert(s =~= seq![s[0]] + tail);
        assert forall|i: int| 0 <= i < tail.len() implies #[trigger] tail[i].0 != k0 by {
            assert(s[1].0 <= s[i + 1].0);
            assert(s[0].0 <= s[1].0);
        }
        lemma_with_key_absent(tail, k0);
        lemma_with_key_add(seq![s[0]], tail, k0);
        lemma_with_key_single(s[0], k0);
    }
}

/// Dropping the first two entries, which share a key, keeps every key count even.
proof fn lemma_drop_pair_even<T>(s: Seq<(usize, T)>)
    requires
        s.len() >= 2,
        even_key_counts(s),
        s[0].0 == s[1].0,
    ensures
        even_key_counts(s.skip(2)),
{
    let rest = s.skip(2);
    let head = s.take(2);
    assert(s =~= head + rest);
    assert(head =~= seq![s[0]] + seq![s[1]]);
    assert forall|k: usize| #[trigger] with_key(rest, k).len() % 2 == 0 by {
        lemma_with_key_add(head, rest, k);
        lemma_with_key_add(seq![s[0]], seq![s[1]], k);
        lemma_with_key_single(s[0], k);
        lemma_with_key_single(s[1], k);
        assert(with_key(s, k).len() % 2 == 0);
    }
}

/// In a sequence sorted by key in which every key occurs an even number of
/// times, the entries at positions `2m` and `2m + 1` share their key.
pub proof fn lemma_even_keys_pair_up<T>(s: Seq<(usize, T)>)
    requires
        sorted_by_key(s),
        even_key_counts(s),
    ensures
        forall|m: int| 0 <= m && 2 * m + 1 < s.len() ==> #[trigger] s[2 * m].0 == s[2 * m + 1].0,
    decreases s.len(),
{
    if s.len() >= 2 {
        let k0 = s[0].0;
        assert(with_key(s, k0).len() % 2 == 0);
        assert(with_key(s, k0).len() > 0) by {
            let tail = s.skip(1);
            assert(s =~= seq![s[0]] + tail);
            lemma_with_key_add(seq![s[0]], tail, k0);
            lemma_with_key_single(s[0], k0);
        }
        lemma_first_two_share_key(s);
        lemma_drop_pair_even(s);
        let rest = s.skip(2);
        assert(sorted_by_key(rest)) by {
            assert forall|i: int, j: int| 0 <= i <= j < rest.len() implies #[trigger] rest[i].0
                <= #[trigger] rest[j].0 by {
                assert(s[i + 2].0 <= s[j + 2].0);
            }
        }
        lemma_even_keys_pair_up(rest);
        assert forall|m: int| 0 <= m && 2 * m + 1 < s.len() implies #[trigger] s[2 * m].0 == s[2
            * m + 1].0 by {
            if m > 0 {
                assert(s[2 * m] == rest[2 * (m - 1)]);
                assert(s[2 * m + 1] == rest[2 * (m - 1) + 1]);
            }
        }
    }
}

/// A list that repeats itself once holds every key an even number of times.
pub proof fn lemma_repeated_list_even_keys<T>(s: Seq<(usize, T)>, n: nat)
    requires
        s.len() == 2 * n,
        forall|i: int| 0 <= i < n ==> #[trigger] s[n + i] == s[i],
    ensures
        even_key_counts(s),
{
    let half = s.take(n as int);
    assert forall|i: int| 0 <= i < s.len() implies #[trigger] s[i] == (half + half)[i] by {
        if i >= n {
            assert(s[n + (i - n)] == s[i - n]);
        }
    }
    assert(s =~= half + half);
    assert forall|k: usize| #[trigger] with_key(s, k).len() % 2 == 0 by {
        lemma_with_key_add(half, half, k);
    }
}

/// Asexual pairing: the parents, sorted stably by key (the identity of the
/// individual), pair up consecutively; every pair must join two entries of the
/// same identity. `None` where a pair does not (the simulation stops there);
/// that never happens when every identity occurs an even number of times.
pub fn asexual_pairs<T>(parents: Vec<(usize, T)>, size: usize) -> (result: Option<
    Vec<((usize, T), (usize, T))>,
>)
    requires
        2 * size <= parents@.len(),
    ensures
        result is Some ==> exists|sorted: Seq<(usize, T)>|
            stable_sort_of(sorted, parents@) && #[trigger] consecutive_pairs_of(
                result->0@,
                sorted,
                size as nat,
            ) && forall|m: int|
                0 <= m < size ==> (#[trigger] result->0@[m]).0.0 == result->0@[m].1.0,
        result is None ==> exists|sorted: Seq<(usize, T)>|
            #[trigger] stable_sort_of(sorted, parents@) && exists|m: int|
                0 <= m < size && #[trigger] sorted[2 * m].0 != sorted[2 * m + 1].0,
        even_key_counts(parents@) ==> result is Some,
{
    let ghost initial = parents@;
    let sorted = sort_by_key(parents);
    assert(initial == parents@);
    let ghost sorted_view = sorted@;
    proof {
        if even_key_counts(initial) {
            assert forall|k: usize| #[trigger] with_key(sorted_view, k).len() % 2 == 0 by {
                assert(with_key(sorted_view, k) == with_key(initial, k));
            }
            lemma_even_keys_pair_up(sorted_view);
        }
    }
    let pairs = pair_consecutive(sorted, size);
    let mut m: usize = 0;
    while m < size
        invariant
            m <= size,
            initial == parents@,
            stable_sort_of(sorted_view, initial),
            even_key_counts(initial) ==> forall|i: int|
                0 <= i && 2 * i + 1 < sorted_view.len() ==> #[trigger] sorted_view[2 * i].0
                    == sorted_view[2 * i + 1].0,
            consecutive_pairs_of(pairs@, sorted_view, size as nat),
            forall|i: int| 0 <= i < m ==> (#[trigger] pairs@[i]).0.0 == pairs@[i].1.0,
        decreases size - m,
    {
        if pairs[m].0.0 != pairs[m].1.0 {
            assert(pairs@[m as int] == (sorted_view[2 * m as int], sorted_view[2 * m + 1]));
            assert(sorted_view[2 * m as int].0 != sorted_view[2 * m + 1].0);
            assert(stable_sort_of(sorted_view, initial));
            assert(2 * m + 1 < sorted_view.len());
            assert(even_key_counts(initial) ==> false);
            assert(initial == parents@);
            assert(exists|i: int|
                0 <= i < size && #[trigger] sorted_view[2 * i].0 != sorted_view[2 * i + 1].0);
            return None;
        }
        m = m + 1;
    }
    assert(stable_sort_of(sorted_view, initial) && consecutive_pairs_of(
        pairs@,
        sorted_view,
        size as nat,
    ) && forall|i: int| 0 <= i < size ==> (#[trigger] pairs@[i]).0.0 == pairs@[i].1.0);
    let ghost pv = pairs@;
    assert(stable_sort_of(sorted_view, initial));
    assert(consecutive_pairs_of(pv, sorted_view, size as nat));
    assert(forall|i: int| 0 <= i < size ==> (#[trigger] pv[i]).0.0 == pv[i].1.0);
    assert(exists|sorted: Seq<(usize, T)>|
            stable_sort_of(sorted, initial) && #[trigger] consecutive_pairs_of(
                pv,
                sorted,
                size as nat,
            ) && forall|m: int| 0 <= m < size ==> (#[trigger] pv[m]).0.0 == pv[m].1.0);
    assert(initial == parents@);
    let r = Some(pairs);
    assert(r->0@ == pv);
    r
}

/// Where pairing by similar fitness takes the partner of the parent at
/// `first_index`: `distance` places further down the list, but no further than
/// the second-to-last place.
pub open spec fn similar_second_index(len: int, first_index: int, distance: int) -> int {
    if first_index + distance < len - 2 {
        first_index + distance
    } else {
        len - 2
    }
}

/// The pairs that pairing by similar fitness forms from round `i` on, out of
/// `list`: in round `i` the parent at place `i` (or, once fewer parents are
/// left, at the drawn place `draws[i]`) is taken out, then its partner
/// (`similar_second_index`, `distances[i]` places further down) out of the
/// rest. `None` where a draw is out of range.
pub open spec fn similar_fitness_run<T>(
    list: Seq<T>,
    i: nat,
    size: nat,
    distances: Seq<usize>,
    draws: Seq<int>,
) -> Option<Seq<(T, T)>>
    decreases size - i,
{
    if i >= size {
        Some(Seq::empty())
    } else if list.len() < 2 {
        None
    } else {
        let first_index = if i < list.len() {
            i as int
        } else {
            draws[i as int]
        };
        if !(0 <= first_index < list.len()) {
            None
        } else {
            let first = list[first_index];
            let rest = list.remove(first_index);
            let second_index = similar_second_index(list.len() as int, first_index, distances[i as int] as int);
            let second = rest[second_index];
            match similar_fitness_run(rest.remove(second_index), i + 1, size, distances, draws) {
                Some(tail) => Some(seq![(first, second)] + tail),
                None => None,
            }
        }
    }
}

/// `pairs` followed by what `run` gives, if it gives anything.
pub open spec fn prepend_pairs<T>(pairs: Seq<(T, T)>, run: Option<Seq<(T, T)>>) -> Option<
    Seq<(T, T)>,
> {
    match run {
        Some(tail) => Some(pairs + tail),
        None => None,
    }
}

/// Pairing by similar fitness on parents ordered by fitness (best first):
/// round after round a parent is taken out, at the round's place while there
/// are enough parents left and at a random place afterwards, together with the
/// parent `distances[i]` places further down in round `i` (capped at the
/// second-to-last place).
#[verifier::rlimit(60)]
#[verifier::spinoff_prover]
pub fn similar_fitness_pairs<T>(rng: &mut StdRng, parents: Vec<T>, size: usize, distances: &Vec<usize>) -> (pairs: Vec<(T, T)>)
    requires
        2 * size <= parents@.len() <= usize::MAX / 2,
        size <= distances@.len(),
        forall|i: int| 0 <= i < size ==> #[trigger] distances@[i] <= usize::MAX / 2,
    ensures
        exists|draws: Seq<int>|
            #[trigger] similar_fitness_run(parents@, 0, size as nat, distances@, draws) == Some(
                pairs@,
            ),
{
    let ghost initial = parents@;
    let mut list = parents;
    let mut pairs: Vec<(T, T)> = Vec::new();
    let ghost mut draws: Seq<int> = Seq::empty();
    let mut i: usize = 0;
    while i < size
        invariant
            i <= size,
            initial == parents@,
            2 * size <= initial.len() <= usize::MAX / 2,
            size <= distances@.len(),
            forall|k: int| 0 <= k < size ==> #[trigger] distances@[k] <= usize::MAX / 2,
            list@.len() == initial.len() - 2 * i,
            draws.len() == i,
            forall|ds: Seq<int>|
                #![trigger similar_fitness_run(initial, 0, size as nat, distances@, ds)]
                ds.len() >= size && ds.take(i as int) == draws ==> similar_fitness_run(
                    initial,
                    0,
                    size as nat,
                    distances@,
                    ds,
                ) == prepend_pairs(
                    pairs@,
                    similar_fitness_run(list@, i as nat, size as nat, distances@, ds),
                ),
        decreases size - i,
    {
        let len = list.len();
        let first_index = if i < len {
            i
        } else {
            random_below(rng, len)
        };
        let distance = distances[i];
        let candidate = first_index + distance;
        let second_index = if candidate < len - 2 {
            candidate
        } else {
            len - 2
        };
        let ghost before = list@;
        let ghost pairs_before = pairs@;
        let ghost draws_before = draws;
        let first = list.remove(first_index);
        let ghost rest = list@;
        let second = list.remove(second_index);
        pairs.push((first, second));
        proof {
            draws = draws.push(first_index as int);
            assert forall|ds: Seq<int>|
                #![trigger similar_fitness_run(initial, 0, size as nat, distances@, ds)]
                ds.len() >= size && ds.take(i + 1) == draws implies similar_fitness_run(
                    initial,
                    0,
                    size as nat,
                    distances@,
                    ds,
                ) == prepend_pairs(
                    pairs@,
                    similar_fitness_run(list@, (i + 1) as nat, size as nat, distances@, ds),
                ) by {
                assert(ds.take(i as int) =~= draws_before);
                assert(ds[i as int] == ds.take(i + 1)[i as int]);
                assert(before[first_index as int] == first);
                assert(rest == before.remove(first_index as int));
                assert(rest[second_index as int] == second);
                match similar_fitness_run(list@, (i + 1) as nat, size as nat, distances@, ds) {
                    Some(tail) => {
                        assert(pairs_before + (seq![(first, second)] + tail) =~= pairs@ + tail);
                    },
                    None => {},
                }
            }
        }
        i = i + 1;
    }
    proof {
        assert(draws.take(size as int) =~= draws);
        assert(pairs@ + Seq::<(T, T)>::empty() =~= pairs@);
        assert(similar_fitness_run(initial, 0, size as nat, distances@, draws) == Some(pairs@));
    }
    pairs
}

/// Random pairing, for the settings it was made from.
#[derive(Debug, Clone, Copy)]
pub struct RandomPairing {
    pairing_settings: PairingSettings,
}

impl RandomPairing {
    /// The settings this pairing was made from.
    pub closed spec fn settings_view(&self) -> PairingSettings {
        self.pairing_settings
    }

    /// A random pairing for settings of that kind.
    pub fn new(pairing_settings: PairingSettings) -> (p: Self)
        requires
            pairing_settings is RandomPairing,
        ensures
            p.settings_view() == pairing_settings,
    {
        RandomPairing { pairing_settings }
    }

    /// The settings this pairing was made from.
    pub fn pairing_settings(&self) -> (s: PairingSettings)
        ensures
            s == self.settings_view(),
    {
        self.pairing_settings
    }
}

/// Asexual pairing, for the settings it was made from.
#[derive(Debug, Clone, Copy)]
pub struct AsexualPairing {
    pairing_settings: PairingSettings,
}

impl AsexualPairing {
    /// The settings this pairing was made from.
    pub closed spec fn settings_view(&self) -> PairingSettings {
        self.pairing_settings
    }

    /// An asexual pairing for settings of that kind.
    pub fn new(pairing_settings: PairingSettings) -> (p: Self)
        requires
            pairing_settings is AsexualPairing,
        ensures
            p.settings_view() == pairing_settings,
    {
        AsexualPairing { pairing_settings }
    }

    /// The settings this pairing was made from.
    pub fn pairing_settings(&self) -> (s: PairingSettings)
        ensures
            s == self.settings_view(),
    {
        self.pairing_settings
    }
}

/// Pairing by similar fitness, for the settings it was made from.
#[derive(Debug, Clone, Copy)]
pub struct SimilarFitnessPairing {
    pairing_settings: PairingSettings,
    similarity: usize,
}

impl SimilarFitnessPairing {
    /// The settings this pairing was made from.
    pub closed spec fn settings_view(&self) -> PairingSettings {
        self.pairing_settings
    }

    /// The similarity percentage of the settings.
    pub closed spec fn similarity_view(&self) -> usize {
        self.similarity
    }

    /// A pairing by similar fitness for settings of that kind; it keeps their
    /// similarity percentage.
    pub fn new(pairing_settings: PairingSettings) -> (p: Self)
        requires
            pairing_settings is SimilarFitnessPairing,
        ensures
            p.settings_view() == pairing_settings,
            p.similarity_view() == pairing_settings->similarity,
    {
        let similarity = match pairing_settings {
            PairingSettings::SimilarFitnessPairing { similarity, .. } => similarity,
            _ => {
                assert(false);
                0
            },
        };
        SimilarFitnessPairing { pairing_settings, similarity }
    }

    /// The settings this pairing was made from.
    pub fn pairing_settings(&self) -> (s: PairingSettings)
        ensures
            s == self.settings_view(),
    {
        self.pairing_settings
    }

    /// The similarity percentage.
    pub fn similarity(&self) -> (s: usize)
        ensures
            s == self.similarity_view(),
    {
        self.similarity
    }
}

/// Pairing by distance in a space of the individuals' ancestry, for the
/// settings it was made from. The positions in that space are kept by the
/// simulation beside it.
#[derive(Debug, Clone, Copy)]
pub struct SpatialDistancePairing {
    pairing_settings: PairingSettings,
    desired_individual_distance_percentage: usize,
}

impl SpatialDistancePairing {
    /// The settings this pairing was made from.
    pub closed spec fn settings_view(&self) -> PairingSettings {
        self.pairing_settings
    }

    /// The desired distance between partners, in percent of the parents.
    pub closed spec fn distance_view(&self) -> usize {
        self.desired_individual_distance_percentage
    }

    /// A spatial distance pairing for settings of that kind; it keeps their
    /// desired distance.
    pub fn new(pairing_settings: PairingSettings) -> (p: Self)
        requires
            pairing_settings is SpatialDistancePairing,
        ensures
            p.settings_view() == pairing_settings,
            p.distance_view() == pairing_settings->desired_individual_distance_percentage,
    {
        let desired_individual_distance_percentage = match pairing_settings {
            PairingSettings::SpatialDistancePairing { desired_individual_distance_percentage, .. } => desired_individual_distance_percentage,
            _ => {
                assert(false);
                0
            },
        };
        SpatialDistancePairing { pairing_settings, desired_individual_distance_percentage }
    }

    /// The settings this pairing was made from.
    pub fn pairing_settings(&self) -> (s: PairingSettings)
        ensures
            s == self.settings_view(),
    {
        self.pairing_settings
    }

    /// The desired distance between partners, in percent of the parents.
    pub fn desired_individual_distance_percentage(&self) -> (d: usize)
        ensures
            d == self.distance_view(),
    {
        self.desired_individual_distance_percentage
    }
}

/// The survivors of selection: the first `count` of the individuals ranked
/// best first, each with its position in the population, put back in the
/// order of the population.
pub fn select_survivors<T>(ranked: Vec<(usize, T)>, count: usize) -> (survivors: Vec<(usize, T)>)
    requires
        count <= ranked@.len(),
    ensures
        stable_sort_of(survivors@, ranked@.take(count as int)),
{
    let mut kept = ranked;
    kept.truncate(count);
    sort_by_key(kept)
}

/// A pairing strategy for one of the two problems: round trips or routing
/// and capacity plans.
#[derive(Debug, Clone, Copy)]
pub enum ConstructedPairing {
    TspPairing(Pairings),
    RofaPairing(Pairings),
}

/// One of the pairing strategies.
#[derive(Debug, Clone, Copy)]
pub enum Pairings {
    RandomPairing(RandomPairing),
    AsexualPairing(AsexualPairing),
    SimilarFitnessPairing(SimilarFitnessPairing),
    SpatialDistancePairing(SpatialDistancePairing),
}

impl Pairings {
    /// The settings the strategy was made from.
    pub open spec fn settings_view(&self) -> PairingSettings {
        match self {
            Pairings::RandomPairing(p) => p.settings_view(),
            Pairings::AsexualPairing(p) => p.settings_view(),
            Pairings::SimilarFitnessPairing(p) => p.settings_view(),
            Pairings::SpatialDistancePairing(p) => p.settings_view(),
        }
    }

    /// The settings the strategy was made from.
    pub fn pairing_settings(&self) -> (s: PairingSettings)
        ensures
            s == self.settings_view(),
    {
        match self {
            Pairings::RandomPairing(p) => p.pairing_settings(),
            Pairings::AsexualPairing(p) => p.pairing_settings(),
            Pairings::SimilarFitnessPairing(p) => p.pairing_settings(),
            Pairings::SpatialDistancePairing(p) => p.pairing_settings(),
        }
    }
}

/// The pairing strategy the settings describe.
pub fn pairing_from_pairing_settings(pairing_settings: PairingSettings) -> (p: Pairings)
    ensures
        p.settings_view() == pairing_settings,
        pairing_settings is AsexualPairing ==> p is AsexualPairing,
        pairing_settings is RandomPairing ==> p is RandomPairing,
        pairing_settings is SimilarFitnessPairing ==> p is SimilarFitnessPairing,
        pairing_settings is SpatialDistancePairing ==> p is SpatialDistancePairing,
{
    match pairing_settings {
        PairingSettings::AsexualPairing { .. } => Pairings::AsexualPairing(AsexualPairing::new(pairing_settings)),
        PairingSettings::RandomPairing { .. } => Pairings::RandomPairing(RandomPairing::new(pairing_settings)),
        PairingSettings::SimilarFitnessPairing { .. } => Pairings::SimilarFitnessPairing(SimilarFitnessPairing::new(pairing_settings)),
        PairingSettings::SpatialDistancePairing { .. } => Pairings::SpatialDistancePairing(SpatialDistancePairing::new(pairing_settings)),
    }
}

} // verus!
