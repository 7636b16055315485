//! The travelling salesman individual: a round trip as a permutation of the
//! city numbers, with edge-preserving crossover.

use rand::rngs::StdRng;
use vstd::arithmetic::div_mod::lemma_mod_add_multiples_vanish;
use vstd::prelude::*;

use crate::permutation::{
    contains_number, is_permutation, lemma_distinct_below, lemma_permutation_contains, untaken_below,
};
use crate::random::{choose_stable_from, sample_two_below, shuffle};

verus! {

/// An order in which the cities are visited, with the identity of the
/// individual and of its parents.
#[derive(Debug, Clone)]
pub struct Sequence {
    numbers: Vec<usize>,
    id: usize,
    parent_ids: Option<(usize, usize)>,
}

/// Some index at which `x` occurs in `s` (for a permutation, the only one).
pub open spec fn index_in(s: Seq<usize>, x: usize) -> int {
    choose|i: int| 0 <= i < s.len() && s[i] == x
}

/// The numbers before and after `x` in `s`, where positions wrap modulo
/// `s.len() - 1`, as the trip is read.
pub open spec fn surrounding(s: Seq<usize>, x: usize) -> (usize, usize) {
    let size = s.len() as int;
    let index = index_in(s, x);
    (s[(index + size - 1) % (size - 1)], s[(index + 1) % (size - 1)])
}

/// The neighbours of `x` that crossover step `step` tries, in order: those in
/// the second parent first on even steps, those in the first parent first on odd steps.
pub open spec fn neighbour_candidates(first: Seq<usize>, second: Seq<usize>, x: usize, step: int) -> Seq<usize> {
    let (pf, ff) = surrounding(first, x);
    let (ps, fs) = surrounding(second, x);
    if step % 2 == 1 {
        seq![pf, ff, ps, fs]
    } else {
        seq![ps, fs, pf, ff]
    }
}

/// A crossover step tries the neighbours of the latest city in both parents:
/// both neighbours in the first parent and both in the second. On even steps
/// it asks the second parent first, and trading the parents' places shifts
/// which parent is asked first from one step to the next.
pub proof fn lemma_candidates_from_both_parents(first: Seq<usize>, second: Seq<usize>, x: usize, step: int)
    ensures
        neighbour_candidates(first, second, x, step).len() == 4,
        neighbour_candidates(first, second, x, step).contains(surrounding(first, x).0),
        neighbour_candidates(first, second, x, step).contains(surrounding(first, x).1),
        neighbour_candidates(first, second, x, step).contains(surrounding(second, x).0),
        neighbour_candidates(first, second, x, step).contains(surrounding(second, x).1),
        step % 2 == 0 ==> neighbour_candidates(first, second, x, step).take(2) == seq![
            surrounding(second, x).0,
            surrounding(second, x).1,
        ],
        step % 2 == 1 ==> neighbour_candidates(first, second, x, step).take(2) == seq![
            surrounding(first, x).0,
            surrounding(first, x).1,
        ],
        neighbour_candidates(first, second, x, step) == neighbour_candidates(second, first, x, step + 1),
{
    let c = neighbour_candidates(first, second, x, step);
    let (pf, ff) = surrounding(first, x);
    let (ps, fs) = surrounding(second, x);
    if step % 2 == 1 {
        assert(c[0] == pf && c[1] == ff && c[2] == ps && c[3] == fs);
        assert((step + 1) % 2 == 0);
    } else {
        assert(c[0] == ps && c[1] == fs && c[2] == pf && c[3] == ff);
        assert((step + 1) % 2 == 1);
    }
    assert(c.take(2) =~= seq![c[0], c[1]]);
    assert(neighbour_candidates(second, first, x, step + 1) =~= c);
}

/// The first of `candidates` that `taken` lacks.
pub open spec fn first_untaken(candidates: Seq<usize>, taken: Seq<usize>) -> Option<usize>
    decreases candidates.len(),
{
    if candidates.len() == 0 {
        None
    } else if !taken.contains(candidates[0]) {
        Some(candidates[0])
    } else {
        first_untaken(candidates.drop_first(), taken)
    }
}

/// The first untaken candidate is a candidate that `taken` lacks, and every
/// candidate before it is taken; there is none exactly when every candidate
/// is taken.
pub proof fn lemma_first_untaken_is_first(candidates: Seq<usize>, taken: Seq<usize>)
    ensures
        first_untaken(candidates, taken) is None <==> forall|i: int| 0 <= i < candidates.len() ==> taken.contains(#[trigger] candidates[i]),
        first_untaken(candidates, taken) matches Some(c) ==> exists|i: int|
            0 <= i < candidates.len() && #[trigger] candidates[i] == c && !taken.contains(c) && forall|j: int|
                0 <= j < i ==> taken.contains(#[trigger] candidates[j]),
    decreases candidates.len(),
{
    if candidates.len() > 0 {
        let rest = candidates.drop_first();
        lemma_first_untaken_is_first(rest, taken);
        assert forall|i: int| 0 <= i < rest.len() implies #[trigger] rest[i] == candidates[i + 1] by {}
        if taken.contains(candidates[0]) {
            if forall|i: int| 0 <= i < rest.len() ==> taken.contains(#[trigger] rest[i]) {
                assert forall|i: int| 0 <= i < candidates.len() implies taken.contains(#[trigger] candidates[i]) by {
                    if i > 0 {
                        assert(candidates[i] == rest[i - 1]);
                    }
                }
            } else {
                let i = choose|i: int| 0 <= i < rest.len() && !taken.contains(#[trigger] rest[i]);
                assert(candidates[i + 1] == rest[i]);
            }
            if let Some(c) = first_untaken(rest, taken) {
                let i = choose|i: int|
                    0 <= i < rest.len() && #[trigger] rest[i] == c && !taken.contains(c) && forall|j: int|
                        0 <= j < i ==> taken.contains(#[trigger] rest[j]);
                assert(candidates[i + 1] == c);
                assert forall|j: int| 0 <= j < i + 1 implies taken.contains(#[trigger] candidates[j]) by {
                    if j > 0 {
                        assert(candidates[j] == rest[j - 1]);
                    }
                }
            }
        } else {
            assert(candidates[0] == candidates[0]);
        }
    }
}

/// `child` is an edge-preserving crossover of `first` and `second`: it starts
/// with the first two numbers of `first`, and every later number is the first
/// untaken neighbour of its predecessor in the parents, or, where all of those
/// are taken, any untaken number.
pub open spec fn is_crossover_of(child: Seq<usize>, first: Seq<usize>, second: Seq<usize>) -> bool {
    &&& child[0] == first[0]
    &&& child[1] == first[1]
    &&& forall|p: int|
        2 <= p < child.len() ==> match first_untaken(
            neighbour_candidates(first, second, child[p - 1], p - 2),
            #[trigger] child.take(p),
        ) {
            Some(c) => child[p] == c,
            None => true,
        }
}

/// The first of `candidates` that `taken` lacks; the last one is untaken.
fn first_untaken_of(candidates: &Vec<usize>, taken: &Vec<usize>) -> (r: usize)
    requires
        candidates@.len() > 0,
        !taken@.contains(candidates@.last()),
    ensures
        first_untaken(candidates@, taken@) == Some(r),
{
    let mut i: usize = 0;
    assert(candidates@.skip(0) =~= candidates@);
    loop
        invariant
            i < candidates@.len(),
            !taken@.contains(candidates@.last()),
            first_untaken(candidates@, taken@) == first_untaken(candidates@.skip(i as int), taken@),
        decreases candidates.len() - i,
    {
        let c = candidates[i];
        let ghost rest = candidates@.skip(i as int);
        assert(rest[0] == c);
        if !contains_number(taken, c) {
            return c;
        }
        assert(rest.drop_first() =~= candidates@.skip(i + 1));
        i = i + 1;
    }
}

impl Sequence {
    /// The order of the cities.
    pub closed spec fn numbers_view(&self) -> Seq<usize> {
        self.numbers@
    }

    /// The identity of this individual.
    pub closed spec fn id_view(&self) -> usize {
        self.id
    }

    /// The identities of the parents, where the individual has them.
    pub closed spec fn parent_ids_view(&self) -> Option<(usize, usize)> {
        self.parent_ids
    }

    /// A random round trip through `size` cities: the numbers `0..size`
    /// shuffled, under the identity `id` and without parents.
    pub fn random(rng: &mut StdRng, size: usize, id: usize) -> (s: Self)
        ensures
            is_permutation(s.numbers_view(), size as nat),
            s.id_view() == id,
            s.parent_ids_view() is None,
    {
        let mut numbers: Vec<usize> = Vec::new();
        let mut k: usize = 0;
        while k < size
            invariant
                k <= size,
                numbers@ == Seq::new(k as nat, |i: int| i as usize),
            decreases size - k,
        {
            numbers.push(k);
            k = k + 1;
        }
        let ghost ordered = numbers@;
        assert(is_permutation(ordered, size as nat));
        shuffle(rng, &mut numbers);
        proof {
            lemma_permutation_of_reordering(ordered, numbers@, size as nat);
        }
        Sequence { numbers, id, parent_ids: None }
    }

    /// The numbers in visiting order.
    pub fn numbers(&self) -> (v: &Vec<usize>)
        ensures
            v@ == self.numbers_view(),
    {
        &self.numbers
    }

    /// The number of cities.
    pub fn len(&self) -> (n: usize)
        ensures
            n == self.numbers_view().len(),
    {
        self.numbers.len()
    }

    /// The city visited at `index`.
    pub fn get_number_at_index(&self, index: usize) -> (n: usize)
        requires
            index < self.numbers_view().len(),
        ensures
            n == self.numbers_view()[index as int],
    {
        self.numbers[index]
    }

    /// The first position at which `number` is visited.
    pub fn get_index_of_number(&self, number: usize) -> (index: usize)
        requires
            self.numbers_view().contains(number),
        ensures
            index < self.numbers_view().len(),
            self.numbers_view()[index as int] == number,
            forall|j: int| 0 <= j < index ==> self.numbers_view()[j] != number,
    {
        let mut i: usize = 0;
        while i < self.numbers.len()
            invariant
                i <= self.numbers@.len(),
                self.numbers@.contains(number),
                forall|j: int| 0 <= j < i ==> self.numbers@[j] != number,
            decreases self.numbers.len() - i,
        {
            if self.numbers[i] == number {
                return i;
            }
            i = i + 1;
        }
        assert(false);
        0
    }

    /// The numbers visited before and after `number`; positions wrap modulo
    /// one less than the number of cities.
    pub fn get_surrounding_numbers(&self, number: usize) -> (r: (usize, usize))
        requires
            self.numbers_view().len() >= 2,
            self.numbers_view().no_duplicates(),
            self.numbers_view().contains(number),
        ensures
            r == surrounding(self.numbers_view(), number),
    {
        let size = self.len();
        let number_index = self.get_index_of_number(number);
        let ghost s = self.numbers@;
        assert(index_in(s, number) == number_index) by {
            let j = index_in(s, number);
            assert(s[j] == number);
        }
        let previous_index = number_index % (size - 1);
        proof {
            lemma_mod_add_multiples_vanish(number_index as int, size as int - 1);
            assert((number_index + size - 1) % (size - 1) == previous_index);
        }
        let following_index = (number_index + 1) % (size - 1);
        let previous_number = self.get_number_at_index(previous_index);
        let following_number = self.get_number_at_index(following_index);
        (previous_number, following_number)
    }

    /// Edge-preserving crossover of two round trips through the same cities.
    /// The child starts with the first two cities of `first`; then, number
    /// after number, it takes the first untaken neighbour of the latest city in
    /// the parents (alternating which parent is asked first), or else a random
    /// untaken city. A random city is drawn at every step, used or not.
    pub fn crossover(rng: &mut StdRng, first: &Self, second: &Self, id: usize) -> (child: Self)
        requires
            first.numbers_view().len() >= 2,
            is_permutation(first.numbers_view(), first.numbers_view().len()),
            is_permutation(second.numbers_view(), first.numbers_view().len()),
        ensures
            is_permutation(child.numbers_view(), first.numbers_view().len()),
            is_crossover_of(child.numbers_view(), first.numbers_view(), second.numbers_view()),
            child.id_view() == id,
            child.parent_ids_view() == Some((first.id_view(), second.id_view())),
    {
        let size = first.len();
        let ghost fs = first.numbers@;
        let ghost ss = second.numbers@;
        let mut new_numbers: Vec<usize> = Vec::new();
        let first_number = first.get_number_at_index(0);
        new_numbers.push(first_number);
        let second_number = first.get_number_at_index(1);
        new_numbers.push(second_number);
        assert(fs[0] != fs[1]);
        let mut i: usize = 0;
        while new_numbers.len() < size
            invariant
                size == fs.len(),
                size >= 2,
                fs == first.numbers@,
                ss == second.numbers@,
                is_permutation(fs, size as nat),
                is_permutation(ss, size as nat),
                2 <= new_numbers@.len() <= size,
                i == new_numbers@.len() - 2,
                new_numbers@.no_duplicates(),
                forall|k: int| 0 <= k < new_numbers@.len() ==> #[trigger] new_numbers@[k] < size,
                is_crossover_of(new_numbers@, fs, ss),
            decreases size - new_numbers@.len(),
        {
            let newest_number = new_numbers[new_numbers.len() - 1];
            proof {
                lemma_permutation_contains(fs, size as nat, newest_number);
                lemma_permutation_contains(ss, size as nat, newest_number);
            }
            let (previous_number_first, following_number_first) =
                first.get_surrounding_numbers(newest_number);
            let (previous_number_second, following_number_second) =
                second.get_surrounding_numbers(newest_number);
            proof {
                lemma_distinct_below(new_numbers@, size as nat);
            }
            let untaken = untaken_below(size, &new_numbers);
            let random_new_number = match choose_stable_from(rng, &untaken) {
                Some(n) => n,
                None => {
                    assert(false);
                    0
                },
            };
            let possible_numbers = if i % 2 == 1 {
                vec![
                    previous_number_first,
                    following_number_first,
                    previous_number_second,
                    following_number_second,
                    random_new_number,
                ]
            } else {
                vec![
                    previous_number_second,
                    following_number_second,
                    previous_number_first,
                    following_number_first,
                    random_new_number,
                ]
            };
            i = i + 1;
            let new_number = first_untaken_of(&possible_numbers, &new_numbers);
            proof {
                let ghost old_numbers = new_numbers@;
                let ghost cands = neighbour_candidates(fs, ss, newest_number, (i - 1) as int);
                assert(possible_numbers@ =~= cands.push(random_new_number));
                lemma_first_untaken_push(cands, random_new_number, old_numbers);
                lemma_first_untaken_is_candidate(possible_numbers@, old_numbers);
            }
            let ghost before = new_numbers@;
            new_numbers.push(new_number);
            proof {
                let ghost after = new_numbers@;
                assert(after.take(before.len() as int) =~= before);
                assert forall|p: int| 2 <= p < after.len() implies match first_untaken(
                    neighbour_candidates(fs, ss, after[p - 1], p - 2),
                    #[trigger] after.take(p),
                ) {
                    Some(c) => after[p] == c,
                    None => true,
                } by {
                    if p < before.len() {
                        assert(after.take(p) =~= before.take(p));
                        assert(before.take(p) == before.take(p));
                    }
                }
                assert forall|k: int| 0 <= k < after.len() implies #[trigger] after[k] < size by {
                    if k < before.len() {
                        assert(after[k] == before[k]);
                    }
                }
            }
        }
        let child = Sequence {
            numbers: new_numbers,
            id,
            parent_ids: Some((first.id, second.id)),
        };
        child
    }

    /// Swaps two distinct, randomly drawn positions of the trip (`rand`'s
    /// `sample` of two positions); the trip has at least two cities.
    pub fn swap_two_numbers(&mut self, rng: &mut StdRng)
        requires
            old(self).numbers_view().len() >= 2,
        ensures
            exists|a: int, b: int|
                0 <= a < old(self).numbers_view().len() && 0 <= b < old(self).numbers_view().len()
                    && a != b && final(self).numbers_view() == old(self).numbers_view().update(
                    a,
                    old(self).numbers_view()[b],
                ).update(b, old(self).numbers_view()[a]),
            final(self).id_view() == old(self).id_view(),
            final(self).parent_ids_view() == old(self).parent_ids_view(),
    {
        let swap_indices = sample_two_below(rng, self.numbers.len());
        let a = swap_indices[0];
        let b = swap_indices[1];
        let value_a = self.numbers[a];
        let value_b = self.numbers[b];
        self.numbers.set(a, value_b);
        self.numbers.set(b, value_a);
    }

    /// The identity of this individual.
    pub fn id(&self) -> (id: usize)
        ensures
            id == self.id_view(),
    {
        self.id
    }

    /// The identities of the parents, where the individual has them.
    pub fn parents(&self) -> (p: Option<(usize, usize)>)
        ensures
            p == self.parent_ids_view(),
    {
        self.parent_ids
    }

    /// The identities of the parents; the individual must have come from a crossover.
    pub fn parent_ids(&self) -> (ids: (usize, usize))
        requires
            self.parent_ids_view() is Some,
        ensures
            Some(ids) == self.parent_ids_view(),
    {
        match self.parent_ids {
            Some(ids) => ids,
            None => {
                assert(false);
                (0, 0)
            },
        }
    }
}

/// Reordering a permutation keeps it a permutation.
pub proof fn lemma_permutation_of_reordering(a: Seq<usize>, b: Seq<usize>, n: nat)
    requires
        is_permutation(a, n),
        a.to_multiset() == b.to_multiset(),
    ensures
        is_permutation(b, n),
{
    broadcast use vstd::seq_lib::group_to_multiset_ensures;

    vstd::seq_lib::to_multiset_len(a);
    vstd::seq_lib::to_multiset_len(b);
    a.lemma_multiset_has_no_duplicates();
    assert forall|x: usize| b.to_multiset().contains(x) implies b.to_multiset().count(x) == 1 by {
        assert(a.to_multiset().contains(x));
    }
    b.lemma_multiset_has_no_duplicates_conv();
    assert forall|i: int| 0 <= i < b.len() implies #[trigger] b[i] < n by {
        assert(b.contains(b[i]));
        assert(b.to_multiset().count(b[i]) > 0);
        assert(a.contains(b[i]));
    }
}

/// Appending a candidate only matters when every earlier one is taken.
proof fn lemma_first_untaken_push(candidates: Seq<usize>, extra: usize, taken: Seq<usize>)
    ensures
        first_untaken(candidates.push(extra), taken) == match first_untaken(candidates, taken) {
            Some(c) => Some(c),
            None => first_untaken(seq![extra], taken),
        },
    decreases candidates.len(),
{
    if candidates.len() > 0 {
        assert(candidates.push(extra)[0] == candidates[0]);
        assert(candidates.push(extra).drop_first() =~= candidates.drop_first().push(extra));
        lemma_first_untaken_push(candidates.drop_first(), extra, taken);
    } else {
        assert(candidates.push(extra) =~= seq![extra]);
    }
}

/// What `first_untaken` finds is an untaken candidate.
proof fn lemma_first_untaken_is_candidate(candidates: Seq<usize>, taken: Seq<usize>)
    ensures
        first_untaken(candidates, taken) matches Some(c) ==> candidates.contains(c) && !taken.contains(c),
    decreases candidates.len(),
{
    if candidates.len() > 0 && taken.contains(candidates[0]) {
        lemma_first_untaken_is_candidate(candidates.drop_first(), taken);
        if first_untaken(candidates, taken) is Some {
            let c = first_untaken(candidates, taken)->0;
            let k = choose|k: int| 0 <= k < candidates.drop_first().len() && candidates.drop_first()[k] == c;
            assert(candidates[k + 1] == c);
        }
    }
}

} // verus!
