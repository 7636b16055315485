//! Sequences of distinct numbers: membership and counting arguments.

use vstd::prelude::*;
use vstd::set_lib::{lemma_int_range, lemma_len_subset, lemma_subset_equality, set_int_range};

verus! {

/// `s` holds each of the numbers `0..n` exactly once.
pub open spec fn is_permutation(s: Seq<usize>, n: nat) -> bool {
    &&& s.len() == n
    &&& s.no_duplicates()
    &&& forall|i: int| 0 <= i < s.len() ==> #[trigger] s[i] < n
}

/// Distinct numbers below `n`: there are at most `n` of them; fewer leave a
/// number below `n` out, and exactly `n` of them take every number below `n`.
pub proof fn lemma_distinct_below(s: Seq<usize>, n: nat)
    requires
        n <= usize::MAX,
        s.no_duplicates(),
        forall|i: int| 0 <= i < s.len() ==> #[trigger] s[i] < n,
    ensures
        s.len() <= n,
        s.len() < n ==> exists|k: usize| k < n && !s.contains(k),
        s.len() == n ==> forall|k: usize| k < n ==> s.contains(k),
{
    let si = s.map_values(|x: usize| x as int);
    assert forall|i: int, j: int| 0 <= i < si.len() && 0 <= j < si.len() && i != j implies si[i]
        != si[j] by {
        assert(s[i] != s[j]);
    }
    assert(si.no_duplicates());
    si.unique_seq_to_set();
    let range = set_int_range(0, n as int);
    lemma_int_range(0, n as int);
    assert forall|k: int| si.to_set().contains(k) implies range.contains(k) by {
        let i = choose|i: int| 0 <= i < si.len() && si[i] == k;
        assert(s[i] < n);
    }
    lemma_len_subset(si.to_set(), range);
    if s.len() == n {
        lemma_subset_equality(si.to_set(), range);
        assert forall|k: usize| k < n implies s.contains(k) by {
            assert(range.contains(k as int));
            assert(si.to_set().contains(k as int));
            let i = choose|i: int| 0 <= i < si.len() && si[i] == k as int;
            assert(s[i] == k);
        }
    }
    if s.len() < n {
        if forall|k: usize| k < n ==> s.contains(k) {
            assert forall|k: int| range.contains(k) implies si.to_set().contains(k) by {
                assert(s.contains(k as usize));
                let i = choose|i: int| 0 <= i < s.len() && s[i] == k as usize;
                assert(si[i] == k);
            }
            lemma_len_subset(range, si.to_set());
        }
    }
}

/// A permutation of `0..n` contains every number below `n`.
pub proof fn lemma_permutation_contains(s: Seq<usize>, n: nat, k: usize)
    requires
        n <= usize::MAX,
        is_permutation(s, n),
        k < n,
    ensures
        s.contains(k),
{
    lemma_distinct_below(s, n);
}

/// `n` occurs in `v`.
pub fn contains_number(v: &Vec<usize>, n: usize) -> (found: bool)
    ensures
        found == v@.contains(n),
{
    let mut i: usize = 0;
    while i < v.len()
        invariant
            i <= v.len(),
            forall|j: int| 0 <= j < i ==> v@[j] != n,
        decreases v.len() - i,
    {
        if v[i] == n {
            return true;
        }
        i = i + 1;
    }
    false
}

/// `n` does not occur in `taken`.
pub fn is_untaken(taken: &Vec<usize>, n: usize) -> (free: bool)
    ensures
        free == !taken@.contains(n),
{
    !contains_number(taken, n)
}

/// The numbers below `size` that `taken` lacks, in increasing order.
pub fn untaken_below(size: usize, taken: &Vec<usize>) -> (r: Vec<usize>)
    ensures
        forall|k: usize| r@.contains(k) <==> (k < size && !taken@.contains(k)),
        forall|i: int, j: int| 0 <= i < j < r@.len() ==> r@[i] < r@[j],
{
    let mut r: Vec<usize> = Vec::new();
    let mut n: usize = 0;
    while n < size
        invariant
            n <= size,
            forall|k: usize| r@.contains(k) <==> (k < n && !taken@.contains(k)),
            forall|i: int, j: int| 0 <= i < j < r@.len() ==> r@[i] < r@[j],
            forall|i: int| 0 <= i < r@.len() ==> r@[i] < n,
        decreases size - n,
    {
        let ghost before = r@;
        if is_untaken(taken, n) {
            r.push(n);
            proof {
                assert(r@ == before.push(n));
                assert forall|k: usize| r@.contains(k) <==> (k < n + 1 && !taken@.contains(k)) by {
                    if k == n {
                        assert(r@[before.len() as int] == n);
                    } else if r@.contains(k) {
                        let i = choose|i: int| 0 <= i < r@.len() && r@[i] == k;
                        assert(before[i] == k);
                    } else if before.contains(k) {
                        let i = choose|i: int| 0 <= i < before.len() && before[i] == k;
                        assert(r@[i] == k);
                    }
                }
            }
        } else {
            proof {
                assert forall|k: usize| r@.contains(k) <==> (k < n + 1 && !taken@.contains(k)) by {
                    if k == n && r@.contains(k) {
                        let i = choose|i: int| 0 <= i < r@.len() && r@[i] == k;
                    }
                }
            }
        }
        n = n + 1;
    }
    r
}

/// Distinct elements that all occur in `u` are at most as many as `u` has.
pub proof fn lemma_distinct_within<A>(s: Seq<A>, u: Seq<A>)
    requires
        s.no_duplicates(),
        forall|i: int| 0 <= i < s.len() ==> u.contains(#[trigger] s[i]),
    ensures
        s.len() <= u.len(),
{
    s.unique_seq_to_set();
    u.lemma_cardinality_of_set();
    assert forall|x: A| s.to_set().contains(x) implies u.to_set().contains(x) by {
        let i = choose|i: int| 0 <= i < s.len() && s[i] == x;
        assert(u.contains(s[i]));
    }
    vstd::set_lib::lemma_len_subset(s.to_set(), u.to_set());
}

} // verus!
