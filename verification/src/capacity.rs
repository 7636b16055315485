//! Capacity types of links and capacity plans: which capacity type each link
//! of the network is given.

use rand::rngs::StdRng;
use vstd::prelude::*;

use crate::random::{choose_below, choose_stable_from};
use crate::rofa::Rofa;

verus! {

/// A capacity type a link can be given: its capacity and the multiplier it
/// was made from, from which its fixed and variable costs follow.
#[derive(Debug, Clone, Copy)]
pub struct CapacityType {
    capacity: usize,
    multiplier: usize,
}

impl CapacityType {
    /// The capacity.
    pub closed spec fn capacity_view(&self) -> nat {
        self.capacity as nat
    }

    /// The multiplier.
    pub closed spec fn multiplier_view(&self) -> nat {
        self.multiplier as nat
    }

    /// The capacity type is larger than `min_capacity`.
    pub open spec fn exceeds_spec(&self, min_capacity: usize) -> bool {
        self.capacity_view() > min_capacity
    }

    /// The capacity type of multiplier `multiplier`, with capacity
    /// 10^(3 + multiplier) computed in `u32` with wrapping multiplication:
    /// modulo 2^32 where the power does not fit. This is intended: the
    /// simulation's problems give their largest capacity type multiplier 10,
    /// and the experiments run with these wrapped capacities (the `u32`
    /// power of a release build). The exponent itself fits in `u32`.
    pub fn from_multiplier(multiplier: usize) -> (c: Self)
        requires
            multiplier <= u32::MAX - 3,
        ensures
            c.capacity_view() == ten_to((3 + multiplier) as nat) % 0x1_0000_0000,
            c.multiplier_view() == multiplier,
    {
        let exponent: u32 = 3 + multiplier as u32;
        let mut power: u32 = 1;
        let mut k: u32 = 0;
        while k < exponent
            invariant
                exponent == 3 + multiplier,
                k <= exponent,
                power == ten_to(k as nat) % 0x1_0000_0000,
            decreases exponent - k,
        {
            proof {
                vstd::arithmetic::div_mod::lemma_mul_mod_noop_left(ten_to(k as nat) as int, 10, 0x1_0000_0000);
                assert(ten_to((k + 1) as nat) == ten_to(k as nat) * 10);
            }
            power = power.wrapping_mul(10);
            k = k + 1;
        }
        CapacityType { capacity: power as usize, multiplier }
    }

    /// The capacity.
    pub fn capacity(&self) -> (c: usize)
        ensures
            c == self.capacity_view(),
    {
        self.capacity
    }

    /// The multiplier.
    pub fn multiplier(&self) -> (m: usize)
        ensures
            m == self.multiplier_view(),
    {
        self.multiplier
    }

    /// Whether the capacity exceeds `min_capacity`.
    pub fn exceeds(&self, min_capacity: usize) -> (b: bool)
        ensures
            b == self.exceeds_spec(min_capacity),
    {
        self.capacity > min_capacity
    }
}

/// The places of the capacity types whose capacity exceeds `min_capacity`,
/// in increasing order.
pub fn exceeding_indices(types: &Vec<CapacityType>, min_capacity: usize) -> (r: Vec<usize>)
    ensures
        forall|i: usize| r@.contains(i) <==> (i < types@.len() && types@[i as int].exceeds_spec(min_capacity)),
        forall|a: int, b: int| 0 <= a < b < r@.len() ==> r@[a] < r@[b],
{
    let mut r: Vec<usize> = Vec::new();
    let mut n: usize = 0;
    while n < types.len()
        invariant
            n <= types@.len(),
            forall|i: usize| r@.contains(i) <==> (i < n && types@[i as int].exceeds_spec(min_capacity)),
            forall|a: int, b: int| 0 <= a < b < r@.len() ==> r@[a] < r@[b],
            forall|a: int| 0 <= a < r@.len() ==> r@[a] < n,
        decreases types@.len() - n,
    {
        let ghost before = r@;
        let exceeds = types[n].exceeds(min_capacity);
        if exceeds {
            r.push(n);
            proof {
                assert(r@ == before.push(n));
                assert forall|i: usize| r@.contains(i) <==> (i < n + 1 && types@[i as int].exceeds_spec(min_capacity)) by {
                    if i == n {
                        assert(r@[before.len() as int] == n);
                        assert(types@[n as int].exceeds_spec(min_capacity));
                    } else if r@.contains(i) {
                        let a = choose|a: int| 0 <= a < r@.len() && r@[a] == i;
                        assert(before[a] == i);
                        assert(before.contains(i));
                    } else if before.contains(i) {
                        let a = choose|a: int| 0 <= a < before.len() && before[a] == i;
                        assert(r@[a] == i);
                    }
                }
            }
        } else {
            proof {
                assert forall|i: usize| r@.contains(i) <==> (i < n + 1 && types@[i as int].exceeds_spec(min_capacity)) by {
                    if i == n {
                        assert(!types@[n as int].exceeds_spec(min_capacity));
                        if r@.contains(i) {
                            let a = choose|a: int| 0 <= a < r@.len() && r@[a] == i;
                            assert(r@[a] < n);
                        }
                    }
                }
            }
        }
        n = n + 1;
    }
    r
}

/// Two to the power `e`.
pub open spec fn two_to(e: nat) -> nat
    decreases e,
{
    if e == 0 {
        1
    } else {
        2 * two_to((e - 1) as nat)
    }
}

/// How many times `x` must be halved, rounding down, to fall below 2^24, the
/// range in which `f32` holds every integer exactly.
pub open spec fn excess_bits(x: nat) -> nat
    decreases x,
{
    if x < 0x100_0000 {
        0
    } else {
        1 + excess_bits(x / 2)
    }
}

/// `x` as the nearest `f32` holds it: rounded to 24 significant bits, a tie
/// going to the neighbour with an even last bit.
pub open spec fn f32_rounded(x: nat) -> nat {
    let unit = two_to(excess_bits(x));
    let q = x / unit;
    let r = x % unit;
    if unit > 1 && (r > unit / 2 || (r == unit / 2 && q % 2 == 1)) {
        (q + 1) * unit
    } else {
        q * unit
    }
}

/// `(x as f32 / 2.0).floor() as usize`: half of `x` as `f32` holds it,
/// rounded down. Below 2^24 this is `x / 2`.
pub open spec fn f32_half(x: nat) -> nat {
    f32_rounded(x) / 2
}

/// Half of `x` as the plans' crossover computes it in `f32` (see `f32_half`),
/// in integer arithmetic.
pub fn half_in_f32(x: usize) -> (h: usize)
    ensures
        h == f32_half(x as nat),
        h <= x,
        x >= 2 ==> h >= 1,
{
    let mut q: usize = x;
    let mut unit: usize = 1;
    let ghost mut e: nat = 0;
    while q >= 0x100_0000
        invariant
            unit == two_to(e),
            unit >= 1,
            q == x as int / unit as int,
            excess_bits(x as nat) == e + excess_bits(q as nat),
            q * unit <= x,
            e > 0 ==> q >= 0x80_0000,
        decreases q,
    {
        proof {
            assert(2 * unit <= x) by (nonlinear_arith)
                requires
                    q >= 0x100_0000,
                    q * unit <= x,
                    unit >= 1,
            ;
            vstd::arithmetic::div_mod::lemma_div_denominator(x as int, unit as int, 2);
            assert((q / 2) * (unit * 2) <= q * unit) by (nonlinear_arith)
                requires
                    unit >= 1,
            ;
        }
        q = q / 2;
        unit = unit * 2;
        proof {
            e = e + 1;
        }
    }
    proof {
        assert(excess_bits(q as nat) == 0);
        assert(e == excess_bits(x as nat));
    }
    if unit == 1 {
        proof {
            assert(e == 0);
            assert(x as int / 1 == x);
            assert(x as int % 1 == 0);
            assert(two_to(0) == 1);
            let xn = x as nat;
            assert(excess_bits(xn) == 0);
            assert(two_to(excess_bits(xn)) == 1);
            assert(xn / 1 == xn);
            assert(xn % 1 == 0);
            assert(f32_rounded(xn) == xn * 1);
            assert(xn * 1 == xn);
            assert(f32_half(xn) == xn / 2);
        }
        return x / 2;
    }
    let r = x % unit;
    let h = unit / 2;
    proof {
        assert(e > 0);
        assert(unit == 2 * two_to((e - 1) as nat));
        assert(unit == 2 * h);
    }
    let up = r > h || (r == h && q % 2 == 1);
    let rounded_q = if up { q + 1 } else { q };
    proof {
        assert(rounded_q * h <= x) by (nonlinear_arith)
            requires
                rounded_q == q || rounded_q == q + 1,
                q >= 0x80_0000,
                unit == 2 * h,
                q * unit <= x,
        ;
        assert(rounded_q * unit == 2 * (rounded_q * h)) by (nonlinear_arith)
            requires
                unit == 2 * h,
        ;
        assert(f32_rounded(x as nat) == rounded_q * unit);
        assert(rounded_q * h >= 1) by (nonlinear_arith)
            requires
                rounded_q >= 0x80_0000,
                h >= 1,
        ;
    }
    rounded_q * h
}

/// Ten to the power `e`.
pub open spec fn ten_to(e: nat) -> nat
    decreases e,
{
    if e == 0 {
        1
    } else {
        10 * ten_to((e - 1) as nat)
    }
}

/// Some capacity type of `types` exceeds `min_capacity`.
pub open spec fn has_capacity_above(types: Seq<CapacityType>, min_capacity: usize) -> bool {
    exists|t: int| 0 <= t < types.len() && (#[trigger] types[t]).exceeds_spec(min_capacity)
}

/// The capacity types that links can be given.
#[derive(Debug, Clone)]
pub struct CapacityTypes {
    capacity_types: Vec<CapacityType>,
}

/// The position of the largest capacity in `types`, the first one where
/// several are largest.
pub open spec fn is_first_largest(types: Seq<CapacityType>, i: int) -> bool {
    &&& 0 <= i < types.len()
    &&& forall|j: int| 0 <= j < types.len() ==> (#[trigger] types[j]).capacity_view() <= types[i].capacity_view()
    &&& forall|j: int| 0 <= j < i ==> (#[trigger] types[j]).capacity_view() < types[i].capacity_view()
}

impl CapacityTypes {
    /// The capacity types, in their order.
    pub closed spec fn types_view(&self) -> Seq<CapacityType> {
        self.capacity_types@
    }

    /// The given capacity types.
    pub fn new(capacity_types: Vec<CapacityType>) -> (t: Self)
        ensures
            t.types_view() == capacity_types@,
    {
        CapacityTypes { capacity_types }
    }

    /// The capacity types, in their order.
    pub fn capacity_types(&self) -> (v: &Vec<CapacityType>)
        ensures
            v@ == self.types_view(),
    {
        &self.capacity_types
    }

    /// The capacity type of largest capacity, the first of them where several
    /// are largest; there is at least one capacity type.
    pub fn max(&self) -> (c: CapacityType)
        requires
            self.types_view().len() > 0,
        ensures
            exists|i: int| is_first_largest(self.types_view(), i) && c == self.types_view()[i],
    {
        let mut best: usize = 0;
        let mut k: usize = 1;
        while k < self.capacity_types.len()
            invariant
                1 <= k <= self.capacity_types@.len(),
                is_first_largest(self.capacity_types@.take(k as int), best as int),
            decreases self.capacity_types.len() - k,
        {
            let ghost before = self.capacity_types@.take(k as int);
            let ghost after = self.capacity_types@.take(k + 1);
            if self.capacity_types[k].capacity > self.capacity_types[best].capacity {
                best = k;
            }
            proof {
                assert forall|j: int| 0 <= j < after.len() implies (#[trigger] after[j]).capacity_view() <= after[best as int].capacity_view() by {
                    if j < k {
                        assert(after[j] == before[j]);
                    }
                }
                assert forall|j: int| 0 <= j < best implies (#[trigger] after[j]).capacity_view() < after[best as int].capacity_view() by {
                    assert(after[j] == self.capacity_types@[j]);
                }
            }
            k = k + 1;
        }
        assert(self.capacity_types@.take(self.capacity_types@.len() as int) =~= self.capacity_types@);
        self.capacity_types[best]
    }
}

/// For each link, in the order of the links, the capacity type it is given.
#[derive(Debug, Clone)]
pub struct CapacityPlan {
    planned_capacity_types: Vec<CapacityType>,
}

/// `child` takes the capacity types of `second` at the positions after
/// `point` up to and including `point + half`, and those of `first`
/// elsewhere.
pub open spec fn two_point_child(first: Seq<CapacityType>, second: Seq<CapacityType>, point: int, half: int, child: Seq<CapacityType>) -> bool {
    &&& child.len() == first.len()
    &&& forall|i: int| 0 <= i < child.len() ==> #[trigger] child[i] == if i <= point || i > point + half {
        first[i]
    } else {
        second[i]
    }
}

/// Crossing a capacity plan with itself gives it back, wherever the point
/// falls.
pub proof fn lemma_two_point_child_of_itself(plan: Seq<CapacityType>, point: int, half: int, child: Seq<CapacityType>)
    requires
        two_point_child(plan, plan, point, half, child),
    ensures
        child == plan,
{
    assert(child =~= plan);
}

impl CapacityPlan {
    /// The planned capacity types, one for each link.
    pub closed spec fn plan_view(&self) -> Seq<CapacityType> {
        self.planned_capacity_types@
    }

    /// Every one of `number_links` links is given the largest capacity type;
    /// there is at least one capacity type.
    pub fn with_highest_capacities(capacity_types: &CapacityTypes, number_links: usize) -> (p: Self)
        requires
            capacity_types.types_view().len() > 0,
        ensures
            p.plan_view().len() == number_links,
            exists|i: int| is_first_largest(capacity_types.types_view(), i) && forall|j: int| 0 <= j < number_links ==> #[trigger] p.plan_view()[j] == capacity_types.types_view()[i],
    {
        let largest = capacity_types.max();
        let ghost i = choose|i: int| is_first_largest(capacity_types.types_view(), i) && largest == capacity_types.types_view()[i];
        let mut planned_capacity_types: Vec<CapacityType> = Vec::new();
        let mut k: usize = 0;
        while k < number_links
            invariant
                k <= number_links,
                planned_capacity_types@.len() == k,
                forall|j: int| 0 <= j < k ==> #[trigger] planned_capacity_types@[j] == largest,
            decreases number_links - k,
        {
            planned_capacity_types.push(largest);
            k = k + 1;
        }
        let p = CapacityPlan { planned_capacity_types };
        assert(forall|j: int| 0 <= j < number_links ==> #[trigger] p.plan_view()[j] == capacity_types.types_view()[i]);
        p
    }

    /// Two point crossover: a point is drawn below half the length, and the
    /// child takes the capacity types of `second` after that point up to and
    /// including half the length beyond it, and those of `first` elsewhere.
    /// The half is taken in `f32` (`f32_half`), which is exact below 2^24
    /// links. The plans are equally long and at least two links long (and,
    /// as vectors of two machine words an entry, shorter than half the
    /// address space).
    pub fn crossover(rng: &mut StdRng, first: &Self, second: &Self) -> (child: Self)
        requires
            first.plan_view().len() == second.plan_view().len(),
            2 <= first.plan_view().len() <= usize::MAX / 2,
        ensures
            exists|point: int| 0 <= point < f32_half(first.plan_view().len()) && #[trigger] two_point_child(
                first.plan_view(),
                second.plan_view(),
                point,
                f32_half(first.plan_view().len()) as int,
                child.plan_view(),
            ),
    {
        let length = first.planned_capacity_types.len();
        let length_other_parent = half_in_f32(length);
        let crossover_point_one = match choose_below(rng, length_other_parent) {
            Some(p) => p,
            None => {
                assert(false);
                0
            },
        };
        let crossover_point_two = crossover_point_one + length_other_parent;
        let mut planned_capacity_types: Vec<CapacityType> = Vec::new();
        let mut i: usize = 0;
        while i < length
            invariant
                length == first.plan_view().len(),
                length == second.plan_view().len(),
                crossover_point_two == crossover_point_one + length_other_parent,
                i <= length,
                planned_capacity_types@.len() == i,
                forall|j: int| 0 <= j < i ==> #[trigger] planned_capacity_types@[j] == if j <= crossover_point_one || j > crossover_point_two {
                    first.plan_view()[j]
                } else {
                    second.plan_view()[j]
                },
            decreases length - i,
        {
            if i <= crossover_point_one || i > crossover_point_two {
                planned_capacity_types.push(first.planned_capacity_types[i]);
            } else {
                planned_capacity_types.push(second.planned_capacity_types[i]);
            }
            i = i + 1;
        }
        let child = CapacityPlan { planned_capacity_types };
        assert(two_point_child(
            first.plan_view(),
            second.plan_view(),
            crossover_point_one as int,
            length_other_parent as int,
            child.plan_view(),
        ));
        child
    }

    /// Gives a link drawn at random a capacity type drawn among those whose
    /// capacity exceeds the link's entry in `min_capacities`. The plan is not
    /// empty, `min_capacities` has an entry for each link, and for each link
    /// some capacity type of the problem exceeds its entry.
    pub fn mutate(&mut self, rng: &mut StdRng, min_capacities: Vec<usize>, problem: &Rofa)
        requires
            old(self).plan_view().len() > 0,
            min_capacities@.len() >= old(self).plan_view().len(),
            forall|j: int| 0 <= j < old(self).plan_view().len() ==> has_capacity_above(problem.capacity_types_view(), #[trigger] min_capacities@[j]),
        ensures
            exists|j: int| 0 <= j < old(self).plan_view().len() && problem.capacity_types_view().contains(final(self).plan_view()[j]) && final(self).plan_view()[j].exceeds_spec(min_capacities@[j]) && final(self).plan_view() == old(self).plan_view().update(j, final(self).plan_view()[j]),
    {
        let length = self.planned_capacity_types.len();
        let index_to_mutate = match choose_below(rng, length) {
            Some(i) => i,
            None => {
                assert(false);
                0
            },
        };
        let min_capacity = min_capacities[index_to_mutate];
        let types = problem.capacity_types().capacity_types();
        let candidates = exceeding_indices(types, min_capacity);
        let chosen = match choose_stable_from(rng, &candidates) {
            Some(i) => i,
            None => {
                proof {
                    assert(has_capacity_above(problem.capacity_types_view(), min_capacities@[index_to_mutate as int]));
                    let t = choose|t: int| 0 <= t < problem.capacity_types_view().len() && (#[trigger] problem.capacity_types_view()[t]).exceeds_spec(min_capacity);
                    assert(types@.len() == types.len());
                    let tu = t as usize;
                    assert(tu as int == t);
                    assert(types@[tu as int].exceeds_spec(min_capacity));
                    assert(candidates@.contains(tu));
                }
                assert(false);
                return;
            },
        };
        let mutated_capacity = types[chosen];
        self.planned_capacity_types.set(index_to_mutate, mutated_capacity);
    }

    /// The planned capacity types, one for each link.
    pub fn planned_capacity_types(&self) -> (v: &Vec<CapacityType>)
        ensures
            v@ == self.plan_view(),
    {
        &self.planned_capacity_types
    }
}

} // verus!
