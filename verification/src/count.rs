//! The closed form for the number of assignments.

use vstd::prelude::*;
use vstd::arithmetic::power::pow;

verus! {

/// `base^0 + base^1 + ... + base^top`.
pub open spec fn power_sum(base: int, top: nat) -> int
    decreases top,
{
    if top == 0 {
        1
    } else {
        power_sum(base, (top - 1) as nat) + pow(base, top)
    }
}

/// The number of assignments that the enumeration records for
/// `num_packages` packages and `num_bags` bags: the sum of
/// `(num_bags - 1)^p` for `p` from 0 to `num_packages`.
pub open spec fn num_states(num_packages: nat, num_bags: nat) -> int {
    power_sum(num_bags - 1, num_packages)
}

/// One power more is the power times the base.
proof fn lemma_pow_step(base: int, e: nat)
    ensures
        pow(base, e + 1) == pow(base, e) * base,
        pow(base, 0) == 1,
{
    reveal(pow);
    assert(pow(base, e + 1) == base * pow(base, e));
    assert(base * pow(base, e) == pow(base, e) * base) by (nonlinear_arith);
}

/// No power of a base that is not negative is negative.
proof fn lemma_pow_not_negative(base: int, e: nat)
    requires
        base >= 0,
    ensures
        pow(base, e) >= 0,
    decreases e,
{
    if e == 0 {
        lemma_pow_step(base, 0);
    } else {
        let before = (e - 1) as nat;
        lemma_pow_not_negative(base, before);
        lemma_pow_step(base, before);
        assert(pow(base, before) * base >= 0) by (nonlinear_arith)
            requires
                pow(base, before) >= 0,
                base >= 0,
        ;
    }
}

/// With a base that is not negative, the sum grows with its upper end and is
/// at least its last term.
pub proof fn lemma_power_sum_grows(base: int, low: nat, top: nat)
    requires
        base >= 0,
        low <= top,
    ensures
        0 <= pow(base, low) <= power_sum(base, low) <= power_sum(base, top),
    decreases top,
{
    lemma_pow_not_negative(base, low);
    lemma_pow_not_negative(base, top);
    lemma_pow_step(base, 0);
    if top > 0 {
        if low == top {
            lemma_power_sum_grows(base, 0, (top - 1) as nat);
        } else {
            lemma_power_sum_grows(base, low, (top - 1) as nat);
        }
    }
}

/// The sum written the other way round: one more than the base times the
/// sum that ends one term earlier.
pub proof fn lemma_power_sum_unfold(base: int, top: nat)
    requires
        top >= 1,
    ensures
        power_sum(base, top) == 1 + base * power_sum(base, (top - 1) as nat),
    decreases top,
{
    let before = (top - 1) as nat;
    lemma_pow_step(base, before);
    if top == 1 {
        assert(pow(base, 1) == base) by {
            assert(1 * base == base);
        }
        assert(power_sum(base, 0) == 1);
        assert(base * 1 == base);
    } else {
        let earlier = (top - 2) as nat;
        lemma_power_sum_unfold(base, before);
        assert(power_sum(base, before) == power_sum(base, earlier) + pow(base, before));
        assert(base * power_sum(base, before) == base * power_sum(base, earlier) + pow(
            base,
            before,
        ) * base) by (nonlinear_arith)
            requires
                power_sum(base, before) == power_sum(base, earlier) + pow(base, before),
        ;
    }
}

/// The closed form, or `None` where it does not fit in a `usize`.
pub fn checked_num_states(num_packages: usize, num_bags: usize) -> (count: Option<usize>)
    requires
        num_bags >= 1,
    ensures
        count is Some <==> num_states(num_packages as nat, num_bags as nat) <= usize::MAX,
        count is Some ==> count->0 == num_states(num_packages as nat, num_bags as nat),
{
    let b: usize = num_bags - 1;
    let mut acc: usize = 1;
    let mut term: usize = 1;
    let mut p: usize = 0;
    proof {
        lemma_pow_step(b as int, 0);
    }
    while p < num_packages
        invariant
            p <= num_packages,
            term == pow(b as int, p as nat),
            acc == power_sum(b as int, p as nat),
            b == num_bags - 1,
        decreases num_packages - p,
    {
        proof {
            lemma_pow_step(b as int, p as nat);
            lemma_power_sum_grows(b as int, (p + 1) as nat, num_packages as nat);
        }
        match term.checked_mul(b) {
            None => {
                return None;
            },
            Some(next) => {
                term = next;
            },
        }
        match acc.checked_add(term) {
            None => {
                return None;
            },
            Some(sum) => {
                acc = sum;
            },
        }
        p += 1;
    }
    Some(acc)
}

/// The closed form: the sum of `(num_bags - 1)^p` for `p` from 0 to
/// `num_packages`.
pub fn calculate_num_states(num_packages: usize, num_bags: usize) -> (count: usize)
    requires
        num_bags >= 1,
        num_states(num_packages as nat, num_bags as nat) <= usize::MAX,
    ensures
        count == num_states(num_packages as nat, num_bags as nat),
{
    let b: usize = num_bags - 1;
    let mut acc: usize = 1;
    let mut term: usize = 1;
    let mut p: usize = 0;
    proof {
        lemma_pow_step(b as int, 0);
    }
    while p < num_packages
        invariant
            p <= num_packages,
            term == pow(b as int, p as nat),
            acc == power_sum(b as int, p as nat),
            b == num_bags - 1,
            num_states(num_packages as nat, num_bags as nat) <= usize::MAX,
        decreases num_packages - p,
    {
        proof {
            lemma_pow_step(b as int, p as nat);
            lemma_power_sum_grows(b as int, (p + 1) as nat, num_packages as nat);
        }
        term = term * b;
        acc = acc + term;
        p += 1;
    }
    acc
}

} // verus!
