//! Powers of two and rounding.

use vstd::prelude::*;

verus! {

/// Whether `n` is 1, or twice a power of two.
pub open spec fn power_of_two(n: int) -> bool
    decreases n,
{
    n == 1 || (n > 1 && n % 2 == 0 && power_of_two(n / 2))
}

/// Between two neighbouring powers of two lies no other.
pub proof fn lemma_power_gap(p: int, n: int)
    requires
        power_of_two(p),
        power_of_two(n),
        p < n,
    ensures
        2 * p <= n,
    decreases n,
{
    if p > 1 {
        lemma_power_gap(p / 2, n / 2);
    }
}

/// Whether `n` is a power of two.
pub fn is_power_of_two(n: u64) -> (r: bool)
    ensures
        r == power_of_two(n as int),
{
    let mut p: u64 = n;
    while p > 1 && p % 2 == 0
        invariant
            power_of_two(n as int) == power_of_two(p as int),
        decreases p,
    {
        p = p / 2;
    }
    p == 1
}

/// The least power of two that is not below `n`.
pub fn next_power_of_two(n: usize) -> (r: usize)
    requires
        1 <= n <= usize::MAX / 2,
    ensures
        power_of_two(r as int),
        n <= r,
        forall|p: int| power_of_two(p) && n <= p ==> r <= p,
        r < 2 * n,
{
    let mut p: usize = 1;
    while p < n
        invariant
            1 <= n <= usize::MAX / 2,
            p < 2 * n,
            power_of_two(p as int),
            forall|q: int| power_of_two(q) && n <= q ==> p <= q,
        decreases 2 * n - p,
    {
        let ghost old_p = p;
        p = p * 2;
        assert(power_of_two(p as int));
        assert forall|q: int| power_of_two(q) && n <= q implies p <= q by {
            lemma_power_gap(old_p as int, q);
        }
    }
    p
}

/// `a` divided by `b`, rounded up.
pub open spec fn rounded_up(a: int, b: int) -> int {
    if a % b == 0 {
        a / b
    } else {
        a / b + 1
    }
}

/// Divides and rounds up.
pub fn div_ceil(a: usize, b: usize) -> (r: usize)
    requires
        1 < b,
    ensures
        r == rounded_up(a as int, b as int),
{
    let q: usize = a / b;
    if a % b == 0 {
        q
    } else {
        assert(q < usize::MAX) by (nonlinear_arith)
            requires
                q == a / b,
                1 < b,
                a <= usize::MAX,
        ;
        q + 1
    }
}

/// Rounded up, a quotient is the least number of parts of `b` that hold `a`.
pub proof fn lemma_rounded_up_is_least(a: int, b: int)
    requires
        a >= 0,
        b > 0,
    ensures
        rounded_up(a, b) * b >= a,
        a > 0 ==> (rounded_up(a, b) - 1) * b < a,
        a == 0 ==> rounded_up(a, b) == 0,
{
    vstd::arithmetic::div_mod::lemma_fundamental_div_mod(a, b);
    vstd::arithmetic::div_mod::lemma_mod_bound(a, b);
    vstd::arithmetic::div_mod::lemma_div_of0(b);
    vstd::arithmetic::mul::lemma_mul_is_commutative(b, a / b);
    vstd::arithmetic::mul::lemma_mul_is_distributive_add_other_way(b, a / b, 1);
    vstd::arithmetic::mul::lemma_mul_is_distributive_sub_other_way(b, a / b, 1);
}

/// The powers of two are two raised to each number.
pub proof fn lemma_powers_of_two(k: nat)
    ensures
        power_of_two(vstd::arithmetic::power2::pow2(k) as int),
    decreases k,
{
    vstd::arithmetic::power2::lemma2_to64();
    if k > 0 {
        let half = vstd::arithmetic::power2::pow2((k - 1) as nat) as int;
        lemma_powers_of_two((k - 1) as nat);
        vstd::arithmetic::power2::lemma_pow2_unfold(k);
        vstd::arithmetic::power2::lemma_pow2_pos((k - 1) as nat);
        assert((2 * half) / 2 == half && (2 * half) % 2 == 0);
    }
}

/// A power of two is two raised to some number.
pub proof fn lemma_power_of_two_has_an_exponent(n: int) -> (k: nat)
    requires
        power_of_two(n),
    ensures
        n == vstd::arithmetic::power2::pow2(k),
    decreases n,
{
    vstd::arithmetic::power2::lemma2_to64();
    if n == 1 {
        0
    } else {
        let half = lemma_power_of_two_has_an_exponent(n / 2);
        vstd::arithmetic::power2::lemma_pow2_unfold(half + 1);
        half + 1
    }
}

} // verus!
