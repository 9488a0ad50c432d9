//! Searching and number-theory routines: the largest element of an array,
//! binary search over a sorted array, the n-th prime below a fixed bound,
//! and the xorshift scrambler behind the guessing game.

use vstd::prelude::*;
use vstd::arithmetic::div_mod::{
    lemma_fundamental_div_mod, lemma_mod_multiples_basic,
};

verus! {

/// The largest element of the array; ties resolve to the same value.
pub fn max(elements: &[i64; 10]) -> (r: &i64)
    ensures
        exists|i: int| 0 <= i < 10 && *r == elements@[i],
        forall|i: int| 0 <= i < 10 ==> elements@[i] <= *r,
{
    let mut best: usize = 0;
    for e in 1..10
        invariant
            best < 10,
            forall|i: int| 0 <= i < e ==> elements@[i] <= elements@[best as int],
    {
        if elements[best] <= elements[e] {
            best = e;
        }
    }
    &elements[best]
}

/// The array is sorted in nondecreasing order.
pub open spec fn sorted(s: Seq<i64>) -> bool {
    forall|i: int, j: int| 0 <= i < j < s.len() ==> s[i] <= s[j]
}

/// Binary search for `x` in a sorted array: `Ok` with the index of the first
/// occurrence of `x`, or `Err` with the index of the first element above `x`.
/// An `x` above every element would make the final probe fall off the array,
/// so such inputs are excluded.
pub fn binary_search(elements: &[i64; 10], x: &i64) -> (r: Result<usize, usize>)
    requires
        sorted(elements@),
        *x <= elements@[9],
    ensures
        (r is Ok) <==> exists|j: int| 0 <= j < 10 && elements@[j] == *x,
        r matches Ok(i) ==> i < 10 && elements@[i as int] == *x
            && forall|j: int| 0 <= j < i ==> elements@[j] < *x,
        r matches Err(i) ==> i < 10 && elements@[i as int] > *x
            && forall|j: int| 0 <= j < i ==> elements@[j] < *x,
{
    let mut l: usize = 0;
    let mut r: usize = 10;
    while l < r
        invariant
            sorted(elements@),
            l <= r <= 10,
            forall|i: int| 0 <= i < l ==> elements@[i] < *x,
            forall|i: int| r <= i < 10 ==> elements@[i] >= *x,
        decreases r - l,
    {
        let m = (l + r) / 2;
        if elements[m] < *x {
            l = m + 1;
        } else {
            r = m;
        }
    }
    assert(l < 10) by {
        if l == 10 {
            assert(elements@[9] < *x);
        }
    }
    if elements[l] == *x {
        Ok(l)
    } else {
        assert(forall|j: int| 0 <= j < 10 ==> elements@[j] != *x) by {
            assert(forall|j: int| l <= j < 10 ==> elements@[j] >= elements@[l as int]);
        }
        Err(l)
    }
}

/// `n` is prime: at least 2, and no smaller number from 2 up divides it.
pub open spec fn is_prime_spec(n: int) -> bool {
    2 <= n && forall|d: int| 2 <= d < n ==> #[trigger] (n % d) != 0
}

/// How many primes lie strictly below `upto`.
pub open spec fn prime_count(upto: int) -> nat
    decreases upto,
{
    if upto <= 2 {
        0
    } else {
        prime_count(upto - 1) + if is_prime_spec(upto - 1) {
            1nat
        } else {
            0nat
        }
    }
}

/// A number with no divisor up to its square root has none below itself:
/// a divisor above the root pairs with a cofactor below it.
proof fn lemma_prime_from_small_divisors(n: int, d: int)
    requires
        2 <= n,
        2 <= d,
        d * d > n,
        forall|e: int| 2 <= e < d ==> #[trigger] (n % e) != 0,
    ensures
        is_prime_spec(n),
{
    assert forall|e: int| 2 <= e < n implies #[trigger] (n % e) != 0 by {
        if n % e == 0 && e >= d {
            lemma_fundamental_div_mod(n, e);
            let q = n / e;
            assert(n == e * q);
            assert(1 <= q) by (nonlinear_arith)
                requires
                    n == e * q,
                    2 <= n,
                    2 <= e,
            {}
            assert(2 <= q) by (nonlinear_arith)
                requires
                    n == e * q,
                    e < n,
                    2 <= e,
                    1 <= q,
            {}
            assert(q < d) by (nonlinear_arith)
                requires
                    n == e * q,
                    n < d * d,
                    d <= e,
                    2 <= d,
                    1 <= q,
            {}
            lemma_mod_multiples_basic(e, q);
            assert(n % q == 0);
            assert(false);
        }
    }
}

/// Trial division up to the square root of `n`.
fn is_prime(n: usize) -> (r: bool)
    requires
        2 <= n < 105000,
    ensures
        r == is_prime_spec(n as int),
{
    let mut d: usize = 2;
    while d * d <= n
        invariant
            2 <= d <= 325,
            d * d < 200000,
            n < 105000,
            forall|e: int| 2 <= e < d ==> #[trigger] ((n as int) % e) != 0,
        decreases 325 - d,
    {
        if n % d == 0 {
            assert(d < n) by (nonlinear_arith)
                requires
                    2 <= d,
                    d * d <= n,
            {}
            return false;
        }
        proof {
            assert(d <= 324 && (d + 1) * (d + 1) < 200000) by (nonlinear_arith)
                requires
                    d * d <= n,
                    n < 105000,
                    2 <= d,
            {}
        }
        d += 1;
    }
    proof {
        lemma_prime_from_small_divisors(n as int, d as int);
    }
    true
}

/// The `n`-th prime, counted from `nth_prime(1) == 2`; only primes below
/// 105000 are reachable, so `n` may not exceed how many there are.
pub fn nth_prime(n: usize) -> (r: usize)
    requires
        1 <= n,
        n <= prime_count(105000),
    ensures
        is_prime_spec(r as int),
        prime_count(r as int) == n - 1,
        r < 105000,
{
    let mut index: usize = 0;
    let mut i: usize = 2;
    while i < 105000
        invariant
            2 <= i <= 105000,
            index == prime_count(i as int),
            index < n,
            n <= prime_count(105000),
        decreases 105000 - i,
    {
        if is_prime(i) {
            index += 1;
            if index == n {
                return i;
            }
        }
        i += 1;
    }
    proof {
        assert(false);
    }
    unreached()
}

/// Three rounds of xorshift mixing.
pub open spec fn spec_scramble(s: u64) -> u64 {
    let a = s ^ (s << 21);
    let b = a ^ (a >> 35);
    b ^ (b << 4)
}

/// Scrambles a seed by xorshift; the caller supplies the seed (the
/// application draws it from the clock) and gets a deterministic mix back.
pub fn scramble(seed: u64) -> (r: u64)
    ensures
        r == spec_scramble(seed),
{
    let mut s = seed;
    s ^= s << 21;
    s ^= s >> 35;
    s ^= s << 4;
    s
}

} // verus!
