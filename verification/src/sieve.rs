//! Sieve-of-Eratosthenes prime generator.
//!
//! `prime_sieve` fills a flag buffer of the requested length: index `i`
//! holds 1 exactly when `i` is prime, and 0 otherwise. Marking for a prime
//! `i` starts at `i * i`, because every smaller multiple of `i` already has
//! a smaller prime factor and was eliminated earlier.

use vstd::prelude::*;
use vstd::arithmetic::div_mod::lemma_fundamental_div_mod;
use vstd::arithmetic::div_mod::lemma_mod_multiples_basic;
use vstd::arithmetic::div_mod::lemma_remainder_lower;
use vstd::arithmetic::div_mod::lemma_div_is_ordered;
use vstd::arithmetic::div_mod::lemma_div_multiples_vanish;
use vstd::arithmetic::mul::lemma_mul_inequality;
use vstd::arithmetic::mul::lemma_mul_is_associative;
use vstd::arithmetic::mul::lemma_mul_is_commutative;
use vstd::arithmetic::mul::lemma_mul_strict_inequality;
use vstd::arithmetic::mul::lemma_mul_increases;

verus! {

/// `n` is prime: at least 2, and divisible by nothing strictly between 1
/// and itself.
pub open spec fn is_prime(n: int) -> bool {
    n >= 2 && forall|d: int| 2 <= d < n ==> #[trigger] (n % d) != 0
}

/// `n` splits as `d * t` with `2 <= d <= t` and `d` below `bound`; such a
/// `d` is a nontrivial divisor of `n` no larger than its square root.
pub open spec fn has_small_factor(n: int, bound: int) -> bool {
    exists|d: int, t: int| 2 <= d < bound && d <= t && n == #[trigger] (d * t)
}

/// A balanced factorisation exhibits a divisor, so `n` is not prime.
proof fn lemma_small_factor_not_prime(n: int, bound: int)
    requires
        has_small_factor(n, bound),
    ensures
        !is_prime(n),
{
    let (d, t) = choose|d: int, t: int| 2 <= d < bound && d <= t && n == #[trigger] (d * t);
    lemma_mod_multiples_basic(t, d);
    lemma_mul_is_commutative(d, t);
    assert(n % d == 0);
    assert(n == d * t && t >= 2);
    lemma_mul_strict_inequality(1, t, d);
    assert(d * 1 < d * t) by {
        lemma_mul_is_commutative(d, 1);
        lemma_mul_is_commutative(d, t);
    }
    assert(2 <= d < n);
}

/// Every composite number has a balanced factorisation: some divisor pair
/// `d * t == n` with `2 <= d <= t`.
proof fn lemma_composite_has_balanced_factor(n: int)
    requires
        n >= 2,
        !is_prime(n),
    ensures
        exists|d: int, t: int| 2 <= d && d <= t && n == #[trigger] (d * t),
{
    let c = choose|c: int| 2 <= c < n && #[trigger] (n % c) == 0;
    let t = n / c;
    lemma_fundamental_div_mod(n, c);
    assert(n == c * t);
    assert(t >= 1) by {
        if t <= 0 {
            lemma_mul_inequality(t, 0, c);
            assert(t * c <= 0 * c);
            lemma_mul_is_commutative(c, t);
            lemma_mul_is_commutative(t, c);
            assert(0 * c == 0) by (nonlinear_arith);
        }
    }
    assert(t >= 2) by {
        if t == 1 {
            assert(c * 1 == c) by (nonlinear_arith);
        }
    }
    if c <= t {
        assert(2 <= c && c <= t && n == c * t);
    } else {
        lemma_mul_is_commutative(c, t);
        assert(2 <= t && t <= c && n == t * c);
    }
}

/// Raising the bound to `i + 1` admits exactly the multiples of `i`
/// (taken at `i * t` with `t >= i`) beyond what bound `i` admitted.
proof fn lemma_small_factor_expand(j: int, i: int)
    requires
        i >= 2,
    ensures
        has_small_factor(j, i + 1) <==> (has_small_factor(j, i) || exists|t: int|
            i <= t && j == #[trigger] (i * t)),
{
    if has_small_factor(j, i + 1) {
        let (d, t) = choose|d: int, t: int| 2 <= d < i + 1 && d <= t && j == #[trigger] (d * t);
        if d < i {
            assert(2 <= d < i && d <= t && j == d * t);
        } else {
            assert(d == i);
            assert(i <= t && j == i * t);
        }
    }
    if has_small_factor(j, i) {
        let (d, t) = choose|d: int, t: int| 2 <= d < i && d <= t && j == #[trigger] (d * t);
        assert(2 <= d < i + 1 && d <= t && j == d * t);
    }
    if exists|t: int| i <= t && j == #[trigger] (i * t) {
        let t = choose|t: int| i <= t && j == #[trigger] (i * t);
        assert(2 <= i < i + 1 && i <= t && j == i * t);
    }
}

/// A multiple `i * s` (with `s >= i`) of a number that itself has a small
/// factor below `i` inherits that same small factor.
proof fn lemma_multiple_of_composite(i: int, s: int)
    requires
        i >= 2,
        s >= i,
        has_small_factor(i, i),
    ensures
        has_small_factor(i * s, i),
{
    let (d, t) = choose|d: int, t: int| 2 <= d < i && d <= t && i == #[trigger] (d * t);
    lemma_mul_is_associative(d, t, s);
    assert(i * s == d * (t * s));
    assert(t <= t * s) by {
        lemma_mul_increases(s, t);
        lemma_mul_is_commutative(s, t);
    }
    assert(2 <= d < i && d <= t * s && i * s == d * (t * s));
}

/// Once every bound-limited factor up to the square root has been tried,
/// freedom from small factors is exactly primality.
proof fn lemma_no_small_factor_is_prime(j: int, i: int)
    requires
        2 <= j,
        2 <= i,
        j < i * i,
    ensures
        is_prime(j) <==> !has_small_factor(j, i),
{
    if has_small_factor(j, i) {
        lemma_small_factor_not_prime(j, i);
    } else if !is_prime(j) {
        lemma_composite_has_balanced_factor(j);
        let (d, t) = choose|d: int, t: int| 2 <= d && d <= t && j == #[trigger] (d * t);
        assert(d * d <= d * t) by {
            lemma_mul_inequality(d, t, d);
            lemma_mul_is_commutative(d, t);
            lemma_mul_is_commutative(t, d);
        }
        assert(d < i) by {
            if d >= i {
                lemma_mul_inequality(i, d, i);
                lemma_mul_inequality(i, d, d);
                lemma_mul_is_commutative(i, d);
                lemma_mul_is_commutative(d, i);
                assert(i * i <= d * d);
            }
        }
        assert(2 <= d < i && d <= t && j == d * t);
        assert(has_small_factor(j, i));
    }
}

/// For positive `i`, `i <= n / i` says exactly that `i * i <= n`.
proof fn lemma_square_root_guard(i: int, n: int)
    requires
        i >= 1,
        n >= 0,
    ensures
        i <= n / i <==> i * i <= n,
{
    if i <= n / i {
        lemma_mul_inequality(i, n / i, i);
        lemma_fundamental_div_mod(n, i);
        lemma_remainder_lower(n, i);
        assert(i * (n / i) <= n) by {
            lemma_mul_is_commutative(i, n / i);
            lemma_mul_is_commutative(n / i, i);
        }
        assert(i * i <= (n / i) * i);
    }
    if i * i <= n {
        lemma_div_is_ordered(i * i, n, i);
        lemma_div_multiples_vanish(i, i);
        assert((i * i) / i == i) by {
            lemma_mul_is_commutative(i, i);
        }
    }
}

/// Once the next multiple index `q` has `i * q` past the buffer, the
/// bounded clearing record covers every multiple inside the buffer.
proof fn lemma_cleared_all_multiples(flags: Seq<u8>, limit: int, i: int, q: int)
    requires
        2 <= i,
        i <= q,
        i * q >= limit,
        forall|j: int| 0 <= j < limit ==> (((#[trigger] flags[j]) == 0u8) <==> (j < 2
            || has_small_factor(j, i) || exists|s: int|
            i <= s < q && j == #[trigger] (i * s))),
    ensures
        forall|j: int| 0 <= j < limit ==> (((#[trigger] flags[j]) == 0u8) <==> (j < 2
            || has_small_factor(j, i) || exists|s: int|
            i <= s && j == #[trigger] (i * s))),
{
    assert forall|j: int| 0 <= j < limit implies (((#[trigger] flags[j]) == 0u8) <==> (j < 2
        || has_small_factor(j, i) || exists|s: int|
        i <= s && j == #[trigger] (i * s))) by {
        if exists|s: int| i <= s && j == #[trigger] (i * s) {
            let s = choose|s: int| i <= s && j == #[trigger] (i * s);
            if s >= q {
                lemma_mul_inequality(q, s, i);
                lemma_mul_is_commutative(q, i);
                lemma_mul_is_commutative(s, i);
                assert(i * q <= i * s);
            } else {
                assert(i <= s < q && j == i * s);
            }
        }
    }
}

/// Computes the primality buffer for `0 .. limit`: one flag per index,
/// 1 for a prime index and 0 for every other index.
#[verifier::rlimit(60)]
pub fn prime_sieve(limit: usize) -> (r: Vec<u8>)
    ensures
        r@.len() == limit,
        forall|j: int| 0 <= j < limit ==> r@[j] == (if is_prime(j) { 1u8 } else { 0u8 }),
{
    let mut flags: Vec<u8> = Vec::new();
    let mut t: usize = 0;
    while t < limit
        invariant
            t <= limit,
            flags@.len() == t,
            forall|j: int| 0 <= j < t ==> (#[trigger] flags@[j]) == 1u8,
        decreases limit - t,
    {
        flags.push(1u8);
        t = t + 1;
    }
    if limit > 0 {
        flags.set(0, 0u8);
    }
    if limit > 1 {
        flags.set(1, 0u8);
    }
    if limit < 2 {
        return flags;
    }

    let mut i: usize = 2;
    while i <= (limit - 1) / i
        invariant
            2 <= i,
            limit >= 2,
            flags@.len() == limit,
            forall|j: int| 0 <= j < limit ==> (#[trigger] flags@[j]) == 0u8 || flags@[j] == 1u8,
            forall|j: int| 0 <= j < limit ==> (((#[trigger] flags@[j]) == 0u8) <==> (j < 2
                || has_small_factor(j, i as int))),
        decreases limit - i,
    {
        proof {
            lemma_square_root_guard(i as int, limit as int - 1);
        }
        assert(i * i < limit);
        if flags[i] == 1 {
            assert(!has_small_factor(i as int, i as int));
            let mut m: usize = i * i;
            let ghost mut q: int = i as int;
            loop
                invariant_except_break
                    2 <= i,
                    (i as int) * (i as int) < limit as int,
                    m as int == i as int * q,
                    i as int <= q,
                    flags@.len() == limit,
                    forall|j: int| 0 <= j < limit ==> (#[trigger] flags@[j]) == 0u8 || flags@[j] == 1u8,
                    forall|j: int| 0 <= j < limit ==> (((#[trigger] flags@[j]) == 0u8) <==> (j < 2
                        || has_small_factor(j, i as int) || exists|s: int|
                        i as int <= s < q && j == #[trigger] (i as int * s))),
                ensures
                    flags@.len() == limit,
                    forall|j: int| 0 <= j < limit ==> (#[trigger] flags@[j]) == 0u8 || flags@[j] == 1u8,
                    forall|j: int| 0 <= j < limit ==> (((#[trigger] flags@[j]) == 0u8) <==> (j < 2
                        || has_small_factor(j, i as int) || exists|s: int|
                        i as int <= s && j == #[trigger] (i as int * s))),
                decreases limit - m,
            {
                if m >= limit {
                    proof {
                        lemma_cleared_all_multiples(flags@, limit as int, i as int, q);
                    }
                    break;
                }
                let ghost flags0 = flags@;
                flags.set(m, 0u8);
                proof {
                    assert forall|j: int| 0 <= j < limit implies (((#[trigger] flags@[j]) == 0u8) <==> (j
                        < 2 || has_small_factor(j, i as int) || exists|s: int|
                        i as int <= s < q + 1 && j == #[trigger] (i as int * s))) by {
                        if j == m {
                            assert(flags@[j] == 0u8);
                            assert(i as int <= q < q + 1 && j == i as int * q);
                        } else {
                            assert(flags@[j] == flags0[j]);
                            if flags0[j] == 0u8 && j >= 2 && !has_small_factor(j, i as int) {
                                let s = choose|s: int|
                                    i as int <= s < q && j == #[trigger] (i as int * s);
                                assert(i as int <= s < q + 1 && j == i as int * s);
                            }
                            if exists|s: int|
                                i as int <= s < q + 1 && j == #[trigger] (i as int * s) {
                                let s = choose|s: int|
                                    i as int <= s < q + 1 && j == #[trigger] (i as int * s);
                                if s == q {
                                    assert(j == m as int);
                                } else {
                                    assert(i as int <= s < q && j == i as int * s);
                                    assert(flags0[j] == 0u8);
                                }
                            }
                        }
                    }
                    q = q + 1;
                }
                if limit - m <= i {
                    proof {
                        assert(i as int * q == m as int + i as int) by (nonlinear_arith)
                            requires m as int == i as int * (q - 1);
                        lemma_cleared_all_multiples(flags@, limit as int, i as int, q);
                    }
                    break;
                }
                proof {
                    assert(m as int + i as int == i as int * q) by (nonlinear_arith)
                        requires m as int == i as int * (q - 1);
                }
                m = m + i;
            }
            proof {
                assert forall|j: int| 0 <= j < limit implies (((#[trigger] flags@[j]) == 0u8) <==> (j < 2
                    || has_small_factor(j, i as int + 1))) by {
                    lemma_small_factor_expand(j, i as int);
                }
            }
        } else {
            assert(has_small_factor(i as int, i as int));
            proof {
                assert forall|j: int| 0 <= j < limit implies (((#[trigger] flags@[j]) == 0u8) <==> (j < 2
                    || has_small_factor(j, i as int + 1))) by {
                    lemma_small_factor_expand(j, i as int);
                    if exists|s: int| i as int <= s && j == #[trigger] (i as int * s) {
                        let s = choose|s: int| i as int <= s && j == #[trigger] (i as int * s);
                        lemma_multiple_of_composite(i as int, s);
                    }
                }
            }
        }
        i = i + 1;
    }
    proof {
        lemma_square_root_guard(i as int, limit as int - 1);
        assert(limit as int <= i as int * i as int);
        assert forall|j: int| 0 <= j < limit implies (#[trigger] flags@[j]) == (if is_prime(j) { 1u8 } else {
            0u8
        }) by {
            if j >= 2 {
                lemma_no_small_factor_is_prime(j, i as int);
            }
        }
    }
    flags
}


} // verus!
