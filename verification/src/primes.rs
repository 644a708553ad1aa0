//! Choosing the plane count `K`: a good `K` is an odd prime, so that it is coprime to 8
//! and the bit-planes cut diagonally across the byte grid.

use vstd::prelude::*;

verus! {

/// `n` is prime: at least 2 and without a divisor strictly between 1 and itself.
pub open spec fn spec_is_prime(n: nat) -> bool {
    n >= 2 && forall|d: nat| 2 <= d < n ==> #[trigger] (n % d) != 0
}

/// `n` is an odd prime (hence coprime to 8).
pub open spec fn is_odd_prime(n: nat) -> bool {
    spec_is_prime(n) && n % 2 == 1
}

proof fn lemma_even_divisor_of_odd(n: nat, d: nat)
    requires
        n % 2 == 1,
        d % 2 == 0,
        d > 0,
    ensures
        n % d != 0,
{
    if n % d == 0 {
        let q = n / d;
        let h = d / 2;
        assert(n == d * q) by (nonlinear_arith)
            requires d > 0, n % d == 0, q == n / d;
        assert(d == 2 * h);
        assert(n == 2 * (h * q)) by (nonlinear_arith)
            requires n == d * q, d == 2 * h;
        assert(n % 2 == 0) by (nonlinear_arith)
            requires n == 2 * (h * q);
    }
}

proof fn lemma_no_small_divisor_means_prime(n: nat, i: nat)
    requires
        n >= 2,
        i >= 2,
        i > n / i,
        forall|d: nat| 2 <= d < i ==> #[trigger] (n % d) != 0,
    ensures
        spec_is_prime(n),
{
    assert(i * i > n) by (nonlinear_arith)
        requires i >= 2, i > n / i;
    assert forall|d: nat| 2 <= d < n implies #[trigger] (n % d) != 0 by {
        if d < i {
        } else if n % d == 0 {
            let e = n / d;
            assert(n == d * e) by (nonlinear_arith)
                requires d > 0, n % d == 0, e == n / d;
            assert(e >= 2) by (nonlinear_arith)
                requires n == d * e, d < n, d >= 2;
            assert(e < i) by (nonlinear_arith)
                requires n == d * e, d >= i, i * i > n, e >= 0;
            assert(n % e == 0) by (nonlinear_arith)
                requires n == d * e, e >= 2;
            assert(n % e != 0);
        }
    }
}

/// Whether `n` is prime, by odd trial division up to the square root.
fn is_prime(n: u64) -> (r: bool)
    ensures
        r == spec_is_prime(n as nat),
{
    if n < 2 {
        return false;
    }
    if n % 2 == 0 {
        assert(spec_is_prime(n as nat) == (n == 2)) by {
            if n > 2 {
                assert((n as nat) % 2 == 0);
            }
        }
        return n == 2;
    }
    let mut i: u64 = 3;
    while i <= n / i
        invariant
            n >= 3,
            n % 2 == 1,
            3 <= i <= n,
            i % 2 == 1,
            forall|d: nat| 2 <= d < i ==> #[trigger] ((n as nat) % d) != 0,
        decreases n - i,
    {
        if n % i == 0 {
            assert(i < n) by (nonlinear_arith)
                requires i <= n / i, i >= 3;
            assert((n as nat) % (i as nat) == 0);
            return false;
        }
        assert(i * i <= n) by (nonlinear_arith)
            requires i <= n / i, i > 0;
        assert(i < 0x1_0000_0000) by (nonlinear_arith)
            requires i * i <= n, n <= u64::MAX;
        assert forall|d: nat| 2 <= d < i + 2 implies #[trigger] ((n as nat) % d) != 0 by {
            if d == i + 1 {
                lemma_even_divisor_of_odd(n as nat, d);
            }
        }
        assert(i + 2 <= n) by (nonlinear_arith)
            requires i * i <= n, i >= 3;
        i = i + 2;
    }
    proof {
        lemma_no_small_divisor_means_prime(n as nat, i as nat);
    }
    true
}

proof fn lemma_or_one(n: u64)
    ensures
        (n | 1u64) % 2 == 1,
        (n | 1u64) == n || (n | 1u64) == n + 1,
        n % 2 == 1 ==> (n | 1u64) == n,
{
    assert((n | 1u64) % 2 == 1) by (bit_vector);
    assert((n | 1u64) == n || (n | 1u64) == n + 1) by (bit_vector);
    assert(n % 2 == 1 ==> (n | 1u64) == n) by (bit_vector);
}

/// Smallest prime `>= n` that is coprime to 8 (any odd prime qualifies). When no odd
/// prime lies between `n` and `u64::MAX`, the search stops at `u64::MAX` instead of
/// wrapping around.
pub fn next_prime_coprime8(n: u64) -> (r: u64)
    ensures
        r >= n,
        r % 2 == 1,
        (is_odd_prime(r as nat) && forall|c: nat| n <= c < r ==> !#[trigger] is_odd_prime(c))
            || (r == u64::MAX && forall|c: nat| n <= c <= u64::MAX ==> !#[trigger] is_odd_prime(c)),
{
    proof {
        lemma_or_one(n);
    }
    let mut c: u64 = if 3 > (n | 1) { 3 } else { n | 1 };
    assert forall|x: nat| n <= x < c implies !#[trigger] is_odd_prime(x) by {
        if x == 2 {
            assert(x % 2 == 0);
        }
    }
    while !is_prime(c)
        invariant
            c >= n,
            c >= 3,
            c % 2 == 1,
            forall|x: nat| n <= x < c ==> !#[trigger] is_odd_prime(x),
        decreases u64::MAX - c,
    {
        assert(!is_odd_prime(c as nat));
        assert(!is_odd_prime((c + 1) as nat));
        c = match c.checked_add(2) {
            Some(v) => v,
            None => {
                assert(c == u64::MAX);
                return c;
            },
        };
    }
    c
}

/// Whether `k` is a recommended plane count: an odd prime (so prime and coprime to 8).
pub fn is_recommended_k(k: u64) -> (r: bool)
    ensures
        r == is_odd_prime(k as nat),
{
    k > 2 && k % 2 == 1 && is_prime(k)
}

} // verus!
