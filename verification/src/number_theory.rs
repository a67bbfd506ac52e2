//! Number-theoretic specifications and lemmas: primality, greatest common
//! divisors, Bezout coefficients, and facts about modular arithmetic that the
//! modulus strategies rely on.

use vstd::prelude::*;
use vstd::arithmetic::div_mod::{
    lemma_add_mod_noop, lemma_add_mod_noop_right, lemma_fundamental_div_mod,
    lemma_fundamental_div_mod_converse_mod, lemma_mod_multiples_vanish, lemma_mod_self_0,
    lemma_mul_mod_noop_left, lemma_mul_mod_noop_right, lemma_small_mod, lemma_sub_mod_noop,
};
use vstd::arithmetic::mul::{lemma_mul_is_associative, lemma_mul_is_commutative};
use vstd::arithmetic::power::{
    lemma_pow0, lemma_pow1, lemma_pow_adds, lemma_pow_mod_noop, lemma_pow_multiplies,
    lemma_square_is_pow2, pow,
};

verus! {

/// An integer is prime when it is at least 2 and no integer strictly between
/// 1 and itself divides it.
pub open spec fn prime(n: int) -> bool {
    n >= 2 && forall|d: int| 2 <= d < n ==> #[trigger] (n % d) != 0
}

/// Greatest common divisor, by the Euclidean recursion.
pub open spec fn gcd(a: nat, b: nat) -> nat
    decreases b,
{
    if b == 0 {
        a
    } else {
        gcd(b, a % b)
    }
}

/// The criterion that the primitive-root search tests: `g` raised to
/// `(m - 1) / p` is not 1 modulo `m`, for any prime factor `p` of `m - 1`.
pub open spec fn passes_root_test(g: int, m: int) -> bool {
    forall|p: int|
        prime(p) && #[trigger] ((m - 1) % p) == 0 ==> pow(g, (((m - 1) / p) as nat)) % m != 1
}

/// A multiple `k * n` of a multiple `n` of `d` is itself a multiple of `d`.
pub proof fn lemma_mul_keeps_divisible(k: int, n: int, d: int)
    requires
        d >= 1,
        n % d == 0,
    ensures
        (k * n) % d == 0,
{
    lemma_fundamental_div_mod(n, d);
    assert(k * n == (k * (n / d)) * d + 0) by (nonlinear_arith)
        requires
            n == d * (n / d),
    ;
    lemma_fundamental_div_mod_converse_mod(k * n, d, k * (n / d), 0);
}

/// The sum of two multiples of `d` is a multiple of `d`.
pub proof fn lemma_add_keeps_divisible(x: int, y: int, d: int)
    requires
        d >= 1,
        x % d == 0,
        y % d == 0,
    ensures
        (x + y) % d == 0,
{
    lemma_add_mod_noop(x, y, d);
    lemma_small_mod(0, d as nat);
}

/// Divisibility is transitive: if `a` divides `b` and `b` divides `c`, then
/// `a` divides `c`.
pub proof fn lemma_divides_transitive(a: int, b: int, c: int)
    requires
        a >= 1,
        b >= 1,
        b % a == 0,
        c % b == 0,
    ensures
        c % a == 0,
{
    lemma_fundamental_div_mod(b, a);
    lemma_fundamental_div_mod(c, b);
    assert(c == ((b / a) * (c / b)) * a + 0) by (nonlinear_arith)
        requires
            b == a * (b / a),
            c == b * (c / b),
    ;
    lemma_fundamental_div_mod_converse_mod(c, a, (b / a) * (c / b), 0);
}

/// The greatest common divisor is positive and divides both arguments.
pub proof fn lemma_gcd_divides(a: nat, b: nat)
    requires
        a > 0 || b > 0,
    ensures
        gcd(a, b) >= 1,
        a as int % (gcd(a, b) as int) == 0,
        b as int % (gcd(a, b) as int) == 0,
    decreases b,
{
    if b == 0 {
        lemma_mod_self_0(a as int);
        lemma_small_mod(0, a);
    } else {
        lemma_gcd_divides(b, a % b);
        let g: int = gcd(a, b) as int;
        lemma_fundamental_div_mod(a as int, b as int);
        lemma_mul_keeps_divisible(a as int / b as int, b as int, g);
        lemma_add_keeps_divisible((a as int / b as int) * (b as int), (a % b) as int, g);
        assert(a as int == (a as int / b as int) * (b as int) + (a as int % b as int))
            by (nonlinear_arith)
            requires
                a as int == (b as int) * (a as int / b as int) + (a as int % b as int),
        ;
    }
}

/// Bezout coefficients: some integer combination of `a` and `b` equals
/// `gcd(a, b)`.
pub proof fn lemma_bezout(a: nat, b: nat) -> (c: (int, int))
    ensures
        c.0 * a + c.1 * b == gcd(a, b),
    decreases b,
{
    if b == 0 {
        let s: int = 1;
        let t: int = 0;
        assert(s * a + t * b == gcd(a, b)) by (nonlinear_arith)
            requires
                s == 1,
                t == 0,
                b == 0,
                gcd(a, b) == a,
        ;
        (s, t)
    } else {
        let (s, t): (int, int) = lemma_bezout(b, a % b);
        lemma_fundamental_div_mod(a as int, b as int);
        let q: int = a as int / b as int;
        let s2: int = t;
        let t2: int = s - t * q;
        assert(s2 * a + t2 * b == gcd(a, b)) by (nonlinear_arith)
            requires
                a as int == (b as int) * q + (a as int % b as int),
                s * (b as int) + t * (a as int % b as int) == gcd(b, a % b) as int,
                gcd(b, a % b) == gcd(a, b),
                s2 == t,
                t2 == s - t * q,
        ;
        (s2, t2)
    }
}

/// If `p` is coprime to `a` and divides `a * b`, then `p` divides `b`.
pub proof fn lemma_coprime_divides(p: int, a: int, b: int)
    requires
        p >= 1,
        a >= 0,
        b >= 0,
        gcd(p as nat, a as nat) == 1,
        (a * b) % p == 0,
    ensures
        b % p == 0,
{
    let (s, t): (int, int) = lemma_bezout(p as nat, a as nat);
    lemma_fundamental_div_mod(a * b, p);
    let k: int = (a * b) / p;
    assert(b == (s * b + t * k) * p + 0) by (nonlinear_arith)
        requires
            s * p + t * a == 1,
            a * b == p * k,
    ;
    lemma_fundamental_div_mod_converse_mod(b, p, s * b + t * k, 0);
}

/// A prime `p` that does not divide `a` is coprime to `a`.
pub proof fn lemma_prime_coprime(p: int, a: int)
    requires
        prime(p),
        a >= 0,
        a % p != 0,
    ensures
        gcd(p as nat, a as nat) == 1,
{
    let g: int = gcd(p as nat, a as nat) as int;
    lemma_gcd_divides(p as nat, a as nat);
    if g != 1 {
        if g > p {
            lemma_small_mod(p as nat, g as nat);
            assert(false);
        } else if g < p {
            assert(p % g != 0);
            assert(false);
        } else {
            assert(false);
        }
    }
}

/// Euclid's lemma: a prime dividing a product divides one of the factors.
pub proof fn lemma_prime_divides_product(p: int, a: int, b: int)
    requires
        prime(p),
        a >= 0,
        b >= 0,
        (a * b) % p == 0,
    ensures
        a % p == 0 || b % p == 0,
{
    if a % p != 0 {
        lemma_prime_coprime(p, a);
        lemma_coprime_divides(p, a, b);
    }
}

/// A divisor of a prime that is at least 2 is the prime itself.
pub proof fn lemma_prime_divisor(p: int, d: int)
    requires
        prime(p),
        d >= 2,
        p % d == 0,
    ensures
        d == p,
{
    if d > p {
        lemma_small_mod(p as nat, d as nat);
        assert(false);
    } else if d < p {
        assert(p % d != 0);
        assert(false);
    }
}

/// Every integer at least 2 has a prime factor.
pub proof fn lemma_prime_factor(n: int) -> (p: int)
    requires
        n >= 2,
    ensures
        prime(p),
        n % p == 0,
        2 <= p <= n,
    decreases n,
{
    if prime(n) {
        lemma_mod_self_0(n);
        n
    } else {
        let d: int = choose|d: int| 2 <= d < n && #[trigger] (n % d) == 0;
        let p: int = lemma_prime_factor(d);
        lemma_divides_transitive(p, d, n);
        p
    }
}

/// A number at least 2 with no prime factor below `bound`, where
/// `bound * bound` exceeds it, is prime.
pub proof fn lemma_no_prime_factor_below_sqrt(n: int, bound: int)
    requires
        n >= 2,
        bound >= 2,
        bound * bound > n,
        forall|q: int| 2 <= q < bound && prime(q) ==> #[trigger] (n % q) != 0,
    ensures
        prime(n),
{
    if !prime(n) {
        let d: int = choose|d: int| 2 <= d < n && #[trigger] (n % d) == 0;
        lemma_fundamental_div_mod(n, d);
        let c: int = n / d;
        assert(2 <= c < n) by (nonlinear_arith)
            requires
                n == d * c + 0,
                2 <= d < n,
                n >= 2,
        ;
        let small: int = if d <= c { d } else { c };
        if c < d {
            lemma_fundamental_div_mod_converse_mod(n, c, d, 0);
        }
        assert(small * small <= n) by (nonlinear_arith)
            requires
                n == d * c + 0,
                2 <= d,
                2 <= c,
                small == if d <= c { d } else { c },
        ;
        let p: int = lemma_prime_factor(small);
        lemma_divides_transitive(p, small, n);
        assert(p < bound) by (nonlinear_arith)
            requires
                2 <= p <= small,
                small * small <= n,
                bound * bound > n,
                bound >= 2,
        ;
        assert(n % p != 0);
        assert(false);
    }
}

/// Comparing `i` with `n / i` decides whether `i * i` exceeds `n`, without
/// ever forming the square.
pub proof fn lemma_sqrt_bound(n: int, i: int)
    requires
        n >= 0,
        i >= 1,
    ensures
        i <= n / i ==> i * i <= n,
        i > n / i ==> i * i > n,
{
    lemma_fundamental_div_mod(n, i);
    vstd::arithmetic::div_mod::lemma_mod_division_less_than_divisor(n, i);
    assert((i <= n / i ==> i * i <= n) && (i > n / i ==> i * i > n)) by (nonlinear_arith)
        requires
            n == i * (n / i) + n % i,
            0 <= n % i < i,
            i >= 1,
    ;
}

/// One step of the extended Euclidean algorithm with Bezout coefficients kept
/// reduced modulo `m`: replacing the first row `(s0, s1)` by
/// `(s0 - u * t0, s1 - u * t1)` preserves the row congruence.
pub proof fn lemma_euclid_step(
    x: int,
    m: int,
    s0: int,
    s1: int,
    t0: int,
    t1: int,
    u: int,
    r0: int,
    r1: int,
    ut1: int,
)
    requires
        m >= 1,
        (s1 * x) % m == s0 % m,
        (t1 * x) % m == t0 % m,
        ut1 == (u * t1) % m,
        r1 + ut1 == s1 || r1 + ut1 == s1 + m,
        s0 == u * t0 + r0,
    ensures
        (r1 * x) % m == r0 % m,
{
    lemma_mul_mod_noop_left(u * t1, x, m);
    assert((u * t1) * x == u * (t1 * x)) by (nonlinear_arith);
    lemma_mul_mod_noop_right(u, t1 * x, m);
    lemma_mul_mod_noop_right(u, t0, m);
    assert((ut1 * x) % m == (u * t0) % m);
    assert((r1 + ut1) * x == r1 * x + ut1 * x) by (nonlinear_arith);
    if r1 + ut1 == s1 + m {
        assert((s1 + m) * x == m * x + s1 * x) by (nonlinear_arith);
        lemma_mod_multiples_vanish(x, s1 * x, m);
    }
    assert((r1 * x + ut1 * x) % m == s0 % m);
    lemma_sub_mod_noop(r1 * x + ut1 * x, ut1 * x, m);
    lemma_sub_mod_noop(s0, u * t0, m);
    assert((r1 * x) % m == r0 % m);
}

/// One squaring step of binary exponentiation, even exponent: replacing the
/// base `b` by `b * b mod m` halves the exponent.
pub proof fn lemma_square_multiply_even(z: int, b: int, e: nat, m: int)
    requires
        m >= 1,
    ensures
        (z * pow((b * b) % m, e)) % m == (z * pow(b, 2 * e)) % m,
{
    lemma_pow_mod_noop(b * b, e, m);
    lemma_mul_mod_noop_right(z, pow((b * b) % m, e), m);
    lemma_mul_mod_noop_right(z, pow(b * b, e), m);
    lemma_square_is_pow2(b);
    lemma_pow_multiplies(b, 2, e);
}

/// One squaring step of binary exponentiation, odd exponent: the accumulator
/// additionally takes one factor of the base.
pub proof fn lemma_square_multiply_odd(z: int, b: int, e: nat, m: int)
    requires
        m >= 1,
    ensures
        (((z * b) % m) * pow((b * b) % m, e)) % m == (z * pow(b, 2 * e + 1)) % m,
{
    lemma_square_multiply_even(z * b, b, e, m);
    lemma_mul_mod_noop_left(z * b, pow((b * b) % m, e), m);
    lemma_pow_adds(b, 1, 2 * e);
    lemma_pow1(b);
    assert((z * b) * pow(b, 2 * e) == z * pow(b, 2 * e + 1)) by (nonlinear_arith)
        requires
            pow(b, (2 * e + 1) as nat) == pow(b, 1nat) * pow(b, (2 * e) as nat),
            pow(b, 1nat) == b,
    ;
}

/// Raising to the power 0 yields the identity, and raising to the power 1
/// yields the reduction of the base, modulo `m`.
pub proof fn lemma_pow_zero_and_one(x: int, m: int)
    requires
        m >= 2,
    ensures
        pow(x, 0) % m == 1,
        pow(x, 1) % m == x % m,
{
    lemma_pow0(x);
    lemma_pow1(x);
    lemma_small_mod(1, m as nat);
}

/// Splitting an exponent: `x^(a + b)` is the product of `x^a` and `x^b`,
/// modulo `m`, so that repeated powers can be combined multiplicatively.
pub proof fn lemma_pow_split(x: int, m: int, a: nat, b: nat)
    requires
        m >= 1,
    ensures
        pow(x, a + b) % m == ((pow(x, a) % m) * (pow(x, b) % m)) % m,
{
    lemma_pow_adds(x, a, b);
    vstd::arithmetic::div_mod::lemma_mul_mod_noop_general(pow(x, a), pow(x, b), m);
}

/// Addition modulo `m` is commutative and associative over reduced operands.
pub proof fn lemma_mod_add_comm_assoc(x: int, y: int, z: int, m: int)
    requires
        m >= 1,
    ensures
        (x + y) % m == (y + x) % m,
        (((x + y) % m) + z) % m == (x + ((y + z) % m)) % m,
{
    lemma_add_mod_noop_right(z, x + y, m);
    lemma_add_mod_noop_right(x, y + z, m);
    assert(z + (x + y) == x + (y + z));
    assert((((x + y) % m) + z) % m == (z + ((x + y) % m)) % m);
}

/// Multiplication modulo `m` is commutative and associative over reduced
/// operands.
pub proof fn lemma_mod_mul_comm_assoc(x: int, y: int, z: int, m: int)
    requires
        m >= 1,
    ensures
        (x * y) % m == (y * x) % m,
        (((x * y) % m) * z) % m == (x * ((y * z) % m)) % m,
{
    lemma_mul_is_commutative(x, y);
    lemma_mul_mod_noop_left(x * y, z, m);
    lemma_mul_is_associative(x, y, z);
    lemma_mul_mod_noop_right(x, y * z, m);
}

} // verus!
