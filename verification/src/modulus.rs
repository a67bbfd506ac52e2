//! Modulus strategies: the shared `Modulus` contract, a modulus fixed at
//! compile time, a modulus chosen at run time, and the number-theoretic
//! queries on them.

use vstd::prelude::*;
use vstd::arithmetic::div_mod::{
    lemma_fundamental_div_mod, lemma_fundamental_div_mod_converse_mod,
    lemma_mod_division_less_than_divisor, lemma_small_mod,
};
use vstd::arithmetic::power::{lemma_pow0, pow};
use crate::number_theory::{
    gcd, lemma_divides_transitive, lemma_euclid_step, lemma_no_prime_factor_below_sqrt,
    lemma_prime_divides_product, lemma_prime_divisor, lemma_prime_factor, lemma_sqrt_bound,
    lemma_square_multiply_even, lemma_square_multiply_odd, passes_root_test, prime,
};

verus! {

/// A description of a positive modulus `M`, owning the arithmetic of values
/// reduced modulo `M`. Except for `rem`, every operation expects its `u64`
/// arguments already reduced, that is within `[0, M)`; each operation returns
/// a reduced result.
pub trait Modulus: Sized {
    /// The modulus as a mathematical integer.
    spec fn m(&self) -> int;

    /// Returns `M`.
    fn modulus(&self) -> (r: u64)
        ensures
            r as int == self.m(),
    ;

    /// Reduces an arbitrary value into `[0, M)`. An already-reduced input
    /// comes back unchanged.
    fn rem(&self, x: u64) -> (r: u64)
        requires
            self.m() >= 1,
        ensures
            r as int == (x as int) % self.m(),
            (x as int) < self.m() ==> r == x,
            (r as int) < self.m(),
    ;

    /// The additive identity, `0`.
    fn zero(&self) -> (r: u64)
        ensures
            r == 0,
    ;

    /// The multiplicative identity, `1 mod M`.
    fn one(&self) -> (r: u64)
        requires
            self.m() >= 1,
        ensures
            r as int == 1int % self.m(),
            (r as int) < self.m(),
    ;

    /// The additive inverse of a reduced `x`, that is `(M - x) mod M`.
    fn neg(&self, x: u64) -> (r: u64)
        requires
            (x as int) < self.m(),
        ensures
            r as int == (self.m() - x as int) % self.m(),
            r as int == (if x == 0 { 0int } else { self.m() - x as int }),
            (r as int) < self.m(),
    ;

    /// The modular inverse of a reduced, non-zero `x` coprime with `M`: the
    /// unique reduced `r` with `r * x = 1 (mod M)`.
    fn inv(&self, x: u64) -> (r: u64)
        requires
            1 <= x,
            (x as int) < self.m(),
            gcd(self.m() as nat, x as nat) == 1,
        ensures
            (r as int) < self.m(),
            (r as int * x as int) % self.m() == 1,
    ;

    /// The sum of two reduced values, `(x + y) mod M`.
    fn add(&self, x: u64, y: u64) -> (r: u64)
        requires
            (x as int) < self.m(),
            (y as int) < self.m(),
        ensures
            r as int == (x as int + y as int) % self.m(),
            (r as int) < self.m(),
    ;

    /// The product of two reduced values, `(x * y) mod M`.
    fn mul(&self, x: u64, y: u64) -> (r: u64)
        requires
            (x as int) < self.m(),
            (y as int) < self.m(),
        ensures
            r as int == (x as int * y as int) % self.m(),
            (r as int) < self.m(),
    ;

    /// The difference of two reduced values, `(x - y) mod M`.
    fn sub(&self, x: u64, y: u64) -> (r: u64)
        requires
            (x as int) < self.m(),
            (y as int) < self.m(),
        ensures
            r as int == (x as int - y as int) % self.m(),
            (r as int) < self.m(),
    {
        let n: u64 = self.neg(y);
        let r: u64 = self.add(x, n);
        proof {
            vstd::arithmetic::div_mod::lemma_add_mod_noop_right(
                x as int,
                self.m() - y as int,
                self.m(),
            );
            vstd::arithmetic::div_mod::lemma_mod_add_multiples_vanish(
                x as int - y as int,
                self.m(),
            );
        }
        r
    }

    /// The quotient of two reduced values, `x` times the inverse of `y`,
    /// modulo `M`: the unique reduced `r` with `r * y = x (mod M)`.
    fn div(&self, x: u64, y: u64) -> (r: u64)
        requires
            (x as int) < self.m(),
            1 <= y,
            (y as int) < self.m(),
            gcd(self.m() as nat, y as nat) == 1,
        ensures
            (r as int) < self.m(),
            (r as int * y as int) % self.m() == x as int,
    {
        let iy: u64 = self.inv(y);
        let r: u64 = self.mul(x, iy);
        proof {
            let mi: int = self.m();
            let xi: int = x as int;
            let yi: int = y as int;
            let iyi: int = iy as int;
            vstd::arithmetic::div_mod::lemma_mul_mod_noop_left(xi * iyi, yi, mi);
            assert((xi * iyi) * yi == xi * (iyi * yi)) by (nonlinear_arith);
            vstd::arithmetic::div_mod::lemma_mul_mod_noop_right(xi, iyi * yi, mi);
            lemma_small_mod(x as nat, mi as nat);
        }
        r
    }

    /// Binary (square-and-multiply) exponentiation of a reduced base:
    /// `x^y mod M`.
    fn pow(&self, x: u64, y: usize) -> (r: u64)
        requires
            (x as int) < self.m(),
        ensures
            r as int == pow(x as int, y as nat) % self.m(),
            (r as int) < self.m(),
    {
        let mut z: u64 = self.one();
        let mut b: u64 = x;
        let mut e: usize = y;
        proof {
            lemma_pow0(x as int);
            vstd::arithmetic::div_mod::lemma_mul_mod_noop_left(
                1,
                pow(x as int, y as nat),
                self.m(),
            );
        }
        while e != 0
            invariant
                self.m() >= 1,
                (z as int) < self.m(),
                (b as int) < self.m(),
                (z as int * pow(b as int, e as nat)) % self.m() == pow(x as int, y as nat)
                    % self.m(),
            decreases e,
        {
            let ghost gz: u64 = z;
            let ghost gb: u64 = b;
            let ghost ge: usize = e;
            if e % 2 == 1 {
                z = self.mul(z, b);
            }
            b = self.mul(b, b);
            e = e / 2;
            proof {
                if ge % 2 == 1 {
                    lemma_square_multiply_odd(gz as int, gb as int, e as nat, self.m());
                } else {
                    lemma_square_multiply_even(gz as int, gb as int, e as nat, self.m());
                }
            }
        }
        proof {
            lemma_pow0(b as int);
            lemma_small_mod(z as nat, self.m() as nat);
        }
        z
    }

    /// Whether the modulus itself is prime.
    fn is_prime(&self) -> (r: bool)
        ensures
            r == prime(self.m()),
    ;
}

/// A modulus fixed at compile time as the constant `M`.
#[derive(Clone, Copy, Debug, PartialEq, Eq, Default)]
pub struct StaticModulus64<const M: u64>;

impl<const M: u64> Modulus for StaticModulus64<M> {
    open spec fn m(&self) -> int {
        M as int
    }

    fn modulus(&self) -> (r: u64) {
        M
    }

    fn rem(&self, x: u64) -> (r: u64) {
        proof {
            lemma_mod_division_less_than_divisor(x as int, M as int);
            if x < M {
                lemma_small_mod(x as nat, M as nat);
            }
        }
        x % M
    }

    fn zero(&self) -> (r: u64) {
        0
    }

    fn one(&self) -> (r: u64) {
        proof {
            lemma_mod_division_less_than_divisor(1, M as int);
        }
        1 % M
    }

    fn neg(&self, x: u64) -> (r: u64) {
        proof {
            if x == 0 {
                vstd::arithmetic::div_mod::lemma_mod_self_0(M as int);
            } else {
                lemma_small_mod((M - x) as nat, M as nat);
            }
        }
        if x == 0 {
            0
        } else {
            M - x
        }
    }

    fn inv(&self, x: u64) -> (r: u64) {
        inv_mod_u64(x, M)
    }

    fn add(&self, x: u64, y: u64) -> (r: u64) {
        add_mod_u64(x, y, M)
    }

    fn mul(&self, x: u64, y: u64) -> (r: u64) {
        mul_mod_u64(x, y, M)
    }

    fn is_prime(&self) -> (r: bool) {
        is_prime(M)
    }
}

impl<const M: u64> StaticModulus64<M> {
    /// Tests one candidate generator against every collected prime factor of
    /// `M - 1`: the candidate passes when none of the powers
    /// `g^((M-1)/p) mod M` is 1.
    fn candidate_passes(g: u64, primes: &Vec<u64>) -> (ok: bool)
        requires
            M >= 3,
            forall|j: int| 0 <= j < primes@.len() ==> 2 <= #[trigger] primes@[j],
        ensures
            ok <==> (forall|j: int|
                0 <= j < primes@.len() ==> pow(
                    g as int,
                    (((M as int - 1) / (#[trigger] primes@[j] as int)) as nat),
                ) % (M as int) != 1),
    {
        let n: u64 = M - 1;
        let mut j: usize = 0;
        let mut ok: bool = true;
        while j < primes.len() && ok
            invariant
                M >= 3,
                n == M - 1,
                j <= primes@.len(),
                forall|k: int| 0 <= k < primes@.len() ==> 2 <= #[trigger] primes@[k],
                ok ==> (forall|k: int|
                    0 <= k < j ==> pow(
                        g as int,
                        (((n as int) / (#[trigger] primes@[k] as int)) as nat),
                    ) % (M as int) != 1),
                !ok ==> (exists|k: int|
                    0 <= k < primes@.len() && pow(
                        g as int,
                        (((n as int) / (#[trigger] primes@[k] as int)) as nat),
                    ) % (M as int) == 1),
            decreases primes@.len() - j,
        {
            let p: u64 = primes[j];
            let e: u64 = n / p;
            let powg: u64 = mod_pow(g, e, M);
            if powg == 1 {
                ok = false;
            }
            j = j + 1;
        }
        ok
    }

    /// Finds a generator of the multiplicative group of a prime `M`: factors
    /// `M - 1`, then searches `g = 2, 3, ...` for the first candidate that
    /// generates no proper subgroup of prime index. Returns 0 when no
    /// candidate below `M` passes, which cannot happen for a prime `M`.
    pub fn compute_primitive_root() -> (r: u64)
        requires
            M % 2 == 1,
            M >= 3,
        ensures
            (exists|g: int| 2 <= g < M as int && #[trigger] passes_root_test(g, M as int)) ==> (2 <= r < M
                && passes_root_test(r as int, M as int) && (forall|h: int|
                2 <= h < r as int ==> !(#[trigger] passes_root_test(h, M as int)))),
            !(exists|g: int| 2 <= g < M as int && #[trigger] passes_root_test(g, M as int)) ==> r == 0,
    {
        let n: u64 = M - 1;
        let mut primes: Vec<u64> = Vec::new();
        primes.push(2);
        let mut x: u64 = n;
        proof {
            vstd::arithmetic::div_mod::lemma_mod_self_0(n as int);
            lemma_small_mod(1, 2);
            lemma_small_mod(0, 2);
            vstd::arithmetic::div_mod::lemma_sub_mod_noop(M as int, 1, 2);
            assert((n as int) % 2 == 0);
        }
        while x % 2 == 0
            invariant
                n == M - 1,
                M >= 3,
                M % 2 == 1,
                1 <= x,
                x <= n,
                (n as int) % (x as int) == 0,
                forall|q: int|
                    prime(q) && #[trigger] ((n as int) % q) == 0 ==> q == 2 || (x as int) % q
                        == 0,
            decreases x,
        {
            let ghost gx: u64 = x;
            x = x / 2;
            proof {
                lemma_fundamental_div_mod(gx as int, 2);
                lemma_fundamental_div_mod_converse_mod(gx as int, x as int, 2, 0);
                lemma_divides_transitive(x as int, gx as int, n as int);
                assert forall|q: int|
                    prime(q) && #[trigger] ((n as int) % q) == 0 implies q == 2 || (x as int) % q
                    == 0 by {
                    if prime(q) && (n as int) % q == 0 && q != 2 {
                        assert((gx as int) % q == 0);
                        assert((2 * (x as int)) % q == 0);
                        lemma_prime_divides_product(q, 2, x as int);
                        if 2int % q == 0 {
                            lemma_prime_divisor(2, q);
                            assert(false);
                        }
                    }
                }
            }
        }
        proof {
            assert(prime(2));
            assert(primes@[0] as int == 2);
        }
        let mut i: u64 = 3;
        while i <= x / i
            invariant
                n == M - 1,
                M >= 3,
                M % 2 == 1,
                1 <= x,
                x <= n,
                (n as int) % (x as int) == 0,
                x % 2 != 0,
                3 <= i,
                i % 2 == 1,
                i <= n + 2,
                primes@.len() >= 1,
                forall|j: int|
                    0 <= j < primes@.len() ==> (2 <= #[trigger] primes@[j] && prime(
                        primes@[j] as int,
                    ) && (n as int) % (primes@[j] as int) == 0),
                forall|q: int|
                    prime(q) && #[trigger] ((n as int) % q) == 0 ==> (exists|j: int|
                        0 <= j < primes@.len() && primes@[j] as int == q) || (x as int) % q == 0,
                forall|q: int| 2 <= q < i as int && prime(q) ==> #[trigger] ((x as int) % q) != 0,
            decreases x, n + 2 - i,
        {
            proof {
                lemma_sqrt_bound(x as int, i as int);
                assert(i < x) by (nonlinear_arith)
                    requires
                        i as int * i as int <= x as int,
                        i >= 3,
                ;
                vstd::arithmetic::div_mod::lemma_div_nonincreasing(x as int, i as int);
            }
            if x % i == 0 {
                proof {
                    if !prime(i as int) {
                        let d: int = choose|d: int| 2 <= d < i && #[trigger] ((i as int) % d) == 0;
                        let p: int = lemma_prime_factor(d);
                        lemma_divides_transitive(p, d, i as int);
                        lemma_divides_transitive(p, i as int, x as int);
                        assert((x as int) % p != 0);
                        assert(false);
                    }
                    lemma_divides_transitive(i as int, x as int, n as int);
                }
                let ghost gprimes: Seq<u64> = primes@;
                primes.push(i);
                let ghost gx: u64 = x;
                x = x / i;
                proof {
                    assert(primes@ == gprimes.push(i));
                    assert(primes@[gprimes.len() as int] == i);
                    assert forall|j: int|
                        0 <= j < primes@.len() implies (2 <= #[trigger] primes@[j] && prime(
                        primes@[j] as int,
                    ) && (n as int) % (primes@[j] as int) == 0) by {
                        if j < gprimes.len() {
                            assert(primes@[j] == gprimes[j]);
                        }
                    }
                    lemma_fundamental_div_mod(gx as int, i as int);
                    assert(1 <= x && x < gx) by (nonlinear_arith)
                        requires
                            gx as int == (i as int) * (x as int),
                            gx >= 1,
                            i >= 3,
                    ;
                    lemma_fundamental_div_mod_converse_mod(gx as int, x as int, i as int, 0);
                    lemma_divides_transitive(x as int, gx as int, n as int);
                    if x % 2 == 0 {
                        crate::number_theory::lemma_mul_keeps_divisible(i as int, x as int, 2);
                        assert(false);
                    }
                    assert forall|q: int|
                        prime(q) && #[trigger] ((n as int) % q) == 0 implies (exists|j: int|
                        0 <= j < primes@.len() && primes@[j] as int == q) || (x as int) % q
                        == 0 by {
                        if prime(q) && (n as int) % q == 0 {
                            if q == i as int {
                                assert(primes@[gprimes.len() as int] as int == q);
                            } else if (gx as int) % q == 0 {
                                assert(((i as int) * (x as int)) % q == 0);
                                lemma_prime_divides_product(q, i as int, x as int);
                                if (i as int) % q == 0 {
                                    lemma_prime_divisor(i as int, q);
                                    assert(false);
                                }
                            } else {
                                let j: int = choose|j: int|
                                    0 <= j < gprimes.len() && gprimes[j] as int == q;
                                assert(primes@[j] as int == q);
                            }
                        }
                    }
                    assert forall|q: int| 2 <= q < i as int && prime(q) implies #[trigger] ((
                    x as int) % q) != 0 by {
                        if 2 <= q < i as int && prime(q) && (x as int) % q == 0 {
                            lemma_divides_transitive(q, x as int, gx as int);
                            assert(false);
                        }
                    }
                }
                while x % i == 0
                    invariant
                        n == M - 1,
                        M >= 3,
                        M % 2 == 1,
                        1 <= x,
                        x < gx,
                        x <= n,
                        (n as int) % (x as int) == 0,
                        x % 2 != 0,
                        3 <= i,
                        i % 2 == 1,
                        i <= n + 2,
                        primes@.len() >= 1,
                        forall|j: int|
                            0 <= j < primes@.len() ==> (2 <= #[trigger] primes@[j] && prime(
                                primes@[j] as int,
                            ) && (n as int) % (primes@[j] as int) == 0),
                        forall|q: int|
                            prime(q) && #[trigger] ((n as int) % q) == 0 ==> (exists|j: int|
                                0 <= j < primes@.len() && primes@[j] as int == q) || (x as int) % q
                                == 0,
                        forall|q: int|
                            2 <= q < i as int && prime(q) ==> #[trigger] ((x as int) % q) != 0,
                        exists|j: int| 0 <= j < primes@.len() && primes@[j] as int == i as int,
                        prime(i as int),
                    decreases x,
                {
                    let ghost hx: u64 = x;
                    x = x / i;
                    proof {
                        lemma_fundamental_div_mod(hx as int, i as int);
                        assert(1 <= x && x < hx) by (nonlinear_arith)
                            requires
                                hx as int == (i as int) * (x as int),
                                hx >= 1,
                                i >= 3,
                        ;
                        lemma_fundamental_div_mod_converse_mod(hx as int, x as int, i as int, 0);
                        lemma_divides_transitive(x as int, hx as int, n as int);
                        if x % 2 == 0 {
                            crate::number_theory::lemma_mul_keeps_divisible(i as int, x as int, 2);
                            assert(false);
                        }
                        assert forall|q: int|
                            prime(q) && #[trigger] ((n as int) % q) == 0 implies (exists|j: int|
                            0 <= j < primes@.len() && primes@[j] as int == q) || (x as int) % q
                            == 0 by {
                            if prime(q) && (n as int) % q == 0 && q != i as int {
                                if (hx as int) % q == 0 {
                                    assert(((i as int) * (x as int)) % q == 0);
                                    lemma_prime_divides_product(q, i as int, x as int);
                                    if (i as int) % q == 0 {
                                        lemma_prime_divisor(i as int, q);
                                        assert(false);
                                    }
                                }
                            }
                        }
                        assert forall|q: int| 2 <= q < i as int && prime(q) implies #[trigger] ((
                        x as int) % q) != 0 by {
                            if 2 <= q < i as int && prime(q) && (x as int) % q == 0 {
                                lemma_divides_transitive(q, x as int, hx as int);
                                assert(false);
                            }
                        }
                    }
                }
                proof {
                    assert forall|q: int|
                        2 <= q < i as int + 2 && prime(q) implies #[trigger] ((x as int) % q)
                        != 0 by {
                        if q == i as int + 1 && prime(q) {
                            vstd::arithmetic::div_mod::lemma_add_mod_noop(i as int, 1, 2);
                            assert(q % 2 == 0);
                            assert(q % 2 != 0);
                            assert(false);
                        }
                    }
                }
            } else {
                proof {
                    assert forall|q: int|
                        2 <= q < i as int + 2 && prime(q) implies #[trigger] ((x as int) % q)
                        != 0 by {
                        if q == i as int + 1 && prime(q) {
                            vstd::arithmetic::div_mod::lemma_add_mod_noop(i as int, 1, 2);
                            assert(q % 2 == 0);
                            assert(q % 2 != 0);
                            assert(false);
                        }
                    }
                }
            }
            i = i + 2;
        }
        let ghost gprimes: Seq<u64> = primes@;
        if x > 1 {
            proof {
                lemma_sqrt_bound(x as int, i as int);
                lemma_no_prime_factor_below_sqrt(x as int, i as int);
            }
            primes.push(x);
            proof {
                assert(primes@ == gprimes.push(x));
                assert(primes@[gprimes.len() as int] == x);
                assert forall|j: int|
                    0 <= j < primes@.len() implies (2 <= #[trigger] primes@[j] && prime(
                    primes@[j] as int,
                ) && (n as int) % (primes@[j] as int) == 0) by {
                    if j < gprimes.len() {
                        assert(primes@[j] == gprimes[j]);
                    }
                }
            }
        }
        proof {
            assert forall|q: int|
                prime(q) && #[trigger] ((n as int) % q) == 0 implies exists|j: int|
                0 <= j < primes@.len() && primes@[j] as int == q by {
                if prime(q) && (n as int) % q == 0 {
                    if (x as int) % q == 0 {
                        if x == 1 {
                            lemma_small_mod(1, q as nat);
                            assert(false);
                        } else {
                            lemma_prime_divisor(x as int, q);
                            assert(primes@[gprimes.len() as int] as int == q);
                        }
                    } else {
                        let j: int = choose|j: int|
                            0 <= j < gprimes.len() && gprimes[j] as int == q;
                        assert(primes@[j] as int == q);
                    }
                }
            }
        }
        let mut g: u64 = 2;
        while g < M
            invariant
                n == M - 1,
                M >= 3,
                2 <= g <= M,
                primes@.len() >= 1,
                forall|j: int|
                    0 <= j < primes@.len() ==> (2 <= #[trigger] primes@[j] && prime(
                        primes@[j] as int,
                    ) && (n as int) % (primes@[j] as int) == 0),
                forall|q: int|
                    prime(q) && #[trigger] ((n as int) % q) == 0 ==> exists|j: int|
                        0 <= j < primes@.len() && primes@[j] as int == q,
                forall|h: int| 2 <= h < g as int ==> !(#[trigger] passes_root_test(h, M as int)),
            decreases M - g,
        {
            let ok: bool = Self::candidate_passes(g, &primes);
            if ok {
                proof {
                    assert forall|p: int|
                        prime(p) && #[trigger] ((M as int - 1) % p) == 0 implies pow(
                        g as int,
                        (((M as int - 1) / p) as nat),
                    ) % (M as int) != 1 by {
                        assert((n as int) % p == 0);
                        let j: int = choose|j: int|
                            0 <= j < primes@.len() && primes@[j] as int == p;
                        assert(pow(g as int, (((M as int - 1) / (primes@[j] as int)) as nat)) % (
                        M as int) != 1);
                    }
                    assert(passes_root_test(g as int, M as int));
                }
                return g;
            }
            proof {
                let j: int = choose|j: int|
                    0 <= j < primes@.len() && pow(
                        g as int,
                        (((M as int - 1) / (primes@[j] as int)) as nat),
                    ) % (M as int) == 1;
                if passes_root_test(g as int, M as int) {
                    assert((M as int - 1) % (primes@[j] as int) == 0);
                    assert(false);
                }
            }
            g = g + 1;
        }
        0
    }

    /// The primitive root of a prime modulus `M`: well-known moduli come from
    /// a table of known roots; any other modulus goes through
    /// `compute_primitive_root`.
    pub fn primitive_root() -> (r: u64)
        requires
            M == 2 || (M % 2 == 1 && M >= 3),
        ensures
            M == 2 ==> r == 1,
            M == 65537 ==> r == 3,
            M == 167772161 ==> r == 3,
            M == 469762049 ==> r == 3,
            M == 754974721 ==> r == 11,
            M == 998244353 ==> r == 3,
            (M != 2 && M != 65537 && M != 167772161 && M != 469762049 && M != 754974721 && M
                != 998244353) ==> (((exists|g: int|
                2 <= g < M as int && #[trigger] passes_root_test(g, M as int)) ==> (2 <= r < M
                && passes_root_test(r as int, M as int) && (forall|h: int|
                2 <= h < r as int ==> !(#[trigger] passes_root_test(h, M as int))))) && (!(exists|g: int|
                2 <= g < M as int && #[trigger] passes_root_test(g, M as int)) ==> r == 0)),
    {
        match M {
            2 => 1,
            65537 => 3,
            167772161 => 3,
            469762049 => 3,
            754974721 => 11,
            998244353 => 3,
            _ => Self::compute_primitive_root(),
        }
    }
}

/// The modulus 998244353, a common prime for number-theoretic transforms.
pub type Mod998244353 = StaticModulus64<998244353>;

/// The modulus 1000000007, a common prime in competitive computations.
pub type Mod1000000007 = StaticModulus64<1000000007>;

/// A modulus chosen at run time.
#[derive(Clone, Copy, Debug, PartialEq, Eq)]
pub struct DynamicModulus(u64);

impl DynamicModulus {
    /// Wraps a run-time modulus value.
    pub fn new(modulus: u64) -> (r: Self)
        ensures
            r.m() == modulus as int,
    {
        DynamicModulus(modulus)
    }
}

impl Modulus for DynamicModulus {
    closed spec fn m(&self) -> int {
        self.0 as int
    }

    fn modulus(&self) -> (r: u64) {
        self.0
    }

    fn rem(&self, x: u64) -> (r: u64) {
        proof {
            lemma_mod_division_less_than_divisor(x as int, self.0 as int);
            if x < self.0 {
                lemma_small_mod(x as nat, self.0 as nat);
            }
        }
        x % self.0
    }

    fn zero(&self) -> (r: u64) {
        0
    }

    fn one(&self) -> (r: u64) {
        proof {
            lemma_mod_division_less_than_divisor(1, self.0 as int);
        }
        1 % self.0
    }

    fn neg(&self, x: u64) -> (r: u64) {
        proof {
            if x == 0 {
                vstd::arithmetic::div_mod::lemma_mod_self_0(self.0 as int);
            } else {
                lemma_small_mod((self.0 - x) as nat, self.0 as nat);
            }
        }
        if x == 0 {
            0
        } else {
            self.0 - x
        }
    }

    fn inv(&self, x: u64) -> (r: u64) {
        inv_mod_u64(x, self.0)
    }

    fn add(&self, x: u64, y: u64) -> (r: u64) {
        add_mod_u64(x, y, self.0)
    }

    fn mul(&self, x: u64, y: u64) -> (r: u64) {
        mul_mod_u64(x, y, self.0)
    }

    fn is_prime(&self) -> (r: bool) {
        is_prime(self.0)
    }
}

/// `(x + y) % m` for reduced operands, by a double-width sum and a
/// conditional subtraction, so that no intermediate overflows.
fn add_mod_u64(x: u64, y: u64, m: u64) -> (r: u64)
    requires
        (x as int) < m as int,
        (y as int) < m as int,
    ensures
        r as int == (x as int + y as int) % (m as int),
        (r as int) < m as int,
{
    let s: u128 = x as u128 + y as u128;
    if s >= m as u128 {
        proof {
            lemma_fundamental_div_mod_converse_mod(
                x as int + y as int,
                m as int,
                1,
                x as int + y as int - m as int,
            );
        }
        (s - m as u128) as u64
    } else {
        proof {
            lemma_small_mod((x + y) as nat, m as nat);
        }
        s as u64
    }
}

/// `(x * y) % m` computed with a double-width intermediate.
fn mul_mod_u64(x: u64, y: u64, m: u64) -> (r: u64)
    requires
        m >= 1,
    ensures
        r as int == (x as int * y as int) % (m as int),
        (r as int) < m as int,
{
    proof {
        assert(x as int * y as int <= u64::MAX as int * u64::MAX as int) by (nonlinear_arith)
            requires
                x as int <= u64::MAX as int,
                y as int <= u64::MAX as int,
        ;
        lemma_mod_division_less_than_divisor(x as int * y as int, m as int);
    }
    let p: u128 = (x as u128) * (y as u128);
    (p % (m as u128)) as u64
}

/// Modular inverse by the extended Euclidean algorithm on `(m, x)`, with the
/// Bezout coefficients maintained already reduced modulo `m`.
fn inv_mod_u64(x: u64, m: u64) -> (r: u64)
    requires
        1 <= x,
        (x as int) < m as int,
        gcd(m as nat, x as nat) == 1,
    ensures
        (r as int) < m as int,
        (r as int * x as int) % (m as int) == 1,
{
    let mut s0: u64 = m;
    let mut s1: u64 = 0;
    let mut t0: u64 = x;
    let mut t1: u64 = 1;
    proof {
        vstd::arithmetic::div_mod::lemma_mod_self_0(m as int);
        lemma_small_mod(0, m as nat);
        lemma_small_mod(x as nat, m as nat);
    }
    while t0 != 0
        invariant
            m >= 2,
            1 <= x,
            (x as int) < m as int,
            1 <= s0,
            (s1 as int) < m as int,
            (t1 as int) < m as int,
            (s1 as int * x as int) % (m as int) == s0 as int % (m as int),
            (t1 as int * x as int) % (m as int) == t0 as int % (m as int),
            gcd(s0 as nat, t0 as nat) == 1,
        decreases t0,
    {
        let ghost gs0: u64 = s0;
        let ghost gs1: u64 = s1;
        let ghost gt0: u64 = t0;
        let ghost gt1: u64 = t1;
        let u: u64 = s0 / t0;
        let r0: u64 = s0 % t0;
        let ut1: u64 = mul_mod_u64(u, t1, m);
        let r1: u64 = if s1 >= ut1 {
            s1 - ut1
        } else {
            s1 + (m - ut1)
        };
        proof {
            lemma_fundamental_div_mod(gs0 as int, gt0 as int);
            lemma_euclid_step(
                x as int,
                m as int,
                gs0 as int,
                gs1 as int,
                gt0 as int,
                gt1 as int,
                u as int,
                r0 as int,
                r1 as int,
                ut1 as int,
            );
            assert(gcd(gt0 as nat, r0 as nat) == gcd(gs0 as nat, gt0 as nat));
        }
        s0 = t0;
        s1 = t1;
        t0 = r0;
        t1 = r1;
    }
    proof {
        assert(gcd(s0 as nat, 0) == s0 as nat);
        assert(s0 == 1);
        lemma_small_mod(1, m as nat);
    }
    s1
}

/// Whether `n` is prime, by trial division up to the square root of `n`.
pub fn is_prime(n: u64) -> (r: bool)
    ensures
        r == prime(n as int),
{
    if n <= 1 {
        return false;
    }
    let mut i: u64 = 2;
    while i <= n / i
        invariant
            2 <= i,
            n >= 2,
            forall|d: int| 2 <= d < i ==> #[trigger] ((n as int) % d) != 0,
        decreases n - i,
    {
        proof {
            lemma_sqrt_bound(n as int, i as int);
            assert(i < n) by (nonlinear_arith)
                requires
                    i as int * i as int <= n as int,
                    i >= 2,
            ;
        }
        if n % i == 0 {
            proof {
                if prime(n as int) {
                    assert((n as int) % (i as int) != 0);
                }
            }
            return false;
        }
        i = i + 1;
    }
    proof {
        lemma_sqrt_bound(n as int, i as int);
        lemma_no_prime_factor_below_sqrt(n as int, i as int);
    }
    true
}

/// `x^y mod m` by binary exponentiation. For a modulus of at least 2 this is
/// the reduced power; the degenerate modulus 1 keeps the unreduced initial
/// accumulator when the exponent is 0.
pub fn mod_pow(x: u64, y: u64, m: u64) -> (r: u64)
    requires
        m >= 1,
    ensures
        m >= 2 ==> r as int == pow(x as int, y as nat) % (m as int),
        m == 1 ==> r == (if y == 0 { 1u64 } else { 0u64 }),
{
    if y == 0 {
        proof {
            lemma_pow0(x as int);
            if m >= 2 {
                lemma_small_mod(1, m as nat);
            }
        }
        return 1;
    }
    let mut z: u64 = 1;
    let mut b: u64 = x;
    let mut e: u64 = y;
    proof {
        lemma_pow0(x as int);
    }
    while e != 0
        invariant
            m >= 1,
            m >= 2 ==> (z as int) < m as int,
            (z as int * pow(b as int, e as nat)) % (m as int) == pow(x as int, y as nat) % (
            m as int),
            m == 1 ==> (z == 0 || (z == 1 && e >= 1)),
        decreases e,
    {
        let ghost gz: u64 = z;
        let ghost gb: u64 = b;
        let ghost ge: u64 = e;
        if e % 2 == 1 {
            z = mul_mod_u64(z, b, m);
        }
        b = mul_mod_u64(b, b, m);
        e = e / 2;
        proof {
            if ge % 2 == 1 {
                lemma_square_multiply_odd(gz as int, gb as int, e as nat, m as int);
            } else {
                lemma_square_multiply_even(gz as int, gb as int, e as nat, m as int);
            }
        }
    }
    proof {
        lemma_pow0(b as int);
        if m >= 2 {
            lemma_small_mod(z as nat, m as nat);
        }
    }
    z
}

} // verus!
