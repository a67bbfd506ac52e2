//! Exact modular arithmetic over a single positive modulus: reduced values,
//! addition, subtraction, multiplication, division by modular inverse, fast
//! exponentiation, and primality and primitive-root queries on the modulus.

pub mod modulus;
pub mod number_theory;

pub use modulus::Modulus;

use crate::modulus::{Mod1000000007, Mod998244353};
use crate::number_theory::gcd;
use vstd::arithmetic::power::pow;
use vstd::prelude::*;

verus! {

/// A `ModInt` under the common modulus 998244353.
pub type ModInt998244353 = ModInt<Mod998244353>;

/// A `ModInt` under the common modulus 1000000007.
pub type ModInt1000000007 = ModInt<Mod1000000007>;

/// A value reduced modulo `M`, paired with its modulus strategy. Arithmetic
/// delegates to the strategy; two values combine only under one shared
/// modulus.
#[derive(Clone, Copy, Debug, Default, PartialEq, Eq)]
pub struct ModInt<M: Modulus> {
    value: u64,
    modulus: M,
}

impl<M: Modulus> ModInt<M> {
    /// The wrapped value, as a mathematical integer.
    pub closed spec fn spec_value(&self) -> int {
        self.value as int
    }

    /// The modulus of this value, as a mathematical integer.
    pub closed spec fn spec_m(&self) -> int {
        self.modulus.m()
    }

    /// The value is reduced under a positive modulus.
    pub open spec fn wf(&self) -> bool {
        1 <= self.spec_m() && self.spec_value() < self.spec_m()
    }

    fn raw(value: u64, modulus: M) -> (r: Self)
        ensures
            r.spec_value() == value as int,
            r.spec_m() == modulus.m(),
    {
        ModInt { value, modulus }
    }

    /// Wraps `value` under the given modulus, reducing it first.
    pub fn new(value: u64, modulus: M) -> (r: Self)
        requires
            modulus.m() >= 1,
        ensures
            r.spec_m() == modulus.m(),
            r.spec_value() == (value as int) % modulus.m(),
            r.wf(),
    {
        let v: u64 = modulus.rem(value);
        Self::raw(v, modulus)
    }

    /// The reduced value.
    pub fn value(&self) -> (r: &u64)
        ensures
            *r as int == self.spec_value(),
    {
        &self.value
    }

    /// The modulus strategy.
    pub fn modulus(&self) -> (r: &M)
        ensures
            r.m() == self.spec_m(),
    {
        &self.modulus
    }

    /// The modular inverse of this value, which must be non-zero and coprime
    /// with the modulus.
    pub fn inv(self) -> (r: Self)
        requires
            self.wf(),
            self.spec_value() != 0,
            gcd(self.spec_m() as nat, self.spec_value() as nat) == 1,
        ensures
            r.spec_m() == self.spec_m(),
            r.wf(),
            (r.spec_value() * self.spec_value()) % self.spec_m() == 1,
    {
        let v: u64 = self.modulus.inv(self.value);
        Self::raw(v, self.modulus)
    }

    /// This value raised to the power `n`, by binary exponentiation.
    pub fn pow(self, n: usize) -> (r: Self)
        requires
            self.wf(),
        ensures
            r.spec_m() == self.spec_m(),
            r.wf(),
            r.spec_value() == pow(self.spec_value(), n as nat) % self.spec_m(),
    {
        let v: u64 = self.modulus.pow(self.value, n);
        Self::raw(v, self.modulus)
    }

    /// The sum of two values under one shared modulus.
    pub fn add(self, other: Self) -> (r: Self)
        requires
            self.wf(),
            other.wf(),
            self.spec_m() == other.spec_m(),
        ensures
            r.spec_m() == self.spec_m(),
            r.wf(),
            r.spec_value() == (self.spec_value() + other.spec_value()) % self.spec_m(),
    {
        let v: u64 = self.modulus.add(self.value, other.value);
        Self::raw(v, self.modulus)
    }

    /// The difference of two values under one shared modulus.
    pub fn sub(self, other: Self) -> (r: Self)
        requires
            self.wf(),
            other.wf(),
            self.spec_m() == other.spec_m(),
        ensures
            r.spec_m() == self.spec_m(),
            r.wf(),
            r.spec_value() == (self.spec_value() - other.spec_value()) % self.spec_m(),
    {
        let v: u64 = self.modulus.sub(self.value, other.value);
        Self::raw(v, self.modulus)
    }

    /// The product of two values under one shared modulus.
    pub fn mul(self, other: Self) -> (r: Self)
        requires
            self.wf(),
            other.wf(),
            self.spec_m() == other.spec_m(),
        ensures
            r.spec_m() == self.spec_m(),
            r.wf(),
            r.spec_value() == (self.spec_value() * other.spec_value()) % self.spec_m(),
    {
        let v: u64 = self.modulus.mul(self.value, other.value);
        Self::raw(v, self.modulus)
    }

    /// The quotient of two values under one shared modulus: this value times
    /// the inverse of the other.
    pub fn div(self, other: Self) -> (r: Self)
        requires
            self.wf(),
            other.wf(),
            self.spec_m() == other.spec_m(),
            other.spec_value() != 0,
            gcd(self.spec_m() as nat, other.spec_value() as nat) == 1,
        ensures
            r.spec_m() == self.spec_m(),
            r.wf(),
            (r.spec_value() * other.spec_value()) % self.spec_m() == self.spec_value(),
    {
        let v: u64 = self.modulus.div(self.value, other.value);
        Self::raw(v, self.modulus)
    }
}

impl<M: Modulus + Default> ModInt<M> {
    /// The zero value under the default modulus.
    pub fn zero() -> (r: Self)
        ensures
            r.spec_value() == 0,
    {
        let modulus: M = M::default();
        let v: u64 = modulus.zero();
        Self::raw(v, modulus)
    }

    /// The one value under the default modulus: `1 mod M`, or 0 under a
    /// degenerate default whose modulus is 0.
    pub fn one() -> (r: Self)
        ensures
            r.spec_m() >= 1 ==> r.spec_value() == 1int % r.spec_m(),
            r.spec_m() >= 1 ==> r.wf(),
            r.spec_m() < 1 ==> r.spec_value() == 0,
    {
        let modulus: M = M::default();
        let mv: u64 = modulus.modulus();
        let v: u64 = if mv >= 1 {
            modulus.one()
        } else {
            0
        };
        Self::raw(v, modulus)
    }

    /// Wraps a raw value under the default modulus, reducing it; a degenerate
    /// default whose modulus is 0 keeps the value as given.
    pub fn from(value: u64) -> (r: Self)
        ensures
            r.spec_m() >= 1 ==> r.spec_value() == (value as int) % r.spec_m(),
            r.spec_m() >= 1 ==> r.wf(),
            r.spec_m() < 1 ==> r.spec_value() == value as int,
    {
        let modulus: M = M::default();
        let mv: u64 = modulus.modulus();
        let v: u64 = if mv >= 1 {
            modulus.rem(value)
        } else {
            value
        };
        Self::raw(v, modulus)
    }
}

} // verus!
