use modint::modulus::{DynamicModulus, Mod1000000007, Mod998244353, StaticModulus64};
use modint::modulus::{is_prime, mod_pow};
use modint::{ModInt, Modulus};

fn gcd_u64(a: u64, b: u64) -> u64 {
    if b == 0 {
        a
    } else {
        gcd_u64(b, a % b)
    }
}

#[test]
fn inv() {
    for i in 1u64..24 {
        if gcd_u64(i, 24) == 1 {
            let j = ModInt::<StaticModulus64<24>>::from(i).inv();
            assert!(
                j.mul(ModInt::<StaticModulus64<24>>::from(i)) == ModInt::<StaticModulus64<24>>::from(1),
                "{} * {} != 1",
                j.value(),
                i
            );
        }
    }
}

#[test]
fn rem_keeps_reduced_values() {
    let d = DynamicModulus::new(24);
    assert_eq!(d.rem(0), 0);
    assert_eq!(d.rem(5), 5);
    assert_eq!(d.rem(23), 23);
    assert_eq!(d.rem(24), 0);
    assert_eq!(d.rem(30), 6);
    let s = StaticModulus64::<24>;
    assert_eq!(s.rem(23), 23);
    assert_eq!(s.rem(30), 6);
}

#[test]
fn new_reduces() {
    let d = DynamicModulus::new(24);
    let w = ModInt::new(30, d);
    assert_eq!(*w.value(), 6);
    assert_eq!(w.modulus().modulus(), 24);
    let w2 = ModInt::new(5, d);
    assert_eq!(*w2.value(), 5);
}

#[test]
fn from_round_trip() {
    let s = StaticModulus64::<24>;
    for x in [0u64, 1, 5, 23, 24, 25, 100, 7919, u64::MAX] {
        assert_eq!(*ModInt::<StaticModulus64<24>>::from(x).value(), s.rem(x));
    }
}

#[test]
fn zero_and_one() {
    assert_eq!(*ModInt::<Mod998244353>::zero().value(), 0);
    assert_eq!(*ModInt::<Mod998244353>::one().value(), 1);
    assert_eq!(*ModInt::<StaticModulus64<1>>::one().value(), 0);
}

#[test]
fn neg_and_sub() {
    let d = DynamicModulus::new(24);
    assert_eq!(d.neg(0), 0);
    assert_eq!(d.neg(1), 23);
    assert_eq!(d.neg(23), 1);
    let a = ModInt::new(3, d);
    let b = ModInt::new(7, d);
    assert_eq!(*a.sub(b).value(), 20);
    assert_eq!(*b.sub(a).value(), 4);
}

#[test]
fn add_and_mul_are_commutative() {
    let a = ModInt::<Mod1000000007>::from(999999999);
    let b = ModInt::<Mod1000000007>::from(123456789);
    assert_eq!(a.add(b), b.add(a));
    assert_eq!(a.mul(b), b.mul(a));
    assert_eq!(*a.add(b).value(), 123456781);
}

#[test]
fn add_and_mul_are_associative() {
    let a = ModInt::<Mod1000000007>::from(999999999);
    let b = ModInt::<Mod1000000007>::from(123456789);
    let c = ModInt::<Mod1000000007>::from(987654321);
    assert_eq!(a.add(b).add(c), a.add(b.add(c)));
    assert_eq!(a.mul(b).mul(c), a.mul(b.mul(c)));
}

#[test]
fn arithmetic_near_the_representation_limit() {
    let m = StaticModulus64::<18446744073709551615>;
    let a = ModInt::new(18446744073709551614, m);
    let b = ModInt::new(18446744073709551613, m);
    assert_eq!(*a.add(b).value(), 18446744073709551612);
    let c = ModInt::new(4294967296, m);
    assert_eq!(*c.mul(c).value(), 1);
}

#[test]
fn pow_at_zero_and_one() {
    let x = ModInt::<Mod998244353>::from(123456);
    assert_eq!(*x.pow(0).value(), 1);
    assert_eq!(x.pow(1), x);
}

#[test]
fn pow_splits_over_exponent_sums() {
    let x = ModInt::<Mod998244353>::from(123456);
    assert_eq!(x.pow(13), x.pow(6).mul(x.pow(7)));
    assert_eq!(*ModInt::<Mod998244353>::from(2).pow(10).value(), 1024);
    assert_eq!(*ModInt::<Mod998244353>::from(3).pow(40).value(), 380789650);
}

#[test]
fn div_inverts_mul() {
    let a = ModInt::<Mod1000000007>::from(10);
    let b = ModInt::<Mod1000000007>::from(2);
    assert_eq!(*a.div(b).value(), 5);
    let c = ModInt::<Mod1000000007>::from(123456789);
    let d = ModInt::<Mod1000000007>::from(987654321);
    assert_eq!(c.div(d).mul(d), c);
}

#[test]
fn inv_under_dynamic_modulus() {
    let d = DynamicModulus::new(998244353);
    let two_inv = d.inv(2);
    assert_eq!(two_inv, 499122177);
    assert_eq!(d.mul(two_inv, 2), 1);
}

#[test]
fn is_prime_boundary_values() {
    assert!(!is_prime(0));
    assert!(!is_prime(1));
    assert!(is_prime(2));
    assert!(!is_prime(4));
    assert!(is_prime(998244353));
    assert!(is_prime(1000000007));
    assert!(!is_prime(1000000008));
}

#[test]
fn is_prime_through_the_strategies() {
    assert!(StaticModulus64::<2>.is_prime());
    assert!(StaticModulus64::<65537>.is_prime());
    assert!(!StaticModulus64::<65536>.is_prime());
    assert!(DynamicModulus::new(998244353).is_prime());
    assert!(!DynamicModulus::new(1).is_prime());
    assert!(!DynamicModulus::new(24).is_prime());
}

#[test]
fn mod_pow_basic_values() {
    assert_eq!(mod_pow(2, 10, 1000), 24);
    assert_eq!(mod_pow(5, 0, 7), 1);
    assert_eq!(mod_pow(7, 1, 5), 2);
    assert_eq!(mod_pow(3, 5, 1), 0);
    assert_eq!(mod_pow(3, 0, 1), 1);
}

#[test]
fn primitive_root_of_998244353() {
    let m: u64 = 998244353;
    let g = StaticModulus64::<998244353>::primitive_root();
    assert_eq!(g, 3);
    for p in [2u64, 7, 17] {
        assert_eq!((m - 1) % p, 0);
        assert_ne!(mod_pow(g, (m - 1) / p, m), 1);
    }
    assert_eq!(mod_pow(g, m - 1, m), 1);
}

#[test]
fn primitive_root_table_and_search() {
    assert_eq!(StaticModulus64::<2>::primitive_root(), 1);
    assert_eq!(StaticModulus64::<65537>::primitive_root(), 3);
    assert_eq!(StaticModulus64::<5>::primitive_root(), 2);
    assert_eq!(StaticModulus64::<7>::primitive_root(), 3);
    assert_eq!(StaticModulus64::<7>::compute_primitive_root(), 3);
    assert_eq!(StaticModulus64::<998244353>::compute_primitive_root(), 3);
}
