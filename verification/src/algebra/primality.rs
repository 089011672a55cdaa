//! The order of the groups is a prime.
//!
//! The powers of an element of order `f` are different modulo every divisor of the group order, so
//! that no divisor but one is smaller than `f`. Elements whose orders have no common factor multiply
//! to one whose order is the product, which is larger than the root of the group order.
use super::congruence::{
    eqm, inverse_of, is_unit, lemma_eqm_difference, lemma_eqm_mod, lemma_eqm_mul, lemma_eqm_pow,
    lemma_eqm_sub, lemma_modulus, lemma_unit_cancel, lemma_unit_eqm, lemma_unit_factor,
    lemma_unit_mul, modulus,
};
use super::polynomial::eval;
use super::quotients::{lemma_vanishing_without_value, vanishing_without};
use super::roots::{
    is_power_of_two, lemma_one_minus_root_is_unit, lemma_root_order, max_domain_size, unity_root,
};
use vstd::arithmetic::div_mod::{
    lemma_fundamental_div_mod, lemma_mod_bound, lemma_mod_multiples_vanish, lemma_mul_mod_noop_left,
    lemma_mul_mod_noop_right, lemma_small_mod,
};
use vstd::arithmetic::power::{
    lemma1_pow, lemma_pow0, lemma_pow1, lemma_pow_adds, lemma_pow_distributes, lemma_pow_multiplies,
    pow,
};
use vstd::prelude::*;
use vstd::relations::injective_on;
use vstd::set_lib::{lemma_int_range, lemma_len_subset, lemma_map_size, set_int_range};

verus! {

pub open spec fn divides(d: int, n: int) -> bool {
    n % d == 0
}

/// Whether a number has no divisors but one and itself.
pub open spec fn is_prime(n: int) -> bool {
    n >= 2 && forall|d: int| 1 < d < n ==> !#[trigger] divides(d, n)
}

/// Every positive number below a prime has an inverse modulo the prime.
pub proof fn lemma_inverse_modulo_prime(q: int, m: int) -> (u: int)
    requires
        is_prime(q),
        0 < m < q,
    ensures
        0 < u < q,
        (u * m) % q == 1,
    decreases m,
{
    if m == 1 {
        lemma_small_mod(1, q as nat);
        1
    } else {
        let k = q / m;
        let s = q % m;
        lemma_fundamental_div_mod(q, m);
        lemma_mod_bound(q, m);
        assert(!divides(m, q));
        let v = lemma_inverse_modulo_prime(q, s);
        let w = -(v * k);
        let u = w % q;
        lemma_mod_bound(w, q);
        lemma_mul_mod_noop_left(w, m, q);
        assert(w * m == q * (-v) + v * s) by (nonlinear_arith)
            requires
                w == -(v * k),
                q == m * k + s,
        ;
        lemma_mod_multiples_vanish(-v, v * s, q);
        if u == 0 {
            assert(0 * m == 0);
            lemma_small_mod(0, q as nat);
        }
        u
    }
}

/// Whether a power of `x` is one, and no smaller power is one modulo any divisor of the group order.
spec fn has_order(x: int, n: int) -> bool {
    &&& 1 <= n
    &&& eqm(pow(x, n as nat), 1)
    &&& forall|m: int| 0 < m < n ==> is_unit(#[trigger] pow(x, m as nat) - 1)
}

/// Exponents count modulo the order.
proof fn lemma_reduce_exponent(x: int, n: int, i: nat)
    requires
        1 <= n,
        eqm(pow(x, n as nat), 1),
    ensures
        eqm(pow(x, i), pow(x, (i as int % n) as nat)),
{
    let k = i as int / n;
    let s = i as int % n;
    lemma_fundamental_div_mod(i as int, n);
    lemma_mod_bound(i as int, n);
    vstd::arithmetic::div_mod::lemma_div_pos_is_pos(i as int, n);
    assert(n * k >= 0) by (nonlinear_arith)
        requires
            n >= 1,
            k >= 0,
    ;
    lemma_pow_adds(x, (n * k) as nat, s as nat);
    lemma_pow_multiplies(x, n as nat, k as nat);
    lemma_eqm_pow(pow(x, n as nat), 1, k as nat);
    lemma1_pow(k as nat);
    lemma_eqm_mul(pow(x, (n * k) as nat), 1, pow(x, s as nat), pow(x, s as nat));
    assert(1 * pow(x, s as nat) == pow(x, s as nat));
}

/// `y - 1` is a factor of `y^k - 1`.
proof fn lemma_power_factor(y: int, k: nat)
    requires
        1 <= k,
        is_unit(pow(y, k) - 1),
    ensures
        is_unit(y - 1),
{
    lemma_vanishing_without_value(k as int, 1, y);
    lemma1_pow(k);
    lemma_unit_factor(eval(vanishing_without(k as int, 1), y), y - 1);
}

/// An element other than one whose power to a prime is one.
proof fn lemma_prime_order(x: int, q: int)
    requires
        is_prime(q),
        eqm(pow(x, q as nat), 1),
        is_unit(x - 1),
    ensures
        has_order(x, q),
{
    assert forall|m: int| 0 < m < q implies is_unit(#[trigger] pow(x, m as nat) - 1) by {
        let u = lemma_inverse_modulo_prime(q, m);
        let y = pow(x, m as nat);
        assert(m * u == u * m) by (nonlinear_arith);
        assert(m * u > 0) by (nonlinear_arith)
            requires
                m > 0,
                u > 0,
        ;
        lemma_pow_multiplies(x, m as nat, u as nat);
        lemma_reduce_exponent(x, q, (m * u) as nat);
        lemma_pow1(x);
        lemma_eqm_sub(x, pow(y, u as nat), 1, 1);
        lemma_unit_eqm(x - 1, pow(y, u as nat) - 1);
        lemma_power_factor(y, u as nat);
    }
}

/// A factor that is invertible does not matter for divisibility.
proof fn lemma_cancel_factor(m: int, b: int, u: int, a: int)
    requires
        1 <= a,
        (u * b) % a == 1,
        (m * b) % a == 0,
    ensures
        m % a == 0,
{
    lemma_mul_mod_noop_left(m * b, u, a);
    lemma_mul_mod_noop_right(m, u * b, a);
    assert(m * b * u == m * (u * b)) by (nonlinear_arith);
    assert(0 * u == 0);
    assert(m * 1 == m);
    vstd::arithmetic::div_mod::lemma_small_mod(0, a as nat);
}

/// One half of the proof for products: the part of the first factor stays.
proof fn lemma_product_power(x: int, a: int, y: int, b: int, u: int, m: int)
    requires
        has_order(x, a),
        has_order(y, b),
        (u * b) % a == 1,
        0 < m,
        m % a != 0,
    ensures
        is_unit(pow(x * y, m as nat) - 1),
{
    let z = pow(x * y, m as nat);
    let e = m * b;
    assert(e > 0) by (nonlinear_arith)
        requires
            e == m * b,
            m > 0,
            b >= 1,
    ;
    lemma_pow_multiplies(x * y, m as nat, b as nat);
    lemma_pow_distributes(x, y, e as nat);
    let px = pow(x, e as nat);
    let py = pow(y, e as nat);
    lemma_reduce_exponent(x, a, e as nat);
    lemma_reduce_exponent(y, b, e as nat);
    assert(e == b * m + 0) by (nonlinear_arith)
        requires
            e == m * b,
    ;
    lemma_mod_multiples_vanish(m, 0, b);
    lemma_small_mod(0, b as nat);
    lemma_pow0(y);
    if e % a == 0 {
        lemma_cancel_factor(m, b, u, a);
    }
    lemma_mod_bound(e, a);
    let r = pow(x, (e % a) as nat);
    assert(is_unit(r - 1));
    lemma_eqm_mul(px, r, py, 1);
    assert(r * 1 == r);
    lemma_eqm_sub(r, px * py, 1, 1);
    lemma_unit_eqm(r - 1, pow(z, b as nat) - 1);
    lemma_power_factor(z, b as nat);
}

/// The product of two elements whose orders have no common factor.
proof fn lemma_product_order(x: int, a: int, y: int, b: int, u: int, v: int)
    requires
        has_order(x, a),
        has_order(y, b),
        (u * b) % a == 1,
        (v * a) % b == 1,
    ensures
        has_order(x * y, a * b),
{
    let n = a * b;
    assert(n >= 1) by (nonlinear_arith)
        requires
            n == a * b,
            a >= 1,
            b >= 1,
    ;
    lemma_pow_distributes(x, y, n as nat);
    lemma_reduce_exponent(x, a, n as nat);
    lemma_reduce_exponent(y, b, n as nat);
    lemma_mod_multiples_vanish(b, 0, a);
    assert(n == b * a + 0) by (nonlinear_arith)
        requires
            n == a * b,
    ;
    lemma_mod_multiples_vanish(a, 0, b);
    lemma_small_mod(0, a as nat);
    lemma_small_mod(0, b as nat);
    lemma_pow0(x);
    lemma_pow0(y);
    lemma_eqm_mul(pow(x, n as nat), 1, pow(y, n as nat), 1);
    assert forall|m: int| 0 < m < n implies is_unit(#[trigger] pow(x * y, m as nat) - 1) by {
        if m % a != 0 {
            lemma_product_power(x, a, y, b, u, m);
        } else if m % b != 0 {
            lemma_product_power(y, b, x, a, v, m);
            assert(y * x == x * y) by (nonlinear_arith);
        } else {
            let k = m / a;
            lemma_fundamental_div_mod(m, a);
            assert(k * a == m) by (nonlinear_arith)
                requires
                    m == a * k,
            ;
            lemma_cancel_factor(k, a, v, b);
            let l = k / b;
            lemma_fundamental_div_mod(k, b);
            assert(m == n * l) by (nonlinear_arith)
                requires
                    m == a * k,
                    k == b * l,
                    n == a * b,
            ;
            assert(false) by (nonlinear_arith)
                requires
                    m == n * l,
                    0 < m < n,
            ;
        }
    }
}

/// A divisor of the group order is not smaller than the order of an element.
proof fn lemma_divisor_is_large(x: int, n: int, d: int)
    requires
        has_order(x, n),
        1 < d,
        modulus() % d == 0,
    ensures
        n <= d,
{
    let f = |i: int| pow(x, i as nat) % d;
    let exponents = set_int_range(0, n);
    let residues = exponents.map(f);
    assert(injective_on(f, exponents)) by {
        assert forall|i: int, j: int|
            exponents.contains(i) && exponents.contains(j) && #[trigger] f(i) == #[trigger] f(
                j,
            ) implies i == j by {
            if i < j {
                lemma_powers_differ(x, n, d, i, j);
            } else if j < i {
                lemma_powers_differ(x, n, d, j, i);
            }
        }
    }
    lemma_int_range(0, n);
    lemma_map_size(exponents, residues, f);
    lemma_int_range(0, d);
    assert forall|y: int| #[trigger] residues.contains(y) implies set_int_range(0, d).contains(
        y,
    ) by {
        let i = choose|i: int| exponents.contains(i) && f(i) == y;
        lemma_mod_bound(pow(x, i as nat), d);
    }
    lemma_len_subset(residues, set_int_range(0, d));
}

/// Powers with exponents below the order are different modulo a divisor of the group order.
proof fn lemma_powers_differ(x: int, n: int, d: int, i: int, j: int)
    requires
        has_order(x, n),
        1 < d,
        modulus() % d == 0,
        0 <= i < j < n,
    ensures
        pow(x, i as nat) % d != pow(x, j as nat) % d,
{
    let p = pow(x, i as nat);
    let q = pow(x, (j - i) as nat);
    lemma_pow_adds(x, i as nat, (j - i) as nat);
    lemma_pow_adds(x, i as nat, (n - i) as nat);
    assert(inverse_of(p, pow(x, (n - i) as nat)));
    assert(is_unit(q - 1));
    lemma_unit_mul(p, q - 1);
    let g = p * (q - 1);
    assert(g == p * q - p) by (nonlinear_arith)
        requires
            g == p * (q - 1),
    ;
    if p % d == pow(x, j as nat) % d {
        vstd::arithmetic::div_mod::lemma_sub_mod_noop(p * q, p, d);
        lemma_small_mod(0, d as nat);
        assert(g % d == 0);
        let w = choose|w: int| inverse_of(g, w);
        lemma_modulus();
        lemma_eqm_difference(g * w, 1);
        lemma_small_mod(0, modulus() as nat);
        let m = modulus();
        let k = (g * w - 1) / m;
        let l = m / d;
        let h = g / d;
        lemma_fundamental_div_mod(g * w - 1, m);
        lemma_fundamental_div_mod(m, d);
        lemma_fundamental_div_mod(g, d);
        assert(d * (h * w - l * k) == 1) by (nonlinear_arith)
            requires
                g * w - 1 == m * k,
                m == d * l,
                g == d * h,
        ;
        let e = h * w - l * k;
        assert(false) by (nonlinear_arith)
            requires
                d * e == 1,
                1 < d,
        ;
    }
}

/// A power from half its exponent.
proof fn lemma_square(x: int, e: nat, a: int, c: int)
    requires
        eqm(pow(x, e), a),
        (a * a) % modulus() == c,
    ensures
        eqm(pow(x, e + e), c),
{
    lemma_pow_adds(x, e, e);
    lemma_eqm_mul(pow(x, e), a, pow(x, e), a);
    lemma_eqm_mod(a * a);
}

/// A power from half its exponent, rounded down.
proof fn lemma_square_and_multiply(x: int, e: nat, a: int, c: int)
    requires
        eqm(pow(x, e), a),
        (a * a * x) % modulus() == c,
    ensures
        eqm(pow(x, e + e + 1), c),
{
    lemma_pow_adds(x, e, e);
    lemma_pow_adds(x, e + e, 1);
    lemma_pow1(x);
    lemma_eqm_mul(pow(x, e), a, pow(x, e), a);
    lemma_eqm_mul(pow(x, e + e), a * a, x, x);
    lemma_eqm_mod(a * a * x);
}

/// A product that is one is that of a unit.
proof fn lemma_has_inverse(a: int, b: int)
    requires
        (a * b) % modulus() == 1,
    ensures
        is_unit(a),
{
    lemma_modulus();
    lemma_small_mod(1, modulus() as nat);
    assert(inverse_of(a, b));
}

spec fn are_factors(s: u16, t: u32, q: int) -> bool {
    s * t == q
}

/// A number without two factors of which the first has at most twelve bits is a prime.
proof fn lemma_prime_from_factors(q: int)
    requires
        2 <= q < 0x100_0000,
        forall|s: u16, t: u32|
            2 <= s < 0x1000 && s <= t < 0x100_0000 ==> !#[trigger] are_factors(s, t, q),
    ensures
        is_prime(q),
{
    assert forall|d: int| 1 < d < q implies !#[trigger] divides(d, q) by {
        if divides(d, q) {
            let e = q / d;
            lemma_fundamental_div_mod(q, d);
            assert(1 < e < q) by (nonlinear_arith)
                requires
                    q == d * e,
                    1 < d < q,
            ;
            let (s, t) = if d <= e {
                (d, e)
            } else {
                (e, d)
            };
            assert(s * t == q) by (nonlinear_arith)
                requires
                    q == d * e,
                    (s == d && t == e) || (s == e && t == d),
            ;
            assert(s < 0x1000) by (nonlinear_arith)
                requires
                    s * t == q,
                    q < 0x100_0000,
                    0 < s <= t,
            ;
            assert(!are_factors(s as u16, t as u32, q));
        }
    }
}


/// The element with the order 125527.
spec fn root_125527() -> int {
    0x3dd479f5454967ce0dcb2b172ac73d5ce93d58a856569621c247fb7ed7f91c4fint
}

proof fn lemma_prime_125527()
    ensures
        is_prime(125527),
{
    assert forall|s: u16, t: u32| 2 <= s < 0x1000 && s <= t < 0x100_0000 implies !#[trigger]
        are_factors(s, t, 125527) by {
        assert(s * t != 125527) by (bit_vector)
            requires
                2 <= s < 0x1000,
                s <= t < 0x100_0000,
        ;
    }
    lemma_prime_from_factors(125527);
}

#[verifier::spinoff_prover]
proof fn lemma_order_125527()
    ensures
        has_order(root_125527(), 125527),
{
    reveal(modulus);
    lemma_pow1(root_125527());
    lemma_square_and_multiply(
        0x3dd479f5454967ce0dcb2b172ac73d5ce93d58a856569621c247fb7ed7f91c4fint,
        1,
        0x3dd479f5454967ce0dcb2b172ac73d5ce93d58a856569621c247fb7ed7f91c4fint,
        0x4fe85a5f5ed002f00b16454cd8f8bd3f57cb37007c2cb539645ec40b20564a4bint,
    );
    lemma_square_and_multiply(
        0x3dd479f5454967ce0dcb2b172ac73d5ce93d58a856569621c247fb7ed7f91c4fint,
        3,
        0x4fe85a5f5ed002f00b16454cd8f8bd3f57cb37007c2cb539645ec40b20564a4bint,
        0x4fcd8946266f296c9d69a3ec5d2d2e93bf78d6a7b7c4e5ae107f1863250d553dint,
    );
    lemma_square_and_multiply(
        0x3dd479f5454967ce0dcb2b172ac73d5ce93d58a856569621c247fb7ed7f91c4fint,
        7,
        0x4fcd8946266f296c9d69a3ec5d2d2e93bf78d6a7b7c4e5ae107f1863250d553dint,
        0x69ff4cc8cc8276b49c30043b0bf24d087dadd05ce2c6e07b9b2522859641c320int,
    );
    lemma_square(
        0x3dd479f5454967ce0dcb2b172ac73d5ce93d58a856569621c247fb7ed7f91c4fint,
        15,
        0x69ff4cc8cc8276b49c30043b0bf24d087dadd05ce2c6e07b9b2522859641c320int,
        0x3da9a59660d2df6ae1f01b3ee2772d5ee329b2c1abd8b836055c19d9be82b66dint,
    );
    lemma_square_and_multiply(
        0x3dd479f5454967ce0dcb2b172ac73d5ce93d58a856569621c247fb7ed7f91c4fint,
        30,
        0x3da9a59660d2df6ae1f01b3ee2772d5ee329b2c1abd8b836055c19d9be82b66dint,
        0x2ca0de406ad5eb03cead3d7684073f12ee7b8b1476ecb83b04b94c80af8f6655int,
    );
    lemma_square(
        0x3dd479f5454967ce0dcb2b172ac73d5ce93d58a856569621c247fb7ed7f91c4fint,
        61,
        0x2ca0de406ad5eb03cead3d7684073f12ee7b8b1476ecb83b04b94c80af8f6655int,
        0x17cf1909cbf33fa441b4a9e94f792a09e79e188326be46611a239aaf0451ac1eint,
    );
    lemma_square_and_multiply(
        0x3dd479f5454967ce0dcb2b172ac73d5ce93d58a856569621c247fb7ed7f91c4fint,
        122,
        0x17cf1909cbf33fa441b4a9e94f792a09e79e188326be46611a239aaf0451ac1eint,
        0x9461344d31c606fa3e1c7af1cc1e487130e281e655c4c6d65ffbcb579916580int,
    );
    lemma_square(
        0x3dd479f5454967ce0dcb2b172ac73d5ce93d58a856569621c247fb7ed7f91c4fint,
        245,
        0x9461344d31c606fa3e1c7af1cc1e487130e281e655c4c6d65ffbcb579916580int,
        0x505ffdd3f7f4308d3b4265d4f6cac0f591e02f0a2a27b939a54c4a7e62da25fbint,
    );
    lemma_square(
        0x3dd479f5454967ce0dcb2b172ac73d5ce93d58a856569621c247fb7ed7f91c4fint,
        490,
        0x505ffdd3f7f4308d3b4265d4f6cac0f591e02f0a2a27b939a54c4a7e62da25fbint,
        0x4896f1d738e817663bac7b2d2f787004200fcb4b2e934fa97c085a80c15a915bint,
    );
    lemma_square_and_multiply(
        0x3dd479f5454967ce0dcb2b172ac73d5ce93d58a856569621c247fb7ed7f91c4fint,
        980,
        0x4896f1d738e817663bac7b2d2f787004200fcb4b2e934fa97c085a80c15a915bint,
        0x16129998233ebe7645f3b82d854261ad3fa1776dd143adbd4c2e2332a26f261bint,
    );
    lemma_square(
        0x3dd479f5454967ce0dcb2b172ac73d5ce93d58a856569621c247fb7ed7f91c4fint,
        1961,
        0x16129998233ebe7645f3b82d854261ad3fa1776dd143adbd4c2e2332a26f261bint,
        0x56a99e0ccd55f4c4f206da1db40d3620e434ef6709b7f8906e646b8d08c32ac3int,
    );
    lemma_square_and_multiply(
        0x3dd479f5454967ce0dcb2b172ac73d5ce93d58a856569621c247fb7ed7f91c4fint,
        3922,
        0x56a99e0ccd55f4c4f206da1db40d3620e434ef6709b7f8906e646b8d08c32ac3int,
        0x6515663dacf419ee0a0cbe62dfd5fd6e24fb01ec10e46d6931201e32bcf4bb8cint,
    );
    lemma_square(
        0x3dd479f5454967ce0dcb2b172ac73d5ce93d58a856569621c247fb7ed7f91c4fint,
        7845,
        0x6515663dacf419ee0a0cbe62dfd5fd6e24fb01ec10e46d6931201e32bcf4bb8cint,
        0x606881cdad1867eb9e477870d12cf0c1c37a3c8d958f52bb2621634c0b3ecfe4int,
    );
    lemma_square_and_multiply(
        0x3dd479f5454967ce0dcb2b172ac73d5ce93d58a856569621c247fb7ed7f91c4fint,
        15690,
        0x606881cdad1867eb9e477870d12cf0c1c37a3c8d958f52bb2621634c0b3ecfe4int,
        0x338a84e8b2cb8a1da66bbe820b77b1c42ff9f9fd896a6c08f6b4a171f1ca984cint,
    );
    lemma_square_and_multiply(
        0x3dd479f5454967ce0dcb2b172ac73d5ce93d58a856569621c247fb7ed7f91c4fint,
        31381,
        0x338a84e8b2cb8a1da66bbe820b77b1c42ff9f9fd896a6c08f6b4a171f1ca984cint,
        0x3b2faa1a8b16a0cb7a6b176347f975ad9c1605ac5cc2117df45bf20c73d371c0int,
    );
    lemma_square_and_multiply(
        0x3dd479f5454967ce0dcb2b172ac73d5ce93d58a856569621c247fb7ed7f91c4fint,
        62763,
        0x3b2faa1a8b16a0cb7a6b176347f975ad9c1605ac5cc2117df45bf20c73d371c0int,
        0x1int,
    );
    lemma_has_inverse(
        0x3dd479f5454967ce0dcb2b172ac73d5ce93d58a856569621c247fb7ed7f91c4eint,
        0x64c8f0e82b93864d21a727eeb280596172b06f898587a51eb2d07484bb18f770int,
    );
    lemma_prime_125527();
    lemma_prime_order(root_125527(), 125527);
}

/// The element with the order 859267.
spec fn root_859267() -> int {
    0x672315bde95b3660335e8a5dcace029b6404f0331eae7401fa8c8374cd50438dint
}

proof fn lemma_prime_859267()
    ensures
        is_prime(859267),
{
    assert forall|s: u16, t: u32| 2 <= s < 0x1000 && s <= t < 0x100_0000 implies !#[trigger]
        are_factors(s, t, 859267) by {
        assert(s * t != 859267) by (bit_vector)
            requires
                2 <= s < 0x1000,
                s <= t < 0x100_0000,
        ;
    }
    lemma_prime_from_factors(859267);
}

#[verifier::spinoff_prover]
proof fn lemma_order_859267()
    ensures
        has_order(root_859267(), 859267),
{
    reveal(modulus);
    lemma_pow1(root_859267());
    lemma_square_and_multiply(
        0x672315bde95b3660335e8a5dcace029b6404f0331eae7401fa8c8374cd50438dint,
        1,
        0x672315bde95b3660335e8a5dcace029b6404f0331eae7401fa8c8374cd50438dint,
        0x71b2d9cb0fcdd819ea73c277fcb7e9a233de48361437f692d5ba531d228a143bint,
    );
    lemma_square(
        0x672315bde95b3660335e8a5dcace029b6404f0331eae7401fa8c8374cd50438dint,
        3,
        0x71b2d9cb0fcdd819ea73c277fcb7e9a233de48361437f692d5ba531d228a143bint,
        0x65f7fd36d249878bb20121865aebe7f615d5527747c0264085fc14e76a262eeeint,
    );
    lemma_square_and_multiply(
        0x672315bde95b3660335e8a5dcace029b6404f0331eae7401fa8c8374cd50438dint,
        6,
        0x65f7fd36d249878bb20121865aebe7f615d5527747c0264085fc14e76a262eeeint,
        0x2ae0971ff85391f39d0510e2fcd9d1203c6f4c6c40e8e40ea9400f894712d9ecint,
    );
    lemma_square(
        0x672315bde95b3660335e8a5dcace029b6404f0331eae7401fa8c8374cd50438dint,
        13,
        0x2ae0971ff85391f39d0510e2fcd9d1203c6f4c6c40e8e40ea9400f894712d9ecint,
        0x638fbde087f1eb6c8b5f395bcc633f95c2f64854a21f33427da977d2733bd4ccint,
    );
    lemma_square(
        0x672315bde95b3660335e8a5dcace029b6404f0331eae7401fa8c8374cd50438dint,
        26,
        0x638fbde087f1eb6c8b5f395bcc633f95c2f64854a21f33427da977d2733bd4ccint,
        0x26c28992c0f964b8e4a41749df93f9de0a17684bca3c6398ab4a3a70f4bf9d6bint,
    );
    lemma_square(
        0x672315bde95b3660335e8a5dcace029b6404f0331eae7401fa8c8374cd50438dint,
        52,
        0x26c28992c0f964b8e4a41749df93f9de0a17684bca3c6398ab4a3a70f4bf9d6bint,
        0x1107298e51db8838f525bd0b53362028fac0db46bf8a3f24547eb80ce3f30a8cint,
    );
    lemma_square_and_multiply(
        0x672315bde95b3660335e8a5dcace029b6404f0331eae7401fa8c8374cd50438dint,
        104,
        0x1107298e51db8838f525bd0b53362028fac0db46bf8a3f24547eb80ce3f30a8cint,
        0x3b8a69911e45f3dc3da2ba755bf43cf8cc3634126c349f0ec9f42beb1ec6ef5cint,
    );
    lemma_square_and_multiply(
        0x672315bde95b3660335e8a5dcace029b6404f0331eae7401fa8c8374cd50438dint,
        209,
        0x3b8a69911e45f3dc3da2ba755bf43cf8cc3634126c349f0ec9f42beb1ec6ef5cint,
        0x52295971832f5371f88af671365ff6dd79578fb4eab226fec788aeeaef7f81eaint,
    );
    lemma_square_and_multiply(
        0x672315bde95b3660335e8a5dcace029b6404f0331eae7401fa8c8374cd50438dint,
        419,
        0x52295971832f5371f88af671365ff6dd79578fb4eab226fec788aeeaef7f81eaint,
        0x220e023e663ad48ed5404785e63983d866f4b3ea4f30722a8acfaf37e3f810d6int,
    );
    lemma_square(
        0x672315bde95b3660335e8a5dcace029b6404f0331eae7401fa8c8374cd50438dint,
        839,
        0x220e023e663ad48ed5404785e63983d866f4b3ea4f30722a8acfaf37e3f810d6int,
        0x17c126d1afa19fbb94738d24c06ac0e76f64fdd0d318fd0cbe28462fad159619int,
    );
    lemma_square(
        0x672315bde95b3660335e8a5dcace029b6404f0331eae7401fa8c8374cd50438dint,
        1678,
        0x17c126d1afa19fbb94738d24c06ac0e76f64fdd0d318fd0cbe28462fad159619int,
        0x654b714116ce538f0c6930c8c70f358ace7fa80d2a3efe04b6630a6c9a69e977int,
    );
    lemma_square_and_multiply(
        0x672315bde95b3660335e8a5dcace029b6404f0331eae7401fa8c8374cd50438dint,
        3356,
        0x654b714116ce538f0c6930c8c70f358ace7fa80d2a3efe04b6630a6c9a69e977int,
        0x69b41705627e6fed533d3ae6df17b06fa9baabb5afcc1bda05e06e1e0b9a2983int,
    );
    lemma_square(
        0x672315bde95b3660335e8a5dcace029b6404f0331eae7401fa8c8374cd50438dint,
        6713,
        0x69b41705627e6fed533d3ae6df17b06fa9baabb5afcc1bda05e06e1e0b9a2983int,
        0x2c38b5959c8f5df2f8db8adc2b98f803f20215da7a214df36db824ef642422cbint,
    );
    lemma_square(
        0x672315bde95b3660335e8a5dcace029b6404f0331eae7401fa8c8374cd50438dint,
        13426,
        0x2c38b5959c8f5df2f8db8adc2b98f803f20215da7a214df36db824ef642422cbint,
        0x47ebd9766775d9ba55b4203022b2f23940f8c0c4c9c9c0fa9ecd2eea98a6159cint,
    );
    lemma_square(
        0x672315bde95b3660335e8a5dcace029b6404f0331eae7401fa8c8374cd50438dint,
        26852,
        0x47ebd9766775d9ba55b4203022b2f23940f8c0c4c9c9c0fa9ecd2eea98a6159cint,
        0x3f982a03b6391111d2001d0da14d67daa036f0213ffdc56f3f4b758d6efb1b67int,
    );
    lemma_square(
        0x672315bde95b3660335e8a5dcace029b6404f0331eae7401fa8c8374cd50438dint,
        53704,
        0x3f982a03b6391111d2001d0da14d67daa036f0213ffdc56f3f4b758d6efb1b67int,
        0x57d12cea57044bbe283c2b98d9c1a20ad8329f4f5b8b64d0dde6d49655cc5197int,
    );
    lemma_square(
        0x672315bde95b3660335e8a5dcace029b6404f0331eae7401fa8c8374cd50438dint,
        107408,
        0x57d12cea57044bbe283c2b98d9c1a20ad8329f4f5b8b64d0dde6d49655cc5197int,
        0x14a6553e87de4e592ae23ab3e0c56f3e7b90b4d55d677eafbb48e95c9836026int,
    );
    lemma_square_and_multiply(
        0x672315bde95b3660335e8a5dcace029b6404f0331eae7401fa8c8374cd50438dint,
        214816,
        0x14a6553e87de4e592ae23ab3e0c56f3e7b90b4d55d677eafbb48e95c9836026int,
        0xf610e5248558121d26c0480ae847b0e6863b181c1dd8329443e6b6ecd25f779int,
    );
    lemma_square_and_multiply(
        0x672315bde95b3660335e8a5dcace029b6404f0331eae7401fa8c8374cd50438dint,
        429633,
        0xf610e5248558121d26c0480ae847b0e6863b181c1dd8329443e6b6ecd25f779int,
        0x1int,
    );
    lemma_has_inverse(
        0x672315bde95b3660335e8a5dcace029b6404f0331eae7401fa8c8374cd50438cint,
        0x44bfc99dedac5265e202bade79caf4b2dcf1bc39d111262ac758f7a2c7e763b1int,
    );
    lemma_prime_859267();
    lemma_prime_order(root_859267(), 859267);
}

/// The element with the order 906349.
spec fn root_906349() -> int {
    0x67ee5d1f3b069511cd89744d5897256537cb1d8475a21d7924a57ba2b69a4d76int
}

proof fn lemma_prime_906349()
    ensures
        is_prime(906349),
{
    assert forall|s: u16, t: u32| 2 <= s < 0x1000 && s <= t < 0x100_0000 implies !#[trigger]
        are_factors(s, t, 906349) by {
        assert(s * t != 906349) by (bit_vector)
            requires
                2 <= s < 0x1000,
                s <= t < 0x100_0000,
        ;
    }
    lemma_prime_from_factors(906349);
}

#[verifier::spinoff_prover]
proof fn lemma_order_906349()
    ensures
        has_order(root_906349(), 906349),
{
    reveal(modulus);
    lemma_pow1(root_906349());
    lemma_square_and_multiply(
        0x67ee5d1f3b069511cd89744d5897256537cb1d8475a21d7924a57ba2b69a4d76int,
        1,
        0x67ee5d1f3b069511cd89744d5897256537cb1d8475a21d7924a57ba2b69a4d76int,
        0x2693337d09dbbe4a2fd5e113cd812bf04191bea151ee3eb4b21a05b36bd639f1int,
    );
    lemma_square(
        0x67ee5d1f3b069511cd89744d5897256537cb1d8475a21d7924a57ba2b69a4d76int,
        3,
        0x2693337d09dbbe4a2fd5e113cd812bf04191bea151ee3eb4b21a05b36bd639f1int,
        0x7104b5ffbb2081fab028e327442e91991dcd4029ec6a36c42a68252f3c4068e3int,
    );
    lemma_square_and_multiply(
        0x67ee5d1f3b069511cd89744d5897256537cb1d8475a21d7924a57ba2b69a4d76int,
        6,
        0x7104b5ffbb2081fab028e327442e91991dcd4029ec6a36c42a68252f3c4068e3int,
        0x73272e0a866a81320decb2f49d8866e8e701115df5e6968beaefa9c633805fdfint,
    );
    lemma_square_and_multiply(
        0x67ee5d1f3b069511cd89744d5897256537cb1d8475a21d7924a57ba2b69a4d76int,
        13,
        0x73272e0a866a81320decb2f49d8866e8e701115df5e6968beaefa9c633805fdfint,
        0x1535691446929c361ed8f71d29e6a35b2e6a9409995e11553baf6c91d6469275int,
    );
    lemma_square_and_multiply(
        0x67ee5d1f3b069511cd89744d5897256537cb1d8475a21d7924a57ba2b69a4d76int,
        27,
        0x1535691446929c361ed8f71d29e6a35b2e6a9409995e11553baf6c91d6469275int,
        0x4f372bbce6f0f2578d9c625274bc9cb42918c670b56ca9e7cd6c43e202ca4b0dint,
    );
    lemma_square(
        0x67ee5d1f3b069511cd89744d5897256537cb1d8475a21d7924a57ba2b69a4d76int,
        55,
        0x4f372bbce6f0f2578d9c625274bc9cb42918c670b56ca9e7cd6c43e202ca4b0dint,
        0x61b601de875524278966e43c6d276ca8230f35f7518ef2f151e3303d243893f0int,
    );
    lemma_square_and_multiply(
        0x67ee5d1f3b069511cd89744d5897256537cb1d8475a21d7924a57ba2b69a4d76int,
        110,
        0x61b601de875524278966e43c6d276ca8230f35f7518ef2f151e3303d243893f0int,
        0x579708f172ba3175dc9308759327c4b745b5d41e5a6dafa2dd0152e5a420fbbfint,
    );
    lemma_square(
        0x67ee5d1f3b069511cd89744d5897256537cb1d8475a21d7924a57ba2b69a4d76int,
        221,
        0x579708f172ba3175dc9308759327c4b745b5d41e5a6dafa2dd0152e5a420fbbfint,
        0x4465a69264719555950eaada526e17c98294e40a1317be9b1006493269f4b432int,
    );
    lemma_square_and_multiply(
        0x67ee5d1f3b069511cd89744d5897256537cb1d8475a21d7924a57ba2b69a4d76int,
        442,
        0x4465a69264719555950eaada526e17c98294e40a1317be9b1006493269f4b432int,
        0x6f4de45d2487ab6d978ac2227c0ebb3675671db64cf2c82081cea358d5d44536int,
    );
    lemma_square(
        0x67ee5d1f3b069511cd89744d5897256537cb1d8475a21d7924a57ba2b69a4d76int,
        885,
        0x6f4de45d2487ab6d978ac2227c0ebb3675671db64cf2c82081cea358d5d44536int,
        0x31b0039c51f28342122fdf0c015e4f4e655e9cb8b16ad4c220730d8b1c7890d2int,
    );
    lemma_square(
        0x67ee5d1f3b069511cd89744d5897256537cb1d8475a21d7924a57ba2b69a4d76int,
        1770,
        0x31b0039c51f28342122fdf0c015e4f4e655e9cb8b16ad4c220730d8b1c7890d2int,
        0x14d8bf9a69d95ccbabd8d273bf52627ff120a952a9f7e16f25528f0671d36945int,
    );
    lemma_square(
        0x67ee5d1f3b069511cd89744d5897256537cb1d8475a21d7924a57ba2b69a4d76int,
        3540,
        0x14d8bf9a69d95ccbabd8d273bf52627ff120a952a9f7e16f25528f0671d36945int,
        0x325820299a1853d17888c8ab57f9bd618abc5721dd71ae9aa03561b7bfbcb37fint,
    );
    lemma_square_and_multiply(
        0x67ee5d1f3b069511cd89744d5897256537cb1d8475a21d7924a57ba2b69a4d76int,
        7080,
        0x325820299a1853d17888c8ab57f9bd618abc5721dd71ae9aa03561b7bfbcb37fint,
        0x3118f572a1a729e1877e91b849d8dc7a9f208625fd69849b66663f30c08c185bint,
    );
    lemma_square_and_multiply(
        0x67ee5d1f3b069511cd89744d5897256537cb1d8475a21d7924a57ba2b69a4d76int,
        14161,
        0x3118f572a1a729e1877e91b849d8dc7a9f208625fd69849b66663f30c08c185bint,
        0x1b45f696e00ed50db3b2e5c0b97889d8bd37c8c481e3550723027421572ed40int,
    );
    lemma_square(
        0x67ee5d1f3b069511cd89744d5897256537cb1d8475a21d7924a57ba2b69a4d76int,
        28323,
        0x1b45f696e00ed50db3b2e5c0b97889d8bd37c8c481e3550723027421572ed40int,
        0x246c6685ae654b8d4219f8080dc4d5f8620f3a9f89068b36669ef71dbeac1533int,
    );
    lemma_square_and_multiply(
        0x67ee5d1f3b069511cd89744d5897256537cb1d8475a21d7924a57ba2b69a4d76int,
        56646,
        0x246c6685ae654b8d4219f8080dc4d5f8620f3a9f89068b36669ef71dbeac1533int,
        0x320397c20e685f724334ab63a63863e2069ee6846f51e3a137386cb6ae634c0dint,
    );
    lemma_square_and_multiply(
        0x67ee5d1f3b069511cd89744d5897256537cb1d8475a21d7924a57ba2b69a4d76int,
        113293,
        0x320397c20e685f724334ab63a63863e2069ee6846f51e3a137386cb6ae634c0dint,
        0x11c939c5e800a8b8c538b419b54a5b8cead565b6a435c410110fc532806d1b03int,
    );
    lemma_square(
        0x67ee5d1f3b069511cd89744d5897256537cb1d8475a21d7924a57ba2b69a4d76int,
        226587,
        0x11c939c5e800a8b8c538b419b54a5b8cead565b6a435c410110fc532806d1b03int,
        0x5870cca3bbec8f2ccbc55fc724ef8e4d7f34a358ee40ae6fd73debadb2c85dbbint,
    );
    lemma_square_and_multiply(
        0x67ee5d1f3b069511cd89744d5897256537cb1d8475a21d7924a57ba2b69a4d76int,
        453174,
        0x5870cca3bbec8f2ccbc55fc724ef8e4d7f34a358ee40ae6fd73debadb2c85dbbint,
        0x1int,
    );
    lemma_has_inverse(
        0x67ee5d1f3b069511cd89744d5897256537cb1d8475a21d7924a57ba2b69a4d75int,
        0x4073079c76e730aa62741bebe6d9531e37410dc18dff928c35a724b5ba8ff759int,
    );
    lemma_prime_906349();
    lemma_prime_order(root_906349(), 906349);
}

/// The element with the order 2508409.
spec fn root_2508409() -> int {
    0x86fb27a35f67dd3f695a1e882f5bdb7c92d2f844520e02c83a6bcd031849292int
}

proof fn lemma_prime_2508409()
    ensures
        is_prime(2508409),
{
    assert forall|s: u16, t: u32| 2 <= s < 0x1000 && s <= t < 0x100_0000 implies !#[trigger]
        are_factors(s, t, 2508409) by {
        assert(s * t != 2508409) by (bit_vector)
            requires
                2 <= s < 0x1000,
                s <= t < 0x100_0000,
        ;
    }
    lemma_prime_from_factors(2508409);
}

#[verifier::spinoff_prover]
proof fn lemma_order_2508409()
    ensures
        has_order(root_2508409(), 2508409),
{
    reveal(modulus);
    lemma_pow1(root_2508409());
    lemma_square(
        0x86fb27a35f67dd3f695a1e882f5bdb7c92d2f844520e02c83a6bcd031849292int,
        1,
        0x86fb27a35f67dd3f695a1e882f5bdb7c92d2f844520e02c83a6bcd031849292int,
        0x62108469ac656a9eb01e0401d9bc465c1b5c04f1ed457adc5340fb8d2d4ac00dint,
    );
    lemma_square(
        0x86fb27a35f67dd3f695a1e882f5bdb7c92d2f844520e02c83a6bcd031849292int,
        2,
        0x62108469ac656a9eb01e0401d9bc465c1b5c04f1ed457adc5340fb8d2d4ac00dint,
        0x5ad71e334ff4a3dcca01100f68bf2124ab97c6541ab1ad89e2d83558361aa76bint,
    );
    lemma_square_and_multiply(
        0x86fb27a35f67dd3f695a1e882f5bdb7c92d2f844520e02c83a6bcd031849292int,
        4,
        0x5ad71e334ff4a3dcca01100f68bf2124ab97c6541ab1ad89e2d83558361aa76bint,
        0x50f2a86075b5328c2be451bedaf7ed600a115173d10c5ede73988b46966e8951int,
    );
    lemma_square_and_multiply(
        0x86fb27a35f67dd3f695a1e882f5bdb7c92d2f844520e02c83a6bcd031849292int,
        9,
        0x50f2a86075b5328c2be451bedaf7ed600a115173d10c5ede73988b46966e8951int,
        0x72235603ac8ec6d5e39e4e7c9ad9a43f0ee25571acb4e00b12c514d33a204525int,
    );
    lemma_square(
        0x86fb27a35f67dd3f695a1e882f5bdb7c92d2f844520e02c83a6bcd031849292int,
        19,
        0x72235603ac8ec6d5e39e4e7c9ad9a43f0ee25571acb4e00b12c514d33a204525int,
        0xb16516103df2be2670211e7eed1a201c6fc7c724b1f7ec214001c467c6ceafint,
    );
    lemma_square(
        0x86fb27a35f67dd3f695a1e882f5bdb7c92d2f844520e02c83a6bcd031849292int,
        38,
        0xb16516103df2be2670211e7eed1a201c6fc7c724b1f7ec214001c467c6ceafint,
        0x24ffded88ef49b5ef5126cdd23c561d027414a30b0cd4e2c421a4afe2a3fdf76int,
    );
    lemma_square_and_multiply(
        0x86fb27a35f67dd3f695a1e882f5bdb7c92d2f844520e02c83a6bcd031849292int,
        76,
        0x24ffded88ef49b5ef5126cdd23c561d027414a30b0cd4e2c421a4afe2a3fdf76int,
        0x719cdab20dc63ff7fc7804928cdade71a52f65655cb967a150c1a01b15f0d3a7int,
    );
    lemma_square(
        0x86fb27a35f67dd3f695a1e882f5bdb7c92d2f844520e02c83a6bcd031849292int,
        153,
        0x719cdab20dc63ff7fc7804928cdade71a52f65655cb967a150c1a01b15f0d3a7int,
        0x2d7b1742102bdbeae64457bf93184cddeb42554031e7b8cfb528b3d3dae233b0int,
    );
    lemma_square(
        0x86fb27a35f67dd3f695a1e882f5bdb7c92d2f844520e02c83a6bcd031849292int,
        306,
        0x2d7b1742102bdbeae64457bf93184cddeb42554031e7b8cfb528b3d3dae233b0int,
        0x62742b9b77c8be3adeb16d48f5014f991fd9fd3b45ba9a4b3b37bee164c5ff06int,
    );
    lemma_square(
        0x86fb27a35f67dd3f695a1e882f5bdb7c92d2f844520e02c83a6bcd031849292int,
        612,
        0x62742b9b77c8be3adeb16d48f5014f991fd9fd3b45ba9a4b3b37bee164c5ff06int,
        0x5e247241eb7fc1c0172cf38ed372419b8e3632915408ac06556640de7680d82bint,
    );
    lemma_square_and_multiply(
        0x86fb27a35f67dd3f695a1e882f5bdb7c92d2f844520e02c83a6bcd031849292int,
        1224,
        0x5e247241eb7fc1c0172cf38ed372419b8e3632915408ac06556640de7680d82bint,
        0x155d41dd771319640df4689edccf8f33bf928205eac04bb2c3f81a94ab1e19b9int,
    );
    lemma_square_and_multiply(
        0x86fb27a35f67dd3f695a1e882f5bdb7c92d2f844520e02c83a6bcd031849292int,
        2449,
        0x155d41dd771319640df4689edccf8f33bf928205eac04bb2c3f81a94ab1e19b9int,
        0x657bc4e36668deaee62b6d18d89646a8d7df9b3ab447e16b159bdc69252b4bf6int,
    );
    lemma_square(
        0x86fb27a35f67dd3f695a1e882f5bdb7c92d2f844520e02c83a6bcd031849292int,
        4899,
        0x657bc4e36668deaee62b6d18d89646a8d7df9b3ab447e16b159bdc69252b4bf6int,
        0x23075217fc5d9d0221d4c2c6bfd6b44cea4403d0b41e45db6bb62215980ad324int,
    );
    lemma_square(
        0x86fb27a35f67dd3f695a1e882f5bdb7c92d2f844520e02c83a6bcd031849292int,
        9798,
        0x23075217fc5d9d0221d4c2c6bfd6b44cea4403d0b41e45db6bb62215980ad324int,
        0x2a3c3056b8a7c6b5f7c5592fb24c4a45a3bf4c27a725ab52de14fe93c19023d1int,
    );
    lemma_square_and_multiply(
        0x86fb27a35f67dd3f695a1e882f5bdb7c92d2f844520e02c83a6bcd031849292int,
        19596,
        0x2a3c3056b8a7c6b5f7c5592fb24c4a45a3bf4c27a725ab52de14fe93c19023d1int,
        0x61e067b602769e1850e020d801349587c574fc4a0eb7dc6cf4a96c5ec4f38e9int,
    );
    lemma_square_and_multiply(
        0x86fb27a35f67dd3f695a1e882f5bdb7c92d2f844520e02c83a6bcd031849292int,
        39193,
        0x61e067b602769e1850e020d801349587c574fc4a0eb7dc6cf4a96c5ec4f38e9int,
        0x4576c7b40cbe66044c55ec4d2474834215965d18c1f7ce5b212c13f74edd4865int,
    );
    lemma_square_and_multiply(
        0x86fb27a35f67dd3f695a1e882f5bdb7c92d2f844520e02c83a6bcd031849292int,
        78387,
        0x4576c7b40cbe66044c55ec4d2474834215965d18c1f7ce5b212c13f74edd4865int,
        0x6897f201692d149539b09e6cad4f7b97379762913406d6ec89feebf2b52560b2int,
    );
    lemma_square_and_multiply(
        0x86fb27a35f67dd3f695a1e882f5bdb7c92d2f844520e02c83a6bcd031849292int,
        156775,
        0x6897f201692d149539b09e6cad4f7b97379762913406d6ec89feebf2b52560b2int,
        0x11237bfd0c7fc0b133eff0031719ef0de2068785e02d8f7eff74aed453dcaf1eint,
    );
    lemma_square(
        0x86fb27a35f67dd3f695a1e882f5bdb7c92d2f844520e02c83a6bcd031849292int,
        313551,
        0x11237bfd0c7fc0b133eff0031719ef0de2068785e02d8f7eff74aed453dcaf1eint,
        0xa088f678ddb7d4f59d87a2c0922dd88bd88fde6a334f6461cef37257852522aint,
    );
    lemma_square(
        0x86fb27a35f67dd3f695a1e882f5bdb7c92d2f844520e02c83a6bcd031849292int,
        627102,
        0xa088f678ddb7d4f59d87a2c0922dd88bd88fde6a334f6461cef37257852522aint,
        0xd11d97b757da1498008ee84eb4e4606ffe3a3e8ef4b7462166ec3ff5a267e80int,
    );
    lemma_square_and_multiply(
        0x86fb27a35f67dd3f695a1e882f5bdb7c92d2f844520e02c83a6bcd031849292int,
        1254204,
        0xd11d97b757da1498008ee84eb4e4606ffe3a3e8ef4b7462166ec3ff5a267e80int,
        0x1int,
    );
    lemma_has_inverse(
        0x86fb27a35f67dd3f695a1e882f5bdb7c92d2f844520e02c83a6bcd031849291int,
        0x4bd4579a7ed0b159bae3f9d404951933dca75e9e6fc27fff9fb1a8073210f0abint,
    );
    lemma_prime_2508409();
    lemma_prime_order(root_2508409(), 2508409);
}

/// The element with the order 2529403.
spec fn root_2529403() -> int {
    0x6d8ceec08003f0a44f6c0b36a44ab7b7576b0589fa20719fc0b3e86b24aeeacfint
}

proof fn lemma_prime_2529403()
    ensures
        is_prime(2529403),
{
    assert forall|s: u16, t: u32| 2 <= s < 0x1000 && s <= t < 0x100_0000 implies !#[trigger]
        are_factors(s, t, 2529403) by {
        assert(s * t != 2529403) by (bit_vector)
            requires
                2 <= s < 0x1000,
                s <= t < 0x100_0000,
        ;
    }
    lemma_prime_from_factors(2529403);
}

#[verifier::spinoff_prover]
proof fn lemma_order_2529403()
    ensures
        has_order(root_2529403(), 2529403),
{
    reveal(modulus);
    lemma_pow1(root_2529403());
    lemma_square(
        0x6d8ceec08003f0a44f6c0b36a44ab7b7576b0589fa20719fc0b3e86b24aeeacfint,
        1,
        0x6d8ceec08003f0a44f6c0b36a44ab7b7576b0589fa20719fc0b3e86b24aeeacfint,
        0x6201845d04630626d5468473aea082ee814918dab9d689949f29d4df2b435fe9int,
    );
    lemma_square(
        0x6d8ceec08003f0a44f6c0b36a44ab7b7576b0589fa20719fc0b3e86b24aeeacfint,
        2,
        0x6201845d04630626d5468473aea082ee814918dab9d689949f29d4df2b435fe9int,
        0x15b18742d1959bdf085c14f9029cec61444a3004d579fe0b60cd42686d3fbb44int,
    );
    lemma_square_and_multiply(
        0x6d8ceec08003f0a44f6c0b36a44ab7b7576b0589fa20719fc0b3e86b24aeeacfint,
        4,
        0x15b18742d1959bdf085c14f9029cec61444a3004d579fe0b60cd42686d3fbb44int,
        0x4bce57661778f1646583e47b9185baac835df6e96a841a5904311d1e6a7664f7int,
    );
    lemma_square_and_multiply(
        0x6d8ceec08003f0a44f6c0b36a44ab7b7576b0589fa20719fc0b3e86b24aeeacfint,
        9,
        0x4bce57661778f1646583e47b9185baac835df6e96a841a5904311d1e6a7664f7int,
        0x2509e772617932f0fb4ba0dd73dcd2c8acbed00d33517adc61e5dd81bb1e780cint,
    );
    lemma_square(
        0x6d8ceec08003f0a44f6c0b36a44ab7b7576b0589fa20719fc0b3e86b24aeeacfint,
        19,
        0x2509e772617932f0fb4ba0dd73dcd2c8acbed00d33517adc61e5dd81bb1e780cint,
        0x47e8f5ab09ec106c3afe507e06a9d3e370bcb85c2ddd36289628eb30675dacefint,
    );
    lemma_square_and_multiply(
        0x6d8ceec08003f0a44f6c0b36a44ab7b7576b0589fa20719fc0b3e86b24aeeacfint,
        38,
        0x47e8f5ab09ec106c3afe507e06a9d3e370bcb85c2ddd36289628eb30675dacefint,
        0x2cd31d342c7a62d38948b62a92ddd49802655359290cd37d72b43ceb0a23d3d4int,
    );
    lemma_square(
        0x6d8ceec08003f0a44f6c0b36a44ab7b7576b0589fa20719fc0b3e86b24aeeacfint,
        77,
        0x2cd31d342c7a62d38948b62a92ddd49802655359290cd37d72b43ceb0a23d3d4int,
        0x36c23c4991dd8b1ccf6d372964b50c7f8b79b1061e0a0145e5cb4acf1d022dcdint,
    );
    lemma_square(
        0x6d8ceec08003f0a44f6c0b36a44ab7b7576b0589fa20719fc0b3e86b24aeeacfint,
        154,
        0x36c23c4991dd8b1ccf6d372964b50c7f8b79b1061e0a0145e5cb4acf1d022dcdint,
        0x322484c462d22ec9fdcd955549f7cee7c1214f0909f8c576b7b7afdb42e06264int,
    );
    lemma_square_and_multiply(
        0x6d8ceec08003f0a44f6c0b36a44ab7b7576b0589fa20719fc0b3e86b24aeeacfint,
        308,
        0x322484c462d22ec9fdcd955549f7cee7c1214f0909f8c576b7b7afdb42e06264int,
        0x6adb6b9aac8d03c365d83d57f0fceb8cbd4c8f042b9050349666a648a900a495int,
    );
    lemma_square_and_multiply(
        0x6d8ceec08003f0a44f6c0b36a44ab7b7576b0589fa20719fc0b3e86b24aeeacfint,
        617,
        0x6adb6b9aac8d03c365d83d57f0fceb8cbd4c8f042b9050349666a648a900a495int,
        0x42e99f3d329bc3e5b9b2796a5e9a29b3df750c269a1a3e4b0995306f9be3ea91int,
    );
    lemma_square(
        0x6d8ceec08003f0a44f6c0b36a44ab7b7576b0589fa20719fc0b3e86b24aeeacfint,
        1235,
        0x42e99f3d329bc3e5b9b2796a5e9a29b3df750c269a1a3e4b0995306f9be3ea91int,
        0x72b1f3bb556362aa5fbec0c34f54e95c9b13693be4e5ecfdee0df347e782e19cint,
    );
    lemma_square(
        0x6d8ceec08003f0a44f6c0b36a44ab7b7576b0589fa20719fc0b3e86b24aeeacfint,
        2470,
        0x72b1f3bb556362aa5fbec0c34f54e95c9b13693be4e5ecfdee0df347e782e19cint,
        0x3c89f3fed49d2f879274cb336cc078ab2c69ad9d1d026668c76c4b79b1ad31d5int,
    );
    lemma_square(
        0x6d8ceec08003f0a44f6c0b36a44ab7b7576b0589fa20719fc0b3e86b24aeeacfint,
        4940,
        0x3c89f3fed49d2f879274cb336cc078ab2c69ad9d1d026668c76c4b79b1ad31d5int,
        0x15bb99565d7c9e66bbc50c62974e15d5c99ba68edc850b70e4b4717ceedb9df3int,
    );
    lemma_square(
        0x6d8ceec08003f0a44f6c0b36a44ab7b7576b0589fa20719fc0b3e86b24aeeacfint,
        9880,
        0x15bb99565d7c9e66bbc50c62974e15d5c99ba68edc850b70e4b4717ceedb9df3int,
        0x6dfd4021679cbfc90f2190f4fa2de6a836dfede7c801c8c03165525d89a99295int,
    );
    lemma_square_and_multiply(
        0x6d8ceec08003f0a44f6c0b36a44ab7b7576b0589fa20719fc0b3e86b24aeeacfint,
        19760,
        0x6dfd4021679cbfc90f2190f4fa2de6a836dfede7c801c8c03165525d89a99295int,
        0x1f4b3800e4068ec1f706f32a15123415404264b488d3e118fd56e11bd05a82fbint,
    );
    lemma_square_and_multiply(
        0x6d8ceec08003f0a44f6c0b36a44ab7b7576b0589fa20719fc0b3e86b24aeeacfint,
        39521,
        0x1f4b3800e4068ec1f706f32a15123415404264b488d3e118fd56e11bd05a82fbint,
        0x533a39970047817aff1569afb8a045f0bc9f3319fef5d761adecfe38b68fa30int,
    );
    lemma_square_and_multiply(
        0x6d8ceec08003f0a44f6c0b36a44ab7b7576b0589fa20719fc0b3e86b24aeeacfint,
        79043,
        0x533a39970047817aff1569afb8a045f0bc9f3319fef5d761adecfe38b68fa30int,
        0x139a243681d5c5817f31a0a52aa75351989a1a0fab2f8428a8aa91821e35646dint,
    );
    lemma_square_and_multiply(
        0x6d8ceec08003f0a44f6c0b36a44ab7b7576b0589fa20719fc0b3e86b24aeeacfint,
        158087,
        0x139a243681d5c5817f31a0a52aa75351989a1a0fab2f8428a8aa91821e35646dint,
        0x256e968665995c1d5f1d4a19904554d46c189c9fe04cc6fdf76f587905acae80int,
    );
    lemma_square(
        0x6d8ceec08003f0a44f6c0b36a44ab7b7576b0589fa20719fc0b3e86b24aeeacfint,
        316175,
        0x256e968665995c1d5f1d4a19904554d46c189c9fe04cc6fdf76f587905acae80int,
        0x4a7f6d4fc24ac6224f3398945e0ff4c08d062d2523254a06e6ce723550c7995aint,
    );
    lemma_square_and_multiply(
        0x6d8ceec08003f0a44f6c0b36a44ab7b7576b0589fa20719fc0b3e86b24aeeacfint,
        632350,
        0x4a7f6d4fc24ac6224f3398945e0ff4c08d062d2523254a06e6ce723550c7995aint,
        0x15dc4456aca83b429f80106533e8f1dcc6993103fbbc11024c2121dcd7e1584eint,
    );
    lemma_square_and_multiply(
        0x6d8ceec08003f0a44f6c0b36a44ab7b7576b0589fa20719fc0b3e86b24aeeacfint,
        1264701,
        0x15dc4456aca83b429f80106533e8f1dcc6993103fbbc11024c2121dcd7e1584eint,
        0x1int,
    );
    lemma_has_inverse(
        0x6d8ceec08003f0a44f6c0b36a44ab7b7576b0589fa20719fc0b3e86b24aeeaceint,
        0x401967be695dbc760bbab572b6dce59eb282b2f48523b462239003b617744c90int,
    );
    lemma_prime_2529403();
    lemma_prime_order(root_2529403(), 2529403);
}

/// The order of the groups is a prime.
pub proof fn lemma_modulus_is_prime()
    ensures
        is_prime(modulus()),
{
    let n = max_domain_size();
    let w = unity_root(n);
    assert(is_power_of_two(n)) by {
        reveal_with_fuel(is_power_of_two, 33);
    }
    lemma_root_order(n);
    assert forall|m: int| 0 < m < n implies is_unit(#[trigger] pow(w, m as nat) - 1) by {
        lemma_small_mod(m as nat, n as nat);
        lemma_one_minus_root_is_unit(n, m as nat);
        let p = pow(w, m as nat);
        assert(inverse_of(-1, -1));
        lemma_unit_mul(-1, 1 - p);
        assert(-1 * (1 - p) == p - 1);
    }
    assert(has_order(w, n));
    lemma_order_125527();
    lemma_product_order(
        w,
        4294967296int,
        root_125527(),
        125527,
        3082199399int,
        35445,
    );
    let x1 = w * root_125527();
    lemma_order_859267();
    lemma_product_order(
        x1,
        539134359764992int,
        root_859267(),
        859267,
        296044631495211int,
        387434,
    );
    let x2 = x1 * root_859267();
    lemma_order_906349();
    lemma_product_order(
        x2,
        463260363912185380864int,
        root_906349(),
        906349,
        347116234275445232997int,
        227231,
    );
    let x3 = x2 * root_906349();
    lemma_order_2508409();
    lemma_product_order(
        x3,
        419875567571445307760705536int,
        root_2508409(),
        2508409,
        146892816404621518506116041int,
        1630846,
    );
    let x4 = x3 * root_2508409();
    lemma_order_2529403();
    lemma_product_order(
        x4,
        1053219652576321552994723612852224int,
        root_2529403(),
        2529403,
        752740531040786974422437420697267int,
        721628,
    );
    let x5 = x4 * root_2529403();
    assert forall|d: int| 1 < d < modulus() implies !#[trigger] divides(d, modulus()) by {
        if divides(d, modulus()) {
            let e = modulus() / d;
            lemma_fundamental_div_mod(modulus(), d);
            let m = modulus();
            lemma_modulus();
            assert(1 < e && m == e * d) by (nonlinear_arith)
                requires
                    m == d * e,
                    1 < d < m,
            ;
            lemma_mod_multiples_vanish(d, 0, e);
            lemma_small_mod(0, e as nat);
            lemma_divisor_is_large(x5, 2664016948885505465109512890519253942272int, d);
            lemma_divisor_is_large(x5, 2664016948885505465109512890519253942272int, e);
            lemma_larger_than_root(d, e);
        }
    }
    lemma_modulus();
}

/// Two factors that are as large as the order that was reached have a product above the group order.
proof fn lemma_larger_than_root(d: int, e: int)
    requires
        2664016948885505465109512890519253942272int <= d,
        2664016948885505465109512890519253942272int <= e,
    ensures
        d * e > modulus(),
{
    reveal(modulus);
    assert(d * e >= 2664016948885505465109512890519253942272int * 2664016948885505465109512890519253942272int) by (nonlinear_arith)
        requires
            2664016948885505465109512890519253942272int <= d,
            2664016948885505465109512890519253942272int <= e,
    ;
}

/// Every number that is not zero modulo the group order has an inverse.
pub proof fn lemma_nonzero_is_unit(a: int)
    requires
        !eqm(a, 0),
    ensures
        is_unit(a),
{
    lemma_modulus_is_prime();
    lemma_modulus();
    lemma_eqm_mod(a);
    lemma_small_mod(0, modulus() as nat);
    let m = a % modulus();
    let u = lemma_inverse_modulo_prime(modulus(), m);
    assert(u * m == m * u) by (nonlinear_arith);
    lemma_has_inverse(m, u);
    lemma_unit_eqm(m, a);
}

/// A product is zero modulo the group order only if one of its factors is.
pub proof fn lemma_no_zero_divisors(a: int, b: int)
    requires
        eqm(a * b, 0),
    ensures
        eqm(a, 0) || eqm(b, 0),
{
    if !eqm(a, 0) {
        lemma_nonzero_is_unit(a);
        assert(a * 0 == 0);
        lemma_unit_cancel(a, b, 0);
    }
}

} // verus!
