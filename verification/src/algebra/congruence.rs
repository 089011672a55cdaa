//! Arithmetic modulo the order of the pairing groups.
use vstd::arithmetic::div_mod::{
    lemma_add_mod_noop, lemma_mod_bound, lemma_mod_multiples_basic, lemma_mod_twice,
    lemma_mul_mod_noop_general, lemma_small_mod, lemma_sub_mod_noop,
};
use vstd::arithmetic::power::pow;
use vstd::prelude::*;

verus! {

/// The prime order of the BLS12-381 groups, which is the modulus of their scalar field.
#[verifier::opaque]
pub open spec fn modulus() -> int {
    0x73eda753299d7d483339d80809a1d80553bda402fffe5bfeffffffff00000001int
}

/// The modulus is odd and needs 255 bits.
pub proof fn lemma_modulus()
    ensures
        modulus() > 0x4000000000000000000000000000000000000000000000000000000000000000int,
        modulus() < 0x8000000000000000000000000000000000000000000000000000000000000000int,
        modulus() % 2 == 1,
{
    reveal(modulus);
}

/// `a` and `b` are the same residue.
pub open spec fn eqm(a: int, b: int) -> bool {
    a % modulus() == b % modulus()
}

pub proof fn lemma_mod_range(a: int)
    ensures
        0 <= a % modulus() < modulus(),
{
    lemma_modulus();
    lemma_mod_bound(a, modulus());
}

/// Reducing a value does not change its residue.
pub proof fn lemma_eqm_mod(a: int)
    ensures
        eqm(a % modulus(), a),
        0 <= a % modulus() < modulus(),
{
    lemma_modulus();
    lemma_mod_twice(a, modulus());
    lemma_mod_bound(a, modulus());
}

/// A reduced value is its own residue.
pub proof fn lemma_reduced(a: int)
    requires
        0 <= a < modulus(),
    ensures
        a % modulus() == a,
{
    lemma_small_mod(a as nat, modulus() as nat);
}

/// Equal residues that are both reduced are equal.
pub proof fn lemma_eqm_reduced(a: int, b: int)
    requires
        eqm(a, b),
        0 <= a < modulus(),
        0 <= b < modulus(),
    ensures
        a == b,
{
    lemma_reduced(a);
    lemma_reduced(b);
}

pub proof fn lemma_eqm_add(a: int, b: int, c: int, d: int)
    requires
        eqm(a, b),
        eqm(c, d),
    ensures
        eqm(a + c, b + d),
{
    lemma_modulus();
    lemma_add_mod_noop(a, c, modulus());
    lemma_add_mod_noop(b, d, modulus());
}

pub proof fn lemma_eqm_sub(a: int, b: int, c: int, d: int)
    requires
        eqm(a, b),
        eqm(c, d),
    ensures
        eqm(a - c, b - d),
{
    lemma_modulus();
    lemma_sub_mod_noop(a, c, modulus());
    lemma_sub_mod_noop(b, d, modulus());
}

pub proof fn lemma_eqm_mul(a: int, b: int, c: int, d: int)
    requires
        eqm(a, b),
        eqm(c, d),
    ensures
        eqm(a * c, b * d),
{
    lemma_modulus();
    lemma_mul_mod_noop_general(a, c, modulus());
    lemma_mul_mod_noop_general(b, d, modulus());
}

/// A multiple of the modulus is congruent to zero.
pub proof fn lemma_eqm_multiple(a: int, k: int)
    ensures
        eqm(a + k * modulus(), a),
{
    lemma_modulus();
    lemma_mod_multiples_basic(k, modulus());
    lemma_add_mod_noop(a, k * modulus(), modulus());
    lemma_mod_twice(a, modulus());
}

/// Congruent values differ by something congruent to zero.
pub proof fn lemma_eqm_difference(a: int, b: int)
    ensures
        eqm(a, b) <==> eqm(a - b, 0),
{
    if eqm(a, b) {
        lemma_eqm_sub(a, b, b, b);
    }
    if eqm(a - b, 0) {
        lemma_eqm_add(a - b, 0, b, b);
    }
}

pub proof fn lemma_eqm_pow(a: int, b: int, e: nat)
    requires
        eqm(a, b),
    ensures
        eqm(pow(a, e), pow(b, e)),
    decreases e,
{
    reveal(pow);
    if e > 0 {
        lemma_eqm_pow(a, b, (e - 1) as nat);
        lemma_eqm_mul(a, b, pow(a, (e - 1) as nat), pow(b, (e - 1) as nat));
    }
}

/// `a` has an inverse modulo the group order.
pub open spec fn is_unit(a: int) -> bool {
    exists|b: int| #[trigger] inverse_of(a, b)
}

pub open spec fn inverse_of(a: int, b: int) -> bool {
    eqm(a * b, 1)
}

pub proof fn lemma_unit_eqm(a: int, b: int)
    requires
        eqm(a, b),
        is_unit(a),
    ensures
        is_unit(b),
{
    let c = choose|c: int| inverse_of(a, c);
    lemma_eqm_mul(a, b, c, c);
    assert(inverse_of(b, c));
}

/// A unit can be cancelled on both sides of a congruence.
pub proof fn lemma_unit_cancel(a: int, x: int, y: int)
    requires
        is_unit(a),
        eqm(a * x, a * y),
    ensures
        eqm(x, y),
{
    let b = choose|b: int| inverse_of(a, b);
    lemma_eqm_mul(b, b, a * x, a * y);
    lemma_eqm_mul(a * b, 1, x, x);
    lemma_eqm_mul(a * b, 1, y, y);
    assert(b * (a * x) == (a * b) * x) by (nonlinear_arith);
    assert(b * (a * y) == (a * b) * y) by (nonlinear_arith);
}

pub proof fn lemma_unit_mul(a: int, b: int)
    requires
        is_unit(a),
        is_unit(b),
    ensures
        is_unit(a * b),
{
    let c = choose|c: int| inverse_of(a, c);
    let d = choose|d: int| inverse_of(b, d);
    lemma_eqm_mul(a * c, 1, b * d, 1);
    assert((a * c) * (b * d) == (a * b) * (c * d)) by (nonlinear_arith);
    assert(inverse_of(a * b, c * d));
}

/// The factors of a unit are units.
pub proof fn lemma_unit_factor(a: int, b: int)
    requires
        is_unit(a * b),
    ensures
        is_unit(a),
        is_unit(b),
{
    let p = a * b;
    let c = choose|c: int| inverse_of(p, c);
    assert((a * b) * c == a * (b * c)) by (nonlinear_arith);
    assert((a * b) * c == b * (a * c)) by (nonlinear_arith);
    assert(inverse_of(a, b * c));
    assert(inverse_of(b, a * c));
}

/// A unit is not congruent to zero.
pub proof fn lemma_unit_nonzero(a: int)
    requires
        is_unit(a),
    ensures
        a % modulus() != 0,
{
    if a % modulus() == 0 {
        lemma_modulus();
        lemma_reduced(0);
        lemma_reduced(1);
        let b = choose|b: int| inverse_of(a, b);
        lemma_eqm_mul(a, 0, b, b);
        assert(0 * b == 0);
    }
}

pub proof fn lemma_two_is_unit()
    ensures
        is_unit(2),
{
    lemma_modulus();
    let h = (modulus() + 1) / 2;
    assert(2 * h == 1 + 1 * modulus());
    lemma_eqm_multiple(1, 1);
    assert(inverse_of(2, h));
}

} // verus!
