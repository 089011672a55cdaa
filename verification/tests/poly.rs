use silent_batched_threshold_encryption::cca::polynomials::{
    interpolate_polynomial, is_in_range_domain, pedersen_polynomial, range_g_polynomial,
    range_omega, range_q_polynomial,
};
use silent_batched_threshold_encryption::field::Scalar;
use silent_batched_threshold_encryption::poly::Poly;
use silent_batched_threshold_encryption::ste::utils::lagrange_poly;

fn s(x: u64) -> Scalar {
    Scalar::from_u64(x)
}

fn p(coeffs: &[u64]) -> Poly {
    Poly::from_coefficients_vec(coeffs.iter().map(|c| s(*c)).collect())
}

#[test]
fn leading_zeros_are_dropped() {
    assert_eq!(p(&[1, 2, 0, 0]).coeffs(), &vec![s(1), s(2)]);
    assert_eq!(p(&[0, 0]).coeffs(), &Vec::new());
    assert_eq!(p(&[0]), Poly::zero());
}

#[test]
fn ring_operations() {
    assert_eq!(p(&[1, 2]).add(&p(&[3, 4, 5])), p(&[4, 6, 5]));
    assert_eq!(p(&[3, 4, 5]).sub(&p(&[1, 2, 5])), p(&[2, 2]));
    assert_eq!(p(&[1, 2]).mul(&p(&[3, 4])), p(&[3, 10, 8]));
    assert_eq!(p(&[1, 2]).mul(&Poly::zero()), Poly::zero());
    assert_eq!(p(&[1, 2]).scale(&s(3)), p(&[3, 6]));
    assert_eq!(p(&[1, 2]).scale(&Scalar::zero()), Poly::zero());
    assert_eq!(p(&[1, 2, 3]).shift(&s(10)), p(&[1, 20, 300]));
    assert_eq!(p(&[1, 2, 3]).clone(), p(&[1, 2, 3]));
}

#[test]
fn division_drops_the_remainder() {
    // 4 X^2 + X + 2 = (4 X + 13) (X - 3) + 41
    assert_eq!(p(&[2, 1, 4]).div(&Poly::linear(&s(3))), p(&[13, 4]));
    assert_eq!(p(&[2]).div(&Poly::linear(&s(3))), Poly::zero());
    assert_eq!(p(&[6, 4]).div(&p(&[2])), p(&[3, 2]));
    // X^5 + 7 X^2 + 1 = (X^3 + X + 7) (X^2 - 1) + X + 8
    assert_eq!(p(&[1, 0, 7, 0, 0, 1]).divide_by_vanishing_poly(2), p(&[7, 1, 0, 1]));
    assert_eq!(p(&[1, 0, 7, 0, 0, 1]).div(&Poly::vanishing(2)), p(&[7, 1, 0, 1]));
    assert_eq!(p(&[1, 2]).divide_by_vanishing_poly(4), Poly::zero());
}

#[test]
fn evaluation() {
    assert_eq!(p(&[2, 1, 4]).evaluate(&s(5)), s(107));
    assert_eq!(p(&[2, 1, 4]).evaluate(&Scalar::zero()), s(2));
    assert_eq!(Poly::zero().evaluate(&s(5)), Scalar::zero());
    assert_eq!(Poly::linear(&s(9)).evaluate(&s(11)), s(2));
    assert_eq!(Poly::vanishing(3).evaluate(&s(2)), s(7));
}

#[test]
fn basis_polynomials_tell_the_domain_apart() {
    let n = 16;
    let w = range_omega();
    for i in 0..n {
        let l = lagrange_poly(n, i);
        assert_eq!(l.coeffs().len(), n);
        for j in 0..n {
            let expected = if i == j { Scalar::one() } else { Scalar::zero() };
            assert_eq!(l.evaluate(&w.pow(j as u64)), expected);
        }
    }
}

#[test]
fn the_domain_of_the_range_proof() {
    let w = range_omega();
    assert_eq!(w.pow(16), Scalar::one());
    assert_eq!(w.pow(8), Scalar::one().neg());
    assert!(is_in_range_domain(&w));
    assert!(is_in_range_domain(&Scalar::one()));
    assert!(!is_in_range_domain(&s(3)));
    assert!(!is_in_range_domain(&s(5)));
    assert!(!is_in_range_domain(&Scalar::zero()));
}

#[test]
fn interpolation_passes_through_its_points() {
    let points = vec![(s(1), s(6)), (s(2), s(11)), (s(4), s(27))];
    // X^2 + 2 X + 3
    assert_eq!(interpolate_polynomial(&points), p(&[3, 2, 1]));
    assert_eq!(interpolate_polynomial(&vec![(s(7), s(9))]), p(&[9]));
    assert_eq!(interpolate_polynomial(&Vec::new()), Poly::zero());
}

#[test]
fn commitment_polynomials_take_the_value_at_one() {
    let f = pedersen_polynomial(&s(40), &s(7));
    assert_eq!(f, p(&[33, 7]));
    assert_eq!(f.evaluate(&Scalar::one()), s(40));
    assert_eq!(pedersen_polynomial(&s(40), &Scalar::zero()), p(&[40]));
}

#[test]
fn bit_polynomials_hold_the_prefixes() {
    let w = range_omega();
    for chunk in [0u64, 1, 0xb2c5, 0xffff] {
        let g = range_g_polynomial(&s(chunk), &s(11), &s(22));
        assert!(g.coeffs().len() <= 18);
        for i in 0..16 {
            assert_eq!(g.evaluate(&w.pow(i)), s(chunk >> i));
        }
        assert_eq!(g.evaluate(&s(3)), s(11));
        assert_eq!(g.evaluate(&s(5)), s(22));
    }
}

#[test]
fn constraints_divide_exactly_for_chunks_in_range() {
    let w = range_omega();
    let last = w.pow(15);
    let tau = s(77);
    let chunk = s(0xb2c5);
    let f = pedersen_polynomial(&chunk, &s(1234));
    let g = range_g_polynomial(&chunk, &s(11), &s(22));
    let q = range_q_polynomial(&f, &g, &tau);
    let x = s(1_000_003);
    let one = Scalar::one();
    let vanishing = x.pow(16).sub(&one);
    let gx = g.evaluate(&x);
    let next = g.evaluate(&x.mul(&w));
    let first = vanishing.mul(&x.sub(&one).inverse().unwrap());
    let second = vanishing.mul(&x.sub(&last).inverse().unwrap());
    let step = gx.sub(&next.add(&next));
    let total = gx
        .sub(&f.evaluate(&x))
        .mul(&first)
        .add(&tau.mul(&gx.mul(&one.sub(&gx)).mul(&second)))
        .add(&tau.mul(&tau).mul(&step.mul(&one.sub(&step)).mul(&x.sub(&last))));
    assert_eq!(q.evaluate(&x).mul(&vanishing), total);
}

#[test]
fn bits_of_another_value_do_not_agree_with_the_commitment() {
    // The polynomial of the bits of another value does not agree with the commitment at one.
    let f = pedersen_polynomial(&s(0x1_0000), &s(1234));
    let g = range_g_polynomial(&s(0xffff), &s(11), &s(22));
    assert_ne!(g.evaluate(&Scalar::one()), f.evaluate(&Scalar::one()));
    // The values on the domain are bits when they are taken apart.
    let w = range_omega();
    for i in 0..15 {
        let step = g.evaluate(&w.pow(i)).sub(&g.evaluate(&w.pow(i + 1)).mul(&s(2)));
        assert_eq!(step, Scalar::one());
    }
    assert_eq!(g.evaluate(&w.pow(15)), Scalar::one());
}
