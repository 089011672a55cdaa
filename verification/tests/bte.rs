use ark_std::rand::rngs::StdRng;
use ark_std::rand::SeedableRng;
use silent_batched_threshold_encryption::bte::crs::CRS;
use silent_batched_threshold_encryption::bte::{
    batch_eval, fft_batch_eval, naive_batch_eval, PPRF, PRF,
};
use silent_batched_threshold_encryption::field::Scalar;
use silent_batched_threshold_encryption::group::{G1, Gt};

fn test_rng() -> StdRng {
    StdRng::seed_from_u64(1)
}

fn gt(exponent: u64) -> Gt {
    Gt::generator().mul(&Scalar::from_u64(exponent))
}

#[test]
fn test_puncture() {
    let mut rng = test_rng();
    let batch_size = 10;
    let crs = CRS::new(batch_size, &mut rng);
    let prf = PRF::new(&mut rng);

    let point = 3;
    let pprf = prf.puncture(point, &crs);

    let input = 5;
    let output = prf.eval(input, &crs);
    let punctured_output = pprf.eval(input, &crs);

    assert_eq!(output, punctured_output);
}

#[test]
fn test_homomorphism() {
    let mut rng = test_rng();
    let batch_size = 10;
    let crs = CRS::new(batch_size, &mut rng);

    let prf1 = PRF::new(&mut rng);
    let prf2 = PRF::new(&mut rng);

    let input = 7;
    let output = prf1.eval(input, &crs).add(&prf2.eval(input, &crs));

    let agg_key = prf1.key.add(&prf2.key);
    let agg_prf = PRF::from_key(agg_key);

    let agg_output = agg_prf.eval(input, &crs);
    assert_eq!(output, agg_output);

    let point1 = 3;
    let point2 = 5;
    let pprf1 = prf1.puncture(point1, &crs);
    let pprf2 = prf2.puncture(point2, &crs);

    let output = batch_eval(&vec![pprf1, pprf2], input, &crs);

    assert_eq!(output, agg_output);
}

#[test]
fn test_fft_batch_eval_correctness() {
    let mut rng = test_rng();
    let batch_size = 8;
    let crs = CRS::new(batch_size, &mut rng);

    let prfs: Vec<PRF> = (0..batch_size).map(|_| PRF::new(&mut rng)).collect();
    let pprfs: Vec<PPRF> = prfs
        .iter()
        .enumerate()
        .map(|(i, p)| p.puncture(i, &crs))
        .collect();

    let k_agg_scalar = prfs
        .iter()
        .map(|p| p.key)
        .fold(Scalar::zero(), |acc, k| acc.add(&k));
    let k_agg = PRF::from_key(k_agg_scalar);

    let expected: Vec<_> = (0..batch_size)
        .map(|i| k_agg.eval(i, &crs).sub(&batch_eval(&pprfs, i, &crs)))
        .collect();

    let got = fft_batch_eval(&k_agg, &pprfs, &crs);

    assert_eq!(got.len(), batch_size);
    for i in 0..batch_size {
        assert_eq!(got[i], expected[i], "mismatch at position {i}");
    }
}

#[test]
fn reference_string_holds_the_powers_of_its_secret() {
    let crs = CRS::from_secret(3, &Scalar::from_u64(2));
    assert_eq!(crs.batch_size, 3);
    assert_eq!(crs.fft_size, 8);
    assert_eq!(crs.powers_of_g.len(), 7);
    assert_eq!(crs.powers_of_h.len(), 7);
    assert_eq!(crs.fft_h.len(), 8);
    for (i, power) in [1u64, 2, 4, 8, 0, 32, 64].iter().enumerate() {
        assert_eq!(crs.powers_of_g[i], G1::generator().mul(&Scalar::from_u64(*power)));
    }
    assert_eq!(crs.gt_nplus1, gt(16));
    assert_eq!(crs.gt_powers, vec![gt(16), gt(32), gt(64)]);
}

#[test]
fn smallest_batch() {
    let crs = CRS::from_secret(1, &Scalar::from_u64(5));
    assert_eq!(crs.fft_size, 2);
    assert_eq!(crs.gt_powers, vec![gt(25)]);
    let prf = PRF::from_key(Scalar::from_u64(3));
    let pprfs = vec![prf.puncture(0, &crs)];
    assert_eq!(fft_batch_eval(&prf, &pprfs, &crs), vec![gt(75)]);
}

#[test]
fn values_are_exact() {
    let crs = CRS::from_secret(3, &Scalar::from_u64(2));
    let prf = PRF::from_key(Scalar::from_u64(7));
    assert_eq!(prf.eval(1, &crs), gt(7 * 32));
    let pprf = prf.puncture(2, &crs);
    assert_eq!(pprf.point, 2);
    assert_eq!(pprf.key, G1::generator().mul(&Scalar::from_u64(28)));
    assert_eq!(pprf.eval(1, &crs), gt(7 * 32));
    assert_eq!(pprf.eval(0, &crs), gt(7 * 16));
}

#[test]
fn naive_and_batched_evaluation_agree() {
    let mut rng = test_rng();
    let crs = CRS::new(6, &mut rng);
    let pprfs: Vec<PPRF> = (0..6).map(|i| PRF::new(&mut rng).puncture(5 - i, &crs)).collect();
    for input in 0..6 {
        assert_eq!(naive_batch_eval(&pprfs, input, &crs), batch_eval(&pprfs, input, &crs));
    }
    assert_eq!(naive_batch_eval(&[], 0, &crs), Gt::zero());
    assert_eq!(batch_eval(&[], 0, &crs), Gt::zero());
}

#[test]
fn batch_gives_away_the_punctured_values() {
    let mut rng = test_rng();
    let crs = CRS::new(5, &mut rng);
    let points = [3usize, 0, 4];
    let prfs: Vec<PRF> = points.iter().map(|_| PRF::new(&mut rng)).collect();
    let pprfs: Vec<PPRF> = points
        .iter()
        .zip(prfs.iter())
        .map(|(point, prf)| prf.puncture(*point, &crs))
        .collect();
    let total = prfs.iter().fold(Scalar::zero(), |acc, p| acc.add(&p.key));
    let k_agg = PRF::from_key(total);
    for (m, point) in points.iter().enumerate() {
        let mask = k_agg.eval(*point, &crs).sub(&batch_eval(&pprfs, *point, &crs));
        assert_eq!(mask, prfs[m].eval(*point, &crs));
    }
    let elsewhere = batch_eval(&pprfs, 1, &crs);
    assert_eq!(elsewhere, k_agg.eval(1, &crs));
}
