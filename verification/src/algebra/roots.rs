//! The two-adic roots of unity of the scalar field.
use super::congruence::{
    eqm, is_unit, lemma_eqm_add, lemma_eqm_mod, lemma_eqm_mul, lemma_eqm_multiple, lemma_eqm_pow,
    lemma_eqm_sub, lemma_modulus, lemma_two_is_unit, lemma_unit_eqm, lemma_unit_factor, modulus,
};
use super::sums::{
    lemma_product_eqm, lemma_product_mul, lemma_product_split, lemma_sum_eq, lemma_sum_eqm,
    lemma_sum_scale, product, sum,
};
use vstd::arithmetic::power::{lemma_pow0, lemma_pow1, lemma_pow_adds, lemma_pow_multiplies, pow};
use vstd::prelude::*;

verus! {

/// The largest size of a radix-two domain of the scalar field.
pub open spec fn max_domain_size() -> int {
    0x1_0000_0000
}

/// The generator of the subgroup of order `2^32`: the multiplicative generator seven raised to
/// `(modulus() - 1) / 2^32`.
pub open spec fn two_adic_root() -> int {
    0x16a2a19edfe81f20d09b681922c813b4b63683508c2280b93829971f439f0d2bint
}

/// The generator of the subgroup of order `n`, for `n` a power of two up to `2^32`: the
/// generator for `2^32`, squared once for each factor of two that `n` falls short.
pub open spec fn unity_root(n: int) -> int
    decreases
            (if n >= max_domain_size() {
                0
            } else {
                max_domain_size() - n
            }),
{
    if n <= 0 || n >= max_domain_size() {
        two_adic_root()
    } else {
        (unity_root(2 * n) * unity_root(2 * n)) % modulus()
    }
}

/// `n` is a power of two.
pub open spec fn is_power_of_two(n: int) -> bool
    decreases n,
{
    n == 1 || (n > 1 && n % 2 == 0 && is_power_of_two(n / 2))
}

/// `n` is the size of a radix-two domain.
pub open spec fn is_domain_size(n: int) -> bool {
    is_power_of_two(n) && n <= max_domain_size()
}

proof fn lemma_root_step(n: int, a: int, b: int)
    requires
        2 <= n <= max_domain_size(),
        n % 2 == 0,
        unity_root(n) == a,
        (a * a) % modulus() == b,
    ensures
        unity_root(n / 2) == b,
{
    assert(2 * (n / 2) == n);
}

/// The root of order two is minus one.
#[verifier::spinoff_prover]
pub proof fn lemma_root_two()
    ensures
        unity_root(2) == modulus() - 1,
{
    reveal(modulus);
    assert(unity_root(max_domain_size()) == two_adic_root());
    lemma_root_step(4294967296, 0x16a2a19edfe81f20d09b681922c813b4b63683508c2280b93829971f439f0d2bint, 0x4b5371495990693fad1715b02e5713b5f070bb00e28a193d63e7cb4906ffc93fint);
    lemma_root_step(2147483648, 0x4b5371495990693fad1715b02e5713b5f070bb00e28a193d63e7cb4906ffc93fint, 0x2c6d4e4511657e1e1339a815da8b398fed3a181fabb30adc694341f608c9dd56int);
    lemma_root_step(1073741824, 0x2c6d4e4511657e1e1339a815da8b398fed3a181fabb30adc694341f608c9dd56int, 0xc83ea7744bf1bee8da40c1ef2bb459884d37b826214abc6474650359d8e211bint);
    lemma_root_step(536870912, 0xc83ea7744bf1bee8da40c1ef2bb459884d37b826214abc6474650359d8e211bint, 0x52dd465e2f09425699e276b571905a7d6558e9e3f6ac7b41d7b688830a4f2089int);
    lemma_root_step(268435456, 0x52dd465e2f09425699e276b571905a7d6558e9e3f6ac7b41d7b688830a4f2089int, 0x23397a9300f8f98bece8ea224f31d25db94f1101b1d7a628e2d0a7869f0319edint);
    lemma_root_step(134217728, 0x23397a9300f8f98bece8ea224f31d25db94f1101b1d7a628e2d0a7869f0319edint, 0xa0a77a3b1980c0d116168bffbedc11d02c8118402867ddc531a11a0d2d75182int);
    lemma_root_step(67108864, 0xa0a77a3b1980c0d116168bffbedc11d02c8118402867ddc531a11a0d2d75182int, 0x19fe632fd3287390454dc1edc61a1a3c0ba12bb3da64ca5ce32ef844e11a51eint);
    lemma_root_step(33554432, 0x19fe632fd3287390454dc1edc61a1a3c0ba12bb3da64ca5ce32ef844e11a51eint, 0x291cf6d68823e6876e0bcd91ee76273072cf6a8029b7d7bc92cf4deb77bd779cint);
    lemma_root_step(16777216, 0x291cf6d68823e6876e0bcd91ee76273072cf6a8029b7d7bc92cf4deb77bd779cint, 0x73560252aa0655b25121af06a3b51e3cc631ffb2585a72db5616c57de0ec9eaeint);
    lemma_root_step(8388608, 0x73560252aa0655b25121af06a3b51e3cc631ffb2585a72db5616c57de0ec9eaeint, 0xabe6a5e5abcaa32f2d38f10fbb8d1bbe08fec7c86389beec6e7a6ffb08e3363int);
    lemma_root_step(4194304, 0xabe6a5e5abcaa32f2d38f10fbb8d1bbe08fec7c86389beec6e7a6ffb08e3363int, 0x47c8b5817018af4fc70d0874b0691d4e46b3105f04db5844cd3979122d3ea03aint);
    lemma_root_step(2097152, 0x47c8b5817018af4fc70d0874b0691d4e46b3105f04db5844cd3979122d3ea03aint, 0x3e1c54bcb947035a57a6e07cb98de4a2f69e02d265e09d9fece7e0e39898d4bint);
    lemma_root_step(1048576, 0x3e1c54bcb947035a57a6e07cb98de4a2f69e02d265e09d9fece7e0e39898d4bint, 0x520e587a724a6955df625e80d0adef90ad8e16e84419c750194e8c62ecb38d9dint);
    lemma_root_step(524288, 0x520e587a724a6955df625e80d0adef90ad8e16e84419c750194e8c62ecb38d9dint, 0x2d3056a530794f01652f717ae1c34bb0bb97a3bf30ce40fd6f421a7d8ef674fbint);
    lemma_root_step(262144, 0x2d3056a530794f01652f717ae1c34bb0bb97a3bf30ce40fd6f421a7d8ef674fbint, 0x224262332d8acbf4473a2eef772c33d6cd7f2bd6d0711b7d08692405f3b70f10int);
    lemma_root_step(131072, 0x224262332d8acbf4473a2eef772c33d6cd7f2bd6d0711b7d08692405f3b70f10int, 0x2155379d12180caa88f39a78f1aeb57867a665ae1fcadc91d7118f85cd96b8adint);
    lemma_root_step(65536, 0x2155379d12180caa88f39a78f1aeb57867a665ae1fcadc91d7118f85cd96b8adint, 0x3291357ee558b50d483405417a0cbe39c8d5f51db3f32699fbd047e11279bb6eint);
    lemma_root_step(32768, 0x3291357ee558b50d483405417a0cbe39c8d5f51db3f32699fbd047e11279bb6eint, 0x56624634b500a166dc86b01c0d477fa6ae4622f6a9152435034d2ff22a5ad9e1int);
    lemma_root_step(16384, 0x56624634b500a166dc86b01c0d477fa6ae4622f6a9152435034d2ff22a5ad9e1int, 0x485d512737b1da3d2ccddea2972e89ed146b58bc434906ac6fdd00bfc78c8967int);
    lemma_root_step(8192, 0x485d512737b1da3d2ccddea2972e89ed146b58bc434906ac6fdd00bfc78c8967int, 0x564c0a11a0f704f4fc3e8acfe0f8245f0ad1347b378fbf96e206da11a5d36306int);
    lemma_root_step(4096, 0x564c0a11a0f704f4fc3e8acfe0f8245f0ad1347b378fbf96e206da11a5d36306int, 0x6d031f1b5c49c83409f1ca610a08f16655ea6811be9c622d4a838b5d59cd79e5int);
    lemma_root_step(2048, 0x6d031f1b5c49c83409f1ca610a08f16655ea6811be9c622d4a838b5d59cd79e5int, 0x325db5c3debf77a18f4de02c0f776af3ea437f9626fc085e3c28d666a5c2d854int);
    lemma_root_step(1024, 0x325db5c3debf77a18f4de02c0f776af3ea437f9626fc085e3c28d666a5c2d854int, 0x95166525526a65439feec240d80689fd697168a3a6000fe4541b8ff2ee0434eint);
    lemma_root_step(512, 0x95166525526a65439feec240d80689fd697168a3a6000fe4541b8ff2ee0434eint, 0x4f9b4098e2e9f12e6b368121ac0cf4ad0a0865a899e8deff4935bd2f817f694bint);
    lemma_root_step(256, 0x4f9b4098e2e9f12e6b368121ac0cf4ad0a0865a899e8deff4935bd2f817f694bint, 0x6898111413588742b7c68b4d7fdd60d098d0caac87f5713c5130c2c1660125beint);
    lemma_root_step(128, 0x6898111413588742b7c68b4d7fdd60d098d0caac87f5713c5130c2c1660125beint, 0x45af6345ec055e4d14a1e27164d8fdbd2d967f4be2f951558140d032f0a9ee53int);
    lemma_root_step(64, 0x45af6345ec055e4d14a1e27164d8fdbd2d967f4be2f951558140d032f0a9ee53int, 0x50e0903a157988bab4bcd40e22f55448bf6e88fb4c38fb8a360c60997369df4eint);
    lemma_root_step(32, 0x50e0903a157988bab4bcd40e22f55448bf6e88fb4c38fb8a360c60997369df4eint, 0x20b1ce9140267af9dd1c0af834cec32c17beb312f20b6f7653ea61d87742bcceint);
    lemma_root_step(16, 0x20b1ce9140267af9dd1c0af834cec32c17beb312f20b6f7653ea61d87742bcceint, 0x345766f603fa66e78c0625cd70d77ce2b38b21c28713b7007228fd3397743f7aint);
    lemma_root_step(8, 0x345766f603fa66e78c0625cd70d77ce2b38b21c28713b7007228fd3397743f7aint, 0x8d51ccce760304d0ec030002760300000001000000000000int);
    lemma_root_step(4, 0x8d51ccce760304d0ec030002760300000001000000000000int, 0x73eda753299d7d483339d80809a1d80553bda402fffe5bfeffffffff00000000int);
}

/// The root of order one is one.
pub proof fn lemma_root_one()
    ensures
        unity_root(1) == 1,
{
    lemma_root_two();
    let m = modulus();
    lemma_modulus();
    assert((m - 1) * (m - 1) == 1 + (m - 2) * m) by (nonlinear_arith);
    lemma_eqm_multiple(1, m - 2);
    super::congruence::lemma_reduced(1);
}

/// Squaring the root of order `2n` gives the root of order `n`.
pub proof fn lemma_root_square(n: int)
    requires
        1 <= n < max_domain_size(),
    ensures
        eqm(unity_root(2 * n) * unity_root(2 * n), unity_root(n)),
{
    lemma_eqm_mod(unity_root(2 * n) * unity_root(2 * n));
}

/// A power of the root of order `2n`, squared, is the same power of the root of order `n`.
pub proof fn lemma_root_square_pow(n: int, e: nat)
    requires
        1 <= n < max_domain_size(),
    ensures
        eqm(pow(unity_root(2 * n), 2 * e), pow(unity_root(n), e)),
{
    let w = unity_root(2 * n);
    lemma_root_square(n);
    lemma_pow_multiplies(w, 2, e);
    assert(pow(w, 2) == w * w) by {
        reveal(pow);
        reveal_with_fuel(pow, 3);
    }
    lemma_eqm_pow(w * w, unity_root(n), e);
}

/// Half way round the subgroup of order `2n` stands minus one.
pub proof fn lemma_root_half(n: int)
    requires
        is_power_of_two(n),
        2 * n <= max_domain_size(),
    ensures
        eqm(pow(unity_root(2 * n), n as nat), -1),
    decreases n,
{
    let w = unity_root(2 * n);
    if n == 1 {
        lemma_root_two();
        lemma_pow1(w);
        lemma_eqm_multiple(-1, 1);
    } else {
        let h = n / 2;
        lemma_root_half(h);
        lemma_root_square_pow(n, h as nat);
        assert(2 * h == n);
        assert((2 * (h as nat)) as nat == n as nat);
    }
}

/// The root of order `n` raised to `n` is one.
pub proof fn lemma_root_order(n: int)
    requires
        is_domain_size(n),
    ensures
        eqm(pow(unity_root(n), n as nat), 1),
{
    let w = unity_root(n);
    if n == 1 {
        lemma_root_one();
        lemma_pow1(w);
    } else {
        let h = n / 2;
        assert(2 * h == n);
        lemma_root_half(h);
        lemma_pow_adds(w, h as nat, h as nat);
        lemma_eqm_mul(pow(w, h as nat), -1, pow(w, h as nat), -1);
        assert((h as nat + h as nat) as nat == n as nat);
    }
}

/// Exponents of the root of order `n` count modulo `n`.
pub proof fn lemma_root_periodic(n: int, e: nat, k: nat)
    requires
        is_domain_size(n),
    ensures
        eqm(pow(unity_root(n), e + k * (n as nat)), pow(unity_root(n), e)),
{
    let w = unity_root(n);
    lemma_root_order(n);
    lemma_pow_multiplies(w, n as nat, k);
    lemma_eqm_pow(pow(w, n as nat), 1, k);
    vstd::arithmetic::power::lemma1_pow(k);
    assert(k * (n as nat) == (n as nat) * k) by (nonlinear_arith);
    lemma_pow_adds(w, e, k * (n as nat));
    lemma_eqm_mul(pow(w, e), pow(w, e), pow(w, k * (n as nat)), 1);
}

/// An exponent that is an odd multiple of half the order gives minus one; every other exponent
/// that is not a multiple of the order becomes, squared, a power of the root of half the order
/// that is not one.
proof fn lemma_half_order_cases(n: int, m: nat)
    requires
        is_power_of_two(n),
        n > 1,
        m as int % n != 0,
        (m as int) % (n / 2) == 0,
        n <= max_domain_size(),
    ensures
        eqm(pow(unity_root(n), m), -1),
{
    let h = n / 2;
    let w = unity_root(n);
    assert(2 * h == n);
    assert(is_power_of_two(h));
    let q = m as int / h;
    vstd::arithmetic::div_mod::lemma_fundamental_div_mod(m as int, h);
    vstd::arithmetic::div_mod::lemma_div_pos_is_pos(m as int, h);
    assert(m as int == h * q);
    if q % 2 == 0 {
        let z = q / 2;
        assert(m as int == z * n) by (nonlinear_arith)
            requires
                m as int == h * q,
                q == 2 * z,
                n == 2 * h,
        ;
        vstd::arithmetic::div_mod::lemma_mod_multiples_basic(z, n);
        assert(false);
    }
    let z = q / 2;
    assert(m as int == h + z * n) by (nonlinear_arith)
        requires
            m as int == h * q,
            q == 2 * z + 1,
            n == 2 * h,
    ;
    lemma_root_periodic(n, h as nat, z as nat);
    assert((h as nat + (z as nat) * (n as nat)) as nat == m);
    lemma_root_half(h);
}

/// The powers of a root of unity other than one sum to zero over the whole subgroup.
pub proof fn lemma_geometric_sum_zero(n: int, m: nat)
    requires
        is_domain_size(n),
        m as int % n != 0,
    ensures
        eqm(sum(n, |k: int| pow(unity_root(n), m * (k as nat))), 0),
    decreases n,
{
    let w = unity_root(n);
    let f = |k: int| pow(w, m * (k as nat));
    if n == 1 {
        assert(m as int % 1 == 0);
    } else {
        let h = n / 2;
        assert(2 * h == n);
        assert(is_power_of_two(h));
        lemma_sum_pairs(h, f);
        // Each pair is (1 + w^m) w^(2mk).
        let c = 1 + pow(w, m);
        let g = |k: int| pow(w, m * ((2 * k) as nat));
        let pairs = |k: int| f(2 * k) + f(2 * k + 1);
        let scaled = |k: int| c * g(k);
        assert forall|k: int| 0 <= k < h implies #[trigger] pairs(k) == scaled(k) by {
            let a = (2 * k) as nat;
            lemma_pow_adds(w, m * a, m);
            assert(m * ((2 * k + 1) as nat) == m * a + m) by (nonlinear_arith)
                requires
                    a == 2 * k,
                    k >= 0,
            ;
            assert(pow(w, m * a) + pow(w, m * a) * pow(w, m) == c * pow(w, m * a))
                by (nonlinear_arith)
                requires
                    c == 1 + pow(w, m),
            ;
        }
        lemma_sum_eq(h, pairs, scaled);
        lemma_sum_scale(h, c, g);
        if (m as int) % h == 0 {
            lemma_half_order_cases(n, m);
            lemma_eqm_add(1, 1, pow(w, m), -1);
            lemma_eqm_mul(c, 0, sum(h, g), sum(h, g));
            assert(0 * sum(h, g) == 0);
        } else {
            lemma_geometric_sum_zero(h, m);
            let v = unity_root(h);
            let small = |k: int| pow(v, m * (k as nat));
            assert forall|k: int| 0 <= k < h implies eqm(#[trigger] g(k), small(k)) by {
                lemma_root_square_pow(h, m * (k as nat));
                assert(m * ((2 * k) as nat) == 2 * (m * (k as nat))) by (nonlinear_arith)
                    requires
                        k >= 0,
                ;
            }
            lemma_sum_eqm(h, g, small);
            lemma_eqm_mul(c, c, sum(h, g), 0);
            assert(c * 0 == 0);
        }
    }
}

/// A sum of `2h` terms, taken two at a time.
proof fn lemma_sum_pairs(h: int, f: spec_fn(int) -> int)
    requires
        0 <= h,
    ensures
        sum(2 * h, f) == sum(h, |k: int| f(2 * k) + f(2 * k + 1)),
    decreases h,
{
    if h > 0 {
        lemma_sum_pairs(h - 1, f);
        let pairs = |k: int| f(2 * k) + f(2 * k + 1);
        assert(pairs(h - 1) == f(2 * h - 2) + f(2 * h - 1));
        assert(sum(2 * h, f) == sum(2 * h - 1, f) + f(2 * h - 1));
        assert(sum(2 * h - 1, f) == sum(2 * h - 2, f) + f(2 * h - 2));
    }
}

/// One minus a power of the root of order `n` is a unit unless the power is one.
pub proof fn lemma_one_minus_root_is_unit(n: int, m: nat)
    requires
        is_domain_size(n),
        m as int % n != 0,
    ensures
        is_unit(1 - pow(unity_root(n), m)),
    decreases n,
{
    let w = unity_root(n);
    let x = pow(w, m);
    if n == 1 {
        assert(m as int % 1 == 0);
    } else {
        let h = n / 2;
        assert(2 * h == n);
        assert(is_power_of_two(h));
        if (m as int) % h == 0 {
            lemma_half_order_cases(n, m);
            lemma_two_is_unit();
            lemma_eqm_sub(1, 1, x, -1);
            lemma_unit_eqm(2, 1 - x);
        } else {
            lemma_one_minus_root_is_unit(h, m);
            lemma_root_square_pow(h, m);
            lemma_pow_adds(w, m, m);
            assert(m + m == 2 * m);
            lemma_eqm_sub(1, 1, pow(unity_root(h), m), x * x);
            lemma_unit_eqm(1 - pow(unity_root(h), m), 1 - x * x);
            assert(1 - x * x == (1 - x) * (1 + x)) by (nonlinear_arith);
            lemma_unit_factor(1 - x, 1 + x);
        }
    }
}

/// Two different elements of the subgroup of order `n` differ by a unit.
pub proof fn lemma_root_difference_is_unit(n: int, i: nat, j: nat)
    requires
        is_domain_size(n),
        i < n,
        j < n,
        i != j,
    ensures
        is_unit(pow(unity_root(n), i) - pow(unity_root(n), j)),
{
    let w = unity_root(n);
    // w^i - w^j is w^i (1 - w^(j - i)), and w^i divides w^n, which is one.
    let d: nat = if j > i {
        (j - i) as nat
    } else {
        (n + j - i) as nat
    };
    vstd::arithmetic::div_mod::lemma_small_mod(d, n as nat);
    lemma_one_minus_root_is_unit(n, d);
    lemma_root_is_unit(n, i);
    lemma_pow_adds(w, i, d);
    let (x, y) = (pow(w, i), pow(w, d));
    assert(eqm(pow(w, i + d), pow(w, j))) by {
        if j > i {
            assert(i + d == j);
        } else {
            lemma_root_periodic(n, j, 1);
            assert(i + d == j + 1 * (n as nat));
        }
    }
    super::congruence::lemma_unit_mul(x, 1 - y);
    assert(x * (1 - y) == x - x * y) by (nonlinear_arith);
    lemma_eqm_sub(x, x, x * y, pow(w, j));
    lemma_unit_eqm(x * (1 - y), x - pow(w, j));
}

/// Every power of a root of unity is a unit.
pub proof fn lemma_root_is_unit(n: int, i: nat)
    requires
        is_domain_size(n),
    ensures
        is_unit(pow(unity_root(n), i)),
{
    let w = unity_root(n);
    let k: nat = (i * (n as nat) - i) as nat;
    assert(i * (n as nat) >= i) by (nonlinear_arith)
        requires
            n >= 1,
    ;
    lemma_pow_adds(w, i, k);
    lemma_root_periodic(n, 0, i);
    lemma_pow0(w);
    assert(super::congruence::inverse_of(pow(w, i), pow(w, k)));
}

/// The differences between one and the other elements of the subgroup of order `n` multiply to
/// `n`.
pub proof fn lemma_product_one_minus_roots(n: int)
    requires
        is_domain_size(n),
    ensures
        eqm(product(n - 1, |i: int| 1 - pow(unity_root(n), (i + 1) as nat)), n),
    decreases n,
{
    let w = unity_root(n);
    let f = |i: int| 1 - pow(w, (i + 1) as nat);
    if n > 1 {
        let h = n / 2;
        assert(2 * h == n);
        assert(is_power_of_two(h));
        let v = unity_root(h);
        lemma_product_one_minus_roots(h);
        lemma_root_half(h);
        lemma_product_split(h - 1, h, f);
        let mid = |i: int| f(h - 1 + i);
        lemma_product_split(1, h - 1, mid);
        let high = |i: int| mid(1 + i);
        let both = |i: int| f(i) * high(i);
        lemma_product_mul(h - 1, f, high);
        let small = |i: int| 1 - pow(v, (i + 1) as nat);
        assert forall|i: int| 0 <= i < h - 1 implies eqm(#[trigger] both(i), small(i)) by {
            let e = (i + 1) as nat;
            let x = pow(w, e);
            lemma_pow_adds(w, h as nat, e);
            assert((h + i + 1) as nat == h as nat + e);
            lemma_eqm_mul(pow(w, h as nat), -1, x, x);
            lemma_eqm_sub(1, 1, pow(w, h as nat) * x, -1 * x);
            lemma_eqm_mul(1 - x, 1 - x, high(i), 1 + x);
            assert((1 - x) * (1 + x) == 1 - x * x) by (nonlinear_arith);
            lemma_root_square_pow(h, e);
            lemma_pow_adds(w, e, e);
            assert(e + e == 2 * e);
            lemma_eqm_sub(1, 1, x * x, pow(v, e));
        }
        lemma_product_eqm(h - 1, both, small);
        assert(product(1, mid) == mid(0)) by {
            assert(product(0, mid) == 1);
        }
        lemma_eqm_sub(1, 1, pow(w, h as nat), -1);
        let (p, q, m0) = (product(h - 1, f), product(h - 1, high), mid(0));
        assert(product(n - 1, f) == p * (m0 * q));
        assert(p * (m0 * q) == m0 * (p * q)) by (nonlinear_arith);
        lemma_eqm_mul(m0, 2, p * q, h);
    } else {
        assert(product(0, f) == 1);
    }
}

} // verus!
