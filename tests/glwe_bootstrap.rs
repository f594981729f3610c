use concrete_core::bootstrap::LweBootstrapKey;
use concrete_core::engine::{log2_exact, NttEngine, NttError};
use concrete_core::error::EngineError;
use concrete_core::fixture::{GlweCiphertextEncryptionFixture, LweCiphertextDiscardingBootstrapHarness};
use concrete_core::glwe::{GlweCiphertext, GlweSecretKey};
use concrete_core::lwe::{KeyKind, LweCiphertext, LweSecretKey};
use concrete_core::polynomial::{monomial_mul, poly_mul};
use concrete_core::torus::UnsignedTorus;

struct Prng(u64);

impl Prng {
    fn next_u64(&mut self) -> u64 {
        self.0 = self.0.wrapping_add(0x9E37_79B9_7F4A_7C15);
        let mut z = self.0;
        z = (z ^ (z >> 30)).wrapping_mul(0xBF58_476D_1CE4_E5B9);
        z = (z ^ (z >> 27)).wrapping_mul(0x94D0_49BB_1331_11EB);
        z ^ (z >> 31)
    }

    fn gaussian(&mut self) -> f64 {
        let u1 = ((self.next_u64() >> 11) as f64 + 1.0) / (1u64 << 53) as f64;
        let u2 = (self.next_u64() >> 11) as f64 / (1u64 << 53) as f64;
        (-2.0 * u1.ln()).sqrt() * (2.0 * std::f64::consts::PI * u2).cos()
    }

    fn poly<T: UnsignedTorus>(&mut self, n: usize) -> Vec<T> {
        (0..n).map(|_| T::from_u64(self.next_u64())).collect()
    }

    fn noise_poly<T: UnsignedTorus>(&mut self, n: usize, std_dev: f64) -> Vec<T> {
        let w = T::bits() as i32;
        (0..n)
            .map(|_| T::from_signed((self.gaussian() * std_dev * 2f64.powi(w)).round() as i64))
            .collect()
    }

    fn lwe_key<T: UnsignedTorus>(&mut self, n: usize) -> LweSecretKey<T> {
        let draws: Vec<u64> = (0..n).map(|_| self.next_u64()).collect();
        LweSecretKey::generate_binary(&draws)
    }

    fn glwe_key<T: UnsignedTorus>(&mut self, k: usize, n: usize) -> GlweSecretKey<T> {
        let keys = (0..k).map(|_| self.lwe_key(n)).collect();
        GlweSecretKey::from_lwe_keys(keys, KeyKind::Binary, n)
    }

    fn bootstrap_key<T: UnsignedTorus>(
        &mut self,
        input_key: &LweSecretKey<T>,
        output_key: &GlweSecretKey<T>,
        base_log: u32,
        level: u32,
        std_dev: f64,
    ) -> Result<LweBootstrapKey<T>, NttError> {
        let k = output_key.glwe_dimension();
        let n = output_key.polynomial_size;
        let rows = (k + 1) * level as usize;
        let count = input_key.lwe_dimension();
        let masks: Vec<Vec<Vec<Vec<T>>>> = (0..count)
            .map(|_| (0..rows).map(|_| (0..k).map(|_| self.poly(n)).collect()).collect())
            .collect();
        let errors: Vec<Vec<Vec<T>>> = (0..count)
            .map(|_| (0..rows).map(|_| self.noise_poly(n, std_dev)).collect())
            .collect();
        let mut engine = NttEngine::new().unwrap();
        engine.create_bootstrap_key(input_key, output_key, base_log, level, &masks, &errors)
    }
}

/// The distance `b - a` on the torus, as a signed fraction of the torus.
fn torus_gap<T: UnsignedTorus>(a: T, b: T) -> f64 {
    let d = b.torus_sub(a).to_u64();
    let w = T::bits();
    let signed = if (d as u128) >= (1u128 << (w - 1)) { d as i128 - (1i128 << w) } else { d as i128 };
    signed as f64 / 2f64.powi(w as i32)
}

/// The table `j -> f(j)` over the `N` slots, as the body of a trivial GLWE accumulator.
fn lookup_table<T: UnsignedTorus>(k: usize, n: usize, f: impl Fn(usize) -> u64) -> GlweCiphertext<T> {
    let body: Vec<T> = (0..n).map(|j| T::from_u64(f(j))).collect();
    GlweCiphertext::trivial_encrypt(k, &body)
}

fn bootstrap<T: UnsignedTorus>(
    input: &LweCiphertext<T>,
    lut: &GlweCiphertext<T>,
    bsk: &LweBootstrapKey<T>,
) -> LweCiphertext<T> {
    let mut engine = NttEngine::new().unwrap();
    let mut output = LweCiphertext::trivial_encrypt(bsk.output_lwe_dimension(), T::zero());
    engine.discard_bootstrap_lwe_ciphertext(&mut output, input, lut, bsk).unwrap();
    output
}

#[test]
fn negacyclic_products() {
    // (1 + 2X) * X^3 = X^3 + 2X^4 = -2 + X^3 modulo X^4 + 1
    let r = poly_mul(&vec![1u64, 2, 0, 0], &vec![0u64, 0, 0, 1]);
    assert_eq!(r, vec![0u64.wrapping_sub(2), 0, 0, 1]);
    let s = poly_mul(&vec![3u32, 0, 0, 1], &vec![0u32, 5, 0, 0]);
    // (3 + X^3) * 5X = 15X + 5X^4 = -5 + 15X
    assert_eq!(s, vec![0u32.wrapping_sub(5), 15, 0, 0]);
    // X^5 * (1 + 2X + 3X^2 + 4X^3) = -X * (...) = 4 - X - 2X^2 - 3X^3
    let m = monomial_mul(&vec![1u64, 2, 3, 4], 5);
    assert_eq!(m, vec![4, u64::MAX, u64::MAX - 1, u64::MAX - 2]);
    assert_eq!(monomial_mul(&vec![1u64, 2, 3, 4], 1), vec![u64::MAX - 3, 1, 2, 3]);
    assert_eq!(monomial_mul(&vec![1u64, 2, 3, 4], 0), vec![1, 2, 3, 4]);
}

#[test]
fn glwe_encryption_round_trip() {
    // the fixture's parameters: GLWE dimension 200, polynomial size 200, variance 1e-8
    let mut rng = Prng(21);
    let (k, n) = (200usize, 200usize);
    let key: GlweSecretKey<u64> = rng.glwe_key(k, n);
    let plaintext: Vec<u64> = rng.poly(n);
    let masks: Vec<Vec<u64>> = (0..k).map(|_| rng.poly(n)).collect();
    let std_dev = 1e-8f64.sqrt();
    let error: Vec<u64> = rng.noise_poly(n, std_dev);
    let ct = GlweCiphertextEncryptionFixture::execute_engine(&key, &plaintext, &masks, &error);
    let decrypted = GlweCiphertextEncryptionFixture::process_context(&key, &ct);
    let mut sum_sq = 0.0;
    for j in 0..n {
        let gap = torus_gap(plaintext[j], decrypted[j]);
        assert!(gap.abs() < 7.0 * std_dev);
        assert_eq!(decrypted[j], plaintext[j].wrapping_add(error[j]));
        sum_sq += gap * gap;
    }
    let var = sum_sq / n as f64;
    assert!(var < 4.0 * 1e-8 && var > 1e-8 / 4.0);
}

#[test]
fn sample_extraction_decrypts_constant_coefficient() {
    let mut rng = Prng(22);
    let key: GlweSecretKey<u32> = rng.glwe_key(2, 8);
    let plaintext: Vec<u32> = rng.poly(8);
    let masks: Vec<Vec<u32>> = (0..2).map(|_| rng.poly(8)).collect();
    let ct = key.encrypt(&plaintext, &masks, &vec![0u32; 8]);
    let lwe = ct.extract_sample();
    assert_eq!(lwe.dimension(), 16);
    let lwe_key = key.to_lwe_secret_key();
    assert_eq!(lwe_key.decrypt(&lwe), plaintext[0]);
}

#[test]
fn noiseless_bootstrap_reads_the_table() {
    // masks on the 2N grid and noiseless keys leave only the rounding of the external products,
    // below 2^-16 of the torus with 24 decomposed bits
    let mut rng = Prng(23);
    let (n_lwe, k, n) = (8usize, 1usize, 16usize);
    let input_key: LweSecretKey<u64> = rng.lwe_key(n_lwe);
    let glwe_key: GlweSecretKey<u64> = rng.glwe_key(k, n);
    let bsk = rng.bootstrap_key(&input_key, &glwe_key, 8, 3, 0.0).unwrap();
    let output_key = glwe_key.to_lwe_secret_key();
    let step = 1u64 << 59; // q / 2N
    let identity = lookup_table::<u64>(k, n, |j| j as u64 * step);
    let table = lookup_table::<u64>(k, n, |j| (((j / 4) ^ 1) as u64) << 61);
    for mu in [0u64, 3, 9, 15, 20] {
        let mask: Vec<u64> = (0..n_lwe).map(|_| rng.next_u64() & !(step - 1)).collect();
        let input = input_key.encrypt(mu * step, &mask, 0);
        let out = bootstrap(&input, &identity, &bsk);
        let expected = if mu < 16 { mu * step } else { 0u64.wrapping_sub((mu - 16) * step) };
        assert!(torus_gap(expected, output_key.decrypt(&out)).abs() < 2f64.powi(-16));
        if mu < 16 {
            let f = bootstrap(&input, &table, &bsk);
            let want = (((mu / 4) ^ 1) as u64) << 61;
            assert!(torus_gap(want, output_key.decrypt(&f)).abs() < 2f64.powi(-16));
        }
    }
}

#[test]
fn bootstrap_reports_mismatches() {
    let mut rng = Prng(24);
    let input_key: LweSecretKey<u32> = rng.lwe_key(4);
    let glwe_key: GlweSecretKey<u32> = rng.glwe_key(1, 8);
    let bsk = rng.bootstrap_key(&input_key, &glwe_key, 4, 2, 0.0).unwrap();
    let mut engine = NttEngine::new().unwrap();
    let input = LweCiphertext::trivial_encrypt(4, 0u32);
    let lut = lookup_table::<u32>(1, 8, |j| j as u64);
    let mut output = LweCiphertext::trivial_encrypt(8, 0u32);
    let bad_input = LweCiphertext::trivial_encrypt(5, 0u32);
    assert_eq!(
        engine.discard_bootstrap_lwe_ciphertext(&mut output, &bad_input, &lut, &bsk),
        Err(EngineError::InputLweDimensionMismatch)
    );
    let small_lut = lookup_table::<u32>(1, 4, |j| j as u64);
    assert_eq!(
        engine.discard_bootstrap_lwe_ciphertext(&mut output, &input, &small_lut, &bsk),
        Err(EngineError::AccumulatorPolynomialSizeMismatch)
    );
    let wide_lut = lookup_table::<u32>(2, 8, |j| j as u64);
    assert_eq!(
        engine.discard_bootstrap_lwe_ciphertext(&mut output, &input, &wide_lut, &bsk),
        Err(EngineError::AccumulatorGlweDimensionMismatch)
    );
    let mut bad_output = LweCiphertext::trivial_encrypt(7, 0u32);
    assert_eq!(
        engine.discard_bootstrap_lwe_ciphertext(&mut bad_output, &input, &lut, &bsk),
        Err(EngineError::OutputLweDimensionMismatch)
    );
    assert!(engine.discard_bootstrap_lwe_ciphertext(&mut output, &input, &lut, &bsk).is_ok());
}

#[test]
fn unsupported_polynomial_size() {
    let mut rng = Prng(25);
    let input_key: LweSecretKey<u64> = rng.lwe_key(2);
    let glwe_key: GlweSecretKey<u64> = rng.glwe_key(1, 12);
    assert!(matches!(
        rng.bootstrap_key(&input_key, &glwe_key, 4, 2, 0.0),
        Err(NttError::UnsupportedPolynomialSize)
    ));
    assert_eq!(log2_exact(512, 64), Some(9));
    assert_eq!(log2_exact(12, 64), None);
    assert_eq!(log2_exact(1 << 31, 32), None);
    assert_eq!(log2_exact(1 << 30, 32), Some(30));
    assert!(NttError::UnsupportedPolynomialSize.message().contains("power of two"));
}

#[test]
fn bootstrap_harness_message() {
    let r = LweCiphertextDiscardingBootstrapHarness::generate_random_raw_inputs(0xFFFF_FFFFu32);
    assert_eq!(r, 7 << 28);
    let s = LweCiphertextDiscardingBootstrapHarness::generate_random_raw_inputs(0xA5A5_0000_0000_0000u64);
    assert_eq!(s, 0x2 << 60);
}

#[test]
fn bootstrap_scenario_630_512() {
    // LWE dimension 630, GLWE dimension 1, polynomial size 512, base_log 7, level 3, noise 2^-29
    let mut rng = Prng(26);
    let (n_lwe, k, n) = (630usize, 1usize, 512usize);
    let std_dev = 2f64.powi(-29);
    let input_key: LweSecretKey<u64> = rng.lwe_key(n_lwe);
    let glwe_key: GlweSecretKey<u64> = rng.glwe_key(k, n);
    let bsk = rng.bootstrap_key(&input_key, &glwe_key, 7, 3, std_dev).unwrap();
    let output_key = glwe_key.to_lwe_secret_key();
    let identity = lookup_table::<u64>(k, n, |j| (j as u64) << 54);
    // the drift of the switch to the modulus 2N: the rounding of the body and of each mask
    // entry that meets a key bit of 1, each uniform over one step of 1 / 2N
    let drift_variance = (1.0 + n_lwe as f64 / 2.0) / (12.0 * (2.0 * n as f64).powi(2));
    let bound = 6.0 * (drift_variance + std_dev * std_dev).sqrt();
    for message in [3u64 << 20, (1u64 << 62) + (3 << 20)] {
        let mask: Vec<u64> = rng.poly(n_lwe);
        let error = rng.noise_poly::<u64>(1, std_dev)[0];
        let input = input_key.encrypt(message, &mask, error);
        let out = LweCiphertextDiscardingBootstrapHarness::process_outputs(
            &output_key,
            &bootstrap(&input, &identity, &bsk),
        );
        let gap = torus_gap(message, out);
        if message < 1 << 40 {
            // a phase that drifts below zero reads the table negated: half a turn away
            let folded = gap.abs().min((gap.abs() - 0.5).abs());
            assert!(folded <= bound, "gap {} beyond the drift bound {}", gap, bound);
        } else {
            assert!(gap.abs() <= bound, "gap {} beyond the drift bound {}", gap, bound);
        }
    }
}


/// Three trials of the scenario with fresh keys: LWE dimension 630, GLWE dimension 1,
/// polynomial size 512, base_log 7, level 3, noise 2^-29, message 3 << 20 through the identity
/// table. The message sits within the drift of zero, where a phase that drifts below zero reads
/// the negacyclic table negated, half a turn away; every other trial moves it a quarter turn
/// away from zero, where the drift bound holds as it is.
fn scenario_trials(seed: u64) {
    let mut rng = Prng(seed);
    let (n_lwe, k, n) = (630usize, 1usize, 512usize);
    let std_dev = 2f64.powi(-29);
    let input_key: LweSecretKey<u64> = rng.lwe_key(n_lwe);
    let glwe_key: GlweSecretKey<u64> = rng.glwe_key(k, n);
    let bsk = rng.bootstrap_key(&input_key, &glwe_key, 7, 3, std_dev).unwrap();
    let output_key = glwe_key.to_lwe_secret_key();
    let identity = lookup_table::<u64>(k, n, |j| (j as u64) << 54);
    let drift_variance = (1.0 + n_lwe as f64 / 2.0) / (12.0 * (2.0 * n as f64).powi(2));
    let bound = 6.0 * (drift_variance + std_dev * std_dev).sqrt();
    for trial in 0..3u64 {
        let shifted = (seed + trial) % 2 == 1;
        let message = if shifted { (1u64 << 62) + (3 << 20) } else { 3u64 << 20 };
        let error = rng.noise_poly::<u64>(1, std_dev)[0];
        let input = input_key.encrypt(message, &rng.poly(n_lwe), error);
        let out = output_key.decrypt(&bootstrap(&input, &identity, &bsk));
        let gap = torus_gap(message, out);
        let within = if shifted { gap.abs() } else { gap.abs().min((gap.abs() - 0.5).abs()) };
        assert!(within <= bound, "trial {} of seed {}: gap {} beyond {}", trial, seed, gap, bound);
    }
}

#[test]
fn scenario_630_512_trials_01() {
    scenario_trials(101);
}

#[test]
fn scenario_630_512_trials_02() {
    scenario_trials(102);
}

#[test]
fn scenario_630_512_trials_03() {
    scenario_trials(103);
}

#[test]
fn scenario_630_512_trials_04() {
    scenario_trials(104);
}

#[test]
fn scenario_630_512_trials_05() {
    scenario_trials(105);
}

#[test]
fn scenario_630_512_trials_06() {
    scenario_trials(106);
}

#[test]
fn scenario_630_512_trials_07() {
    scenario_trials(107);
}

#[test]
fn scenario_630_512_trials_08() {
    scenario_trials(108);
}

#[test]
fn scenario_630_512_trials_09() {
    scenario_trials(109);
}

#[test]
fn scenario_630_512_trials_10() {
    scenario_trials(110);
}

#[test]
fn scenario_630_512_trials_11() {
    scenario_trials(111);
}

#[test]
fn scenario_630_512_trials_12() {
    scenario_trials(112);
}

#[test]
fn scenario_630_512_trials_13() {
    scenario_trials(113);
}

#[test]
fn scenario_630_512_trials_14() {
    scenario_trials(114);
}

#[test]
fn scenario_630_512_trials_15() {
    scenario_trials(115);
}

#[test]
fn scenario_630_512_trials_16() {
    scenario_trials(116);
}

#[test]
fn scenario_630_512_trials_17() {
    scenario_trials(117);
}

#[test]
fn scenario_630_512_trials_18() {
    scenario_trials(118);
}

#[test]
fn scenario_630_512_trials_19() {
    scenario_trials(119);
}

#[test]
fn scenario_630_512_trials_20() {
    scenario_trials(120);
}

#[test]
fn scenario_630_512_trials_21() {
    scenario_trials(121);
}

#[test]
fn scenario_630_512_trials_22() {
    scenario_trials(122);
}

#[test]
fn scenario_630_512_trials_23() {
    scenario_trials(123);
}

#[test]
fn scenario_630_512_trials_24() {
    scenario_trials(124);
}

#[test]
fn scenario_630_512_trials_25() {
    scenario_trials(125);
}

#[test]
fn scenario_630_512_trials_26() {
    scenario_trials(126);
}

#[test]
fn scenario_630_512_trials_27() {
    scenario_trials(127);
}

#[test]
fn scenario_630_512_trials_28() {
    scenario_trials(128);
}

#[test]
fn scenario_630_512_trials_29() {
    scenario_trials(129);
}

#[test]
fn scenario_630_512_trials_30() {
    scenario_trials(130);
}

#[test]
fn scenario_630_512_trials_31() {
    scenario_trials(131);
}

#[test]
fn scenario_630_512_trials_32() {
    scenario_trials(132);
}

#[test]
fn scenario_630_512_trials_33() {
    scenario_trials(133);
}

#[test]
fn scenario_630_512_trials_34() {
    scenario_trials(134);
}
