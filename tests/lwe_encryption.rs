use concrete_core::decomposition::decompose;
use concrete_core::encoding::{decode_plaintext, encode_message, MessageBitCount};
use concrete_core::error::EngineError;
use concrete_core::fixture::{
    LweCiphertextDiscardingKeyswitchFixture, LweCiphertextVectorDecryptionFixture,
    LweCiphertextVectorDiscardingAffineTransformationFixture,
};
use concrete_core::keyswitch::LweKeyswitchKey;
use concrete_core::lwe::{discard_affine_transform, KeyKind, LweCiphertext, LweSecretKey};
use concrete_core::torus::UnsignedTorus;

struct Rng(u64);

impl Rng {
    fn next_u64(&mut self) -> u64 {
        self.0 = self.0.wrapping_add(0x9E37_79B9_7F4A_7C15);
        let mut z = self.0;
        z = (z ^ (z >> 30)).wrapping_mul(0xBF58_476D_1CE4_E5B9);
        z = (z ^ (z >> 27)).wrapping_mul(0x94D0_49BB_1331_11EB);
        z ^ (z >> 31)
    }

    fn below(&mut self, n: u64) -> u64 {
        self.next_u64() % n
    }

    fn gaussian(&mut self) -> f64 {
        let u1 = ((self.next_u64() >> 11) as f64 + 1.0) / (1u64 << 53) as f64;
        let u2 = (self.next_u64() >> 11) as f64 / (1u64 << 53) as f64;
        (-2.0 * u1.ln()).sqrt() * (2.0 * std::f64::consts::PI * u2).cos()
    }

    fn uniform<T: UnsignedTorus>(&mut self) -> T {
        T::from_u64(self.next_u64())
    }

    fn uniform_vec<T: UnsignedTorus>(&mut self, n: usize) -> Vec<T> {
        (0..n).map(|_| self.uniform()).collect()
    }

    /// A torus error drawn from a centered Gaussian of standard deviation `std_dev` (as a
    /// fraction of the torus).
    fn noise<T: UnsignedTorus>(&mut self, std_dev: f64) -> T {
        let w = T::bits() as i32;
        let x = (self.gaussian() * std_dev * 2f64.powi(w)).round() as i64;
        T::from_signed(x)
    }

    fn binary_key<T: UnsignedTorus>(&mut self, n: usize) -> LweSecretKey<T> {
        let draws: Vec<u64> = (0..n).map(|_| self.next_u64()).collect();
        LweSecretKey::generate_binary(&draws)
    }
}

/// The distance `b - a` on the torus, as a signed fraction of the torus.
fn torus_delta<T: UnsignedTorus>(a: T, b: T) -> f64 {
    let d = b.torus_sub(a).to_u64();
    let w = T::bits();
    let half = 1u128 << (w - 1);
    let signed = if (d as u128) >= half { d as i128 - (1i128 << w) } else { d as i128 };
    signed as f64 / 2f64.powi(w as i32)
}

/// Checks that `achieved - expected` looks like a centered Gaussian of the given variance.
fn assert_noise_distribution<T: UnsignedTorus>(expected: &[T], achieved: &[T], variance: f64) {
    assert_eq!(expected.len(), achieved.len());
    let deltas: Vec<f64> = expected.iter().zip(achieved).map(|(e, a)| torus_delta(*e, *a)).collect();
    let sd = variance.sqrt();
    let n = deltas.len() as f64;
    for d in &deltas {
        assert!(d.abs() <= 7.0 * sd, "error {} beyond seven standard deviations {}", d, sd);
    }
    if deltas.len() >= 7 {
        let mean = deltas.iter().sum::<f64>() / n;
        let var = deltas.iter().map(|d| (d - mean) * (d - mean)).sum::<f64>() / (n - 1.0);
        assert!(mean.abs() <= 6.0 * sd / n.sqrt(), "mean {} too far from zero", mean);
        assert!(var <= 4.0 * variance && var >= variance / 4.0, "variance {} against {}", var, variance);
    }
}

fn test_seeded_ciphertext<T: UnsignedTorus>(seed: u64) {
    let mut rng = Rng(seed);
    let nb_ct = 1 + rng.below(100) as usize;
    let dimension = 1 + rng.below(1000) as usize;
    let std_dev = 2f64.powi(-15);
    let sk: LweSecretKey<T> = rng.binary_key(dimension);
    let messages: Vec<T> = rng.uniform_vec(nb_ct);
    let mut decryptions: Vec<T> = Vec::new();
    let mut seeds = Rng(seed ^ 0x5EED);
    for message in &messages {
        let ct_seed = seeds.next_u64();
        let mask: Vec<T> = Rng(ct_seed).uniform_vec(dimension);
        let error: T = rng.noise(std_dev);
        let ciphertext = sk.encrypt(*message, &mask, error);
        // the mask expands again from its seed
        let expanded_mask: Vec<T> = Rng(ct_seed).uniform_vec(dimension);
        let mut expanded = expanded_mask.clone();
        expanded.push(ciphertext.data[dimension]);
        let same = expanded.iter().zip(&ciphertext.data).all(|(a, b)| a.to_u64() == b.to_u64());
        assert!(same && expanded.len() == ciphertext.data.len());
        decryptions.push(sk.decrypt(&LweCiphertext { data: expanded }));
    }
    assert_noise_distribution(&messages, &decryptions, std_dev * std_dev);
}

#[test]
fn test_seeded_ciphertext_u32() {
    test_seeded_ciphertext::<u32>(1)
}

#[test]
fn test_seeded_ciphertext_u64() {
    test_seeded_ciphertext::<u64>(2)
}

fn test_seeded_list_1<T: UnsignedTorus>(seed: u64) {
    let mut rng = Rng(seed);
    let nb_ct = 1 + rng.below(100) as usize;
    let dimension = 1 + rng.below(1000) as usize;
    let std_dev = 2f64.powi(-15);
    let sk: LweSecretKey<T> = rng.binary_key(dimension);
    let messages: Vec<T> = rng.uniform_vec(nb_ct);
    let list_seed = rng.next_u64();
    let mut masks_rng = Rng(list_seed);
    let ciphertexts: Vec<LweCiphertext<T>> = messages
        .iter()
        .map(|m| {
            let mask: Vec<T> = masks_rng.uniform_vec(dimension);
            sk.encrypt(*m, &mask, rng.noise(std_dev))
        })
        .collect();
    let mut expand_rng = Rng(list_seed);
    let mut decryptions = Vec::new();
    for ct in &ciphertexts {
        let mut expanded: Vec<T> = expand_rng.uniform_vec(dimension);
        expanded.push(ct.data[dimension]);
        assert_eq!(ct.dimension(), dimension);
        decryptions.push(sk.decrypt(&LweCiphertext { data: expanded }));
    }
    assert_noise_distribution(&messages, &decryptions, std_dev * std_dev);
}

#[test]
fn test_seeded_list_1_u32() {
    test_seeded_list_1::<u32>(3)
}

#[test]
fn test_seeded_list_1_u64() {
    test_seeded_list_1::<u64>(4)
}

fn test_seeded_list_2<T: UnsignedTorus>(seed: u64) {
    let mut rng = Rng(seed);
    let nb_ct = 1 + rng.below(100) as usize;
    let dimension = 1 + rng.below(1000) as usize;
    let std_dev = 2f64.powi(-15);
    let sk: LweSecretKey<T> = rng.binary_key(dimension);
    let messages: Vec<T> = rng.uniform_vec(nb_ct);
    let list_seed = rng.next_u64();
    let mut masks_rng = Rng(list_seed);
    let masks: Vec<Vec<T>> = (0..nb_ct).map(|_| masks_rng.uniform_vec(dimension)).collect();
    let errors: Vec<T> = (0..nb_ct).map(|_| rng.noise(std_dev)).collect();
    let ciphertexts =
        LweCiphertextVectorDecryptionFixture::prepare_context(&sk, &messages, &masks, &errors);
    let decryptions = LweCiphertextVectorDecryptionFixture::execute_engine(&sk, &ciphertexts);
    assert_noise_distribution(&messages, &decryptions, std_dev * std_dev);
}

#[test]
fn test_seeded_list_2_u32() {
    test_seeded_list_2::<u32>(5)
}

#[test]
fn test_seeded_list_2_u64() {
    test_seeded_list_2::<u64>(6)
}

fn test_binary_lwe_ciphertext_encryption<T: UnsignedTorus>(seed: u64) {
    let mut rng = Rng(seed);
    let std_dev = 2f64.powi(-20);
    for dimension in [100usize, 300, 600] {
        let sk: LweSecretKey<T> = rng.binary_key(dimension);
        let message: T = encode_message(rng.next_u64(), &MessageBitCount(8));
        let mut achieved = Vec::new();
        for _ in 0..100 {
            let mask: Vec<T> = rng.uniform_vec(dimension);
            let ct = sk.encrypt(message, &mask, rng.noise(std_dev));
            achieved.push(sk.decrypt(&ct));
        }
        let expected = vec![message; achieved.len()];
        assert_noise_distribution(&expected, &achieved, std_dev * std_dev);
    }
}

#[test]
fn test_binary_lwe_ciphertext_encryption_u32() {
    test_binary_lwe_ciphertext_encryption::<u32>(7)
}

#[test]
fn test_binary_lwe_ciphertext_encryption_u64() {
    test_binary_lwe_ciphertext_encryption::<u64>(8)
}

/// The variance after key switching: the input's, the rounding of the mask to `base_log * level`
/// bits against a binary key, and the key-switching key's errors scaled by the digits.
fn predicted_keyswitch_variance(
    input_dimension: usize,
    input_variance: f64,
    ksk_variance: f64,
    base_log: u32,
    level: u32,
) -> f64 {
    let n = input_dimension as f64;
    let b = 2f64.powi(base_log as i32);
    let rounding = 1.0 / (12.0 * b.powi(2 * level as i32));
    input_variance + n * rounding * 0.5 + n * level as f64 * ksk_variance * (b * b + 2.0) / 12.0
}

fn keyswitch_key<T: UnsignedTorus>(
    rng: &mut Rng,
    input_key: &LweSecretKey<T>,
    output_key: &LweSecretKey<T>,
    base_log: u32,
    level: u32,
    std_dev: f64,
) -> LweKeyswitchKey<T> {
    let count = input_key.lwe_dimension() * level as usize;
    let masks: Vec<Vec<T>> = (0..count).map(|_| rng.uniform_vec(output_key.lwe_dimension())).collect();
    let errors: Vec<T> = (0..count).map(|_| rng.noise(std_dev)).collect();
    LweKeyswitchKey::new(input_key, output_key, base_log, level, &masks, &errors)
}

fn test_binary_binary<T: UnsignedTorus>(seed: u64) {
    let mut rng = Rng(seed);
    let (n_bit_message, level, base_log) = (8usize, 8u32, 3u32);
    let input_std = 2f64.powi(-10);
    let ksk_std = 2f64.powi(-25);
    let (input_dimension, output_dimension) = (1024usize, 600usize);
    let sample_size = 20;
    let expected: Vec<T> = (0..sample_size)
        .map(|_| encode_message(rng.next_u64(), &MessageBitCount(n_bit_message)))
        .collect();
    let mut achieved = Vec::new();
    for i in 0..sample_size {
        let input_key: LweSecretKey<T> = rng.binary_key(input_dimension);
        let output_key: LweSecretKey<T> = rng.binary_key(output_dimension);
        let ksk = keyswitch_key(&mut rng, &input_key, &output_key, base_log, level, ksk_std);
        let mask: Vec<T> = rng.uniform_vec(input_dimension);
        let input = input_key.encrypt(expected[i], &mask, rng.noise(input_std));
        let zero_mask: Vec<T> = rng.uniform_vec(output_dimension);
        let mut output = output_key.encrypt(T::zero(), &zero_mask, rng.noise(input_std));
        LweCiphertextDiscardingKeyswitchFixture::execute_engine(&ksk, &input, &mut output).unwrap();
        achieved.push(LweCiphertextDiscardingKeyswitchFixture::process_context(&output_key, &output));
    }
    let variance = predicted_keyswitch_variance(
        input_dimension,
        input_std * input_std,
        ksk_std * ksk_std,
        base_log,
        level,
    );
    assert_noise_distribution(&expected, &achieved, variance);
}

#[test]
fn test_binary_binary_lwe_ciphertext_discarding_keyswitch_u32() {
    test_binary_binary::<u32>(9)
}

#[test]
fn test_binary_binary_lwe_ciphertext_discarding_keyswitch_u64() {
    test_binary_binary::<u64>(10)
}

#[test]
fn decrypt_of_encrypt_gives_plaintext_plus_error() {
    let sk = LweSecretKey::<u64>::generate_binary(&vec![1, 0, 3, 5]);
    let ct = sk.encrypt(1000, &vec![7, 11, 13, 17], 5);
    // <mask, key> = 7 + 13 + 17
    assert_eq!(ct.data, vec![7, 11, 13, 17, 37 + 1000 + 5]);
    assert_eq!(sk.decrypt(&ct), 1005);
    let wrapped = sk.encrypt(u64::MAX, &vec![u64::MAX, 0, 0, 0], 1);
    assert_eq!(wrapped.data[4], u64::MAX);
    assert_eq!(sk.decrypt(&wrapped), 0);
}

#[test]
fn ternary_and_gaussian_keys() {
    let t = LweSecretKey::<u32>::generate_ternary(&vec![0, 1, 2, 3]);
    assert_eq!(t.kind, KeyKind::Ternary);
    assert_eq!(t.coefficients, vec![u32::MAX, 0, 1, u32::MAX]);
    let g = LweSecretKey::<u32>::generate_gaussian(&vec![-2, 0, 3]);
    assert_eq!(g.coefficients, vec![u32::MAX - 1, 0, 3]);
    let ct = g.encrypt(10, &vec![1, 1, 1], 0);
    assert_eq!(g.decrypt(&ct), 10);
}

#[test]
fn addition_decrypts_to_sum() {
    let mut rng = Rng(11);
    let sk: LweSecretKey<u64> = rng.binary_key(64);
    let std_dev = 2f64.powi(-30);
    let (a, b) = (3u64 << 60, 9u64 << 59);
    let ca = sk.encrypt(a, &rng.uniform_vec(64), rng.noise(std_dev));
    let cb = sk.encrypt(b, &rng.uniform_vec(64), rng.noise(std_dev));
    let sum = ca.add(&cb);
    let d = sk.decrypt(&sum);
    assert!(torus_delta(a.wrapping_add(b), d).abs() < 2f64.powi(-25));
    // without noise the sum is exact
    let ea = sk.encrypt(a, &rng.uniform_vec(64), 0);
    let eb = sk.encrypt(b, &rng.uniform_vec(64), 0);
    assert_eq!(sk.decrypt(&ea.add(&eb)), a.wrapping_add(b));
}

#[test]
fn affine_transform_matches_prediction() {
    let mut rng = Rng(12);
    let sk: LweSecretKey<u64> = rng.binary_key(32);
    let plaintexts: Vec<u64> = vec![5, 1 << 40, u64::MAX, 77];
    let weights: Vec<u64> = vec![3, u64::MAX, 2, 0];
    let bias = 1000u64;
    let inputs: Vec<LweCiphertext<u64>> =
        plaintexts.iter().map(|p| sk.encrypt(*p, &rng.uniform_vec(32), 0)).collect();
    let mut output = LweCiphertext::trivial_encrypt(32, 0u64);
    LweCiphertextVectorDiscardingAffineTransformationFixture::execute_engine(
        &mut output,
        &inputs,
        &weights,
        bias,
    )
    .unwrap();
    let predicted = LweCiphertextVectorDiscardingAffineTransformationFixture::compute_prediction(
        &plaintexts,
        &weights,
        bias,
    );
    // 1000 + 15 - 2^40 - 2
    assert_eq!(predicted, 1013u64.wrapping_sub(1 << 40));
    assert_eq!(sk.decrypt(&output), predicted);
}

#[test]
fn affine_transform_reports_mismatches() {
    let cts = vec![LweCiphertext::trivial_encrypt(4, 1u32), LweCiphertext::trivial_encrypt(3, 1u32)];
    let mut output = LweCiphertext::trivial_encrypt(4, 9u32);
    let before = output.data.clone();
    assert_eq!(
        discard_affine_transform(&mut output, &cts, &vec![1], 0),
        Err(EngineError::CleartextCountMismatch)
    );
    assert_eq!(
        discard_affine_transform(&mut output, &cts, &vec![1, 1], 0),
        Err(EngineError::InputLweDimensionMismatch)
    );
    assert_eq!(output.data, before);
}

#[test]
fn keyswitch_reports_mismatches() {
    let mut rng = Rng(13);
    let input_key: LweSecretKey<u64> = rng.binary_key(6);
    let output_key: LweSecretKey<u64> = rng.binary_key(4);
    let ksk = keyswitch_key(&mut rng, &input_key, &output_key, 4, 3, 0.0);
    let good_input = LweCiphertext::trivial_encrypt(6, 1u64);
    let bad_input = LweCiphertext::trivial_encrypt(5, 1u64);
    let mut good_output = LweCiphertext::trivial_encrypt(4, 0u64);
    let mut bad_output = LweCiphertext::trivial_encrypt(3, 0u64);
    assert_eq!(
        LweCiphertextDiscardingKeyswitchFixture::execute_engine(&ksk, &bad_input, &mut good_output),
        Err(EngineError::InputLweDimensionMismatch)
    );
    assert_eq!(
        LweCiphertextDiscardingKeyswitchFixture::execute_engine(&ksk, &good_input, &mut bad_output),
        Err(EngineError::OutputLweDimensionMismatch)
    );
    assert!(LweCiphertextDiscardingKeyswitchFixture::execute_engine(&ksk, &good_input, &mut good_output).is_ok());
    assert_eq!(output_key.decrypt(&good_output), 1);
}

#[test]
fn keyswitch_is_exact_on_representable_masks() {
    // with masks on the 2^(base_log * level) grid and a noiseless key, key switching keeps the
    // phase exactly
    let mut rng = Rng(14);
    let input_key: LweSecretKey<u64> = rng.binary_key(20);
    let output_key: LweSecretKey<u64> = rng.binary_key(12);
    let ksk = keyswitch_key(&mut rng, &input_key, &output_key, 4, 3, 0.0);
    let mask: Vec<u64> = (0..20).map(|_| rng.next_u64() & !((1u64 << 52) - 1)).collect();
    let input = input_key.encrypt(0x1234_5678_9ABC_DEF0, &mask, 0);
    let mut output = LweCiphertext::trivial_encrypt(12, 0u64);
    LweCiphertextDiscardingKeyswitchFixture::execute_engine(&ksk, &input, &mut output).unwrap();
    assert_eq!(output_key.decrypt(&output), 0x1234_5678_9ABC_DEF0);
}

#[test]
fn decomposition_exact_digits() {
    // 0xB7 << 56 with base 16 and two levels: digits 0xB and 0x7, balanced: 0xB - 16 = -5 with a
    // carry into nothing above, and 7 stays
    assert_eq!(decompose(0xB7u64 << 56, 64, 4, 2), vec![-5, 7]);
    // 0x38 << 24 with base 16, two levels, 32 bits: 8 is balanced to -8 with a carry
    assert_eq!(decompose(0x38u64 << 24, 32, 4, 2), vec![4, -8]);
    // rounding: 0x17F << 52 keeps the eight top bits 0x18 after rounding up
    assert_eq!(decompose(0x17Fu64 << 52, 64, 4, 2), vec![2, -8]);
    assert_eq!(decompose(0, 64, 7, 3), vec![0, 0, 0]);
}

#[test]
fn message_encoding_round_trip() {
    let bits = MessageBitCount(4);
    let p: u32 = encode_message(11, &bits);
    assert_eq!(p, 11 << 28);
    assert_eq!(decode_plaintext(p, &bits), 11);
    assert_eq!(decode_plaintext(p.wrapping_add(1 << 26), &bits), 11);
    assert_eq!(decode_plaintext(p.wrapping_sub(1 << 26), &bits), 11);
    assert_eq!(decode_plaintext(p.wrapping_add(1 << 27), &bits), 12);
    let q: u64 = encode_message(0x1FF, &MessageBitCount(8));
    assert_eq!(q, 0xFF << 56);
    assert_eq!(decode_plaintext(u64::MAX, &MessageBitCount(8)), 0);
}

#[test]
fn engine_error_messages() {
    assert!(EngineError::InputLweDimensionMismatch.message().contains("input"));
    assert!(EngineError::CleartextCountMismatch.message().contains("weights"));
}
