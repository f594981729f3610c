use concrete_core::error::EngineError;
use concrete_core::glwe::{GlweCiphertext, GlweSecretKey};
use concrete_core::lwe::{KeyKind, LweSecretKey};
use concrete_core::multiplication::{relinearize, rescaled_product, tensor_product};

struct Gen(u64);

impl Gen {
    fn next_u64(&mut self) -> u64 {
        self.0 = self.0.wrapping_add(0x9E37_79B9_7F4A_7C15);
        let mut z = self.0;
        z = (z ^ (z >> 30)).wrapping_mul(0xBF58_476D_1CE4_E5B9);
        z = (z ^ (z >> 27)).wrapping_mul(0x94D0_49BB_1331_11EB);
        z ^ (z >> 31)
    }

    fn poly(&mut self, n: usize) -> Vec<u64> {
        (0..n).map(|_| self.next_u64()).collect()
    }

    fn glwe_key(&mut self, k: usize, n: usize) -> GlweSecretKey<u64> {
        let keys = (0..k)
            .map(|_| {
                let draws: Vec<u64> = (0..n).map(|_| self.next_u64()).collect();
                LweSecretKey::generate_binary(&draws)
            })
            .collect();
        GlweSecretKey::from_lwe_keys(keys, KeyKind::Binary, n)
    }
}

fn gap(a: u64, b: u64) -> f64 {
    b.wrapping_sub(a) as i64 as f64 / 2f64.powi(64)
}

fn multiply_and_check(k: usize, n: usize, seed: u64) {
    let mut rng = Gen(seed);
    let key = rng.glwe_key(k, n);
    let delta = 1u64 << 40;
    let m1: Vec<u64> = (0..n).map(|j| if j == 0 { 3 * delta } else { 0 }).collect();
    let m2: Vec<u64> = (0..n).map(|j| if j == 1 { 2 * delta } else { 0 }).collect();
    let c1 = key.encrypt(&m1, &(0..k).map(|_| rng.poly(n)).collect(), &vec![0; n]);
    let c2 = key.encrypt(&m2, &(0..k).map(|_| rng.poly(n)).collect(), &vec![0; n]);
    let tensor = tensor_product(&c1, &c2, 40).unwrap();
    assert_eq!(tensor.quadratic.len(), k);
    assert_eq!(tensor.linear.len(), k);
    let (base_log, level) = (8u32, 6u32);
    let rows = k * (k + 1) / 2 * level as usize;
    let masks: Vec<Vec<Vec<u64>>> = (0..rows).map(|_| (0..k).map(|_| rng.poly(n)).collect()).collect();
    let errors: Vec<Vec<u64>> = (0..rows).map(|_| vec![0; n]).collect();
    let rlk = key.relinearization_key(base_log, level, &masks, &errors);
    let product = relinearize(&tensor, &rlk).unwrap();
    assert_eq!(product.polys.len(), k + 1);
    let decrypted = key.decrypt(&product);
    // (3 delta) * (2 delta X) / delta = 6 delta X
    for j in 0..n {
        let expected = if j == 1 { 6 * delta } else { 0 };
        assert!(gap(expected, decrypted[j]).abs() < 2f64.powi(-30), "coefficient {}", j);
    }
}

#[test]
fn glwe_multiplication_dimension_one() {
    multiply_and_check(1, 8, 31);
}

#[test]
fn glwe_multiplication_dimension_two() {
    multiply_and_check(2, 8, 32);
}

#[test]
fn rescaled_product_rounds() {
    // centered lifts: u64::MAX stands for -1, so coefficient 0 is round((-1 * 3 + 5 * 1) / 2) = 1
    let p1 = vec![u64::MAX, 0];
    let p2 = vec![3u64, 0];
    let r1 = vec![5u64, 0];
    let r2 = vec![1u64, 0];
    assert_eq!(rescaled_product(&p1, &p2, &r1, &r2, 1), vec![1, 0]);
    // round(7 / 2) = 4, ties up
    let q = rescaled_product(&vec![7u32, 0], &vec![1u32, 0], &vec![0u32, 0], &vec![0u32, 0], 1);
    assert_eq!(q, vec![4, 0]);
    // negacyclic: X * X = -1 for N = 2; (-4) / 4 = -1
    let w = rescaled_product(&vec![0u64, 2], &vec![0u64, 2], &vec![0u64, 0], &vec![0u64, 0], 2);
    assert_eq!(w, vec![u64::MAX, 0]);
}

#[test]
fn tensor_product_reports_mismatches() {
    let a = GlweCiphertext::trivial_encrypt(1, &vec![1u64; 4]);
    let b = GlweCiphertext::trivial_encrypt(1, &vec![1u64; 8]);
    let c = GlweCiphertext::trivial_encrypt(2, &vec![1u64; 4]);
    assert!(matches!(tensor_product(&a, &b, 10), Err(EngineError::PolynomialSizeMismatch)));
    assert!(matches!(tensor_product(&a, &c, 10), Err(EngineError::GlweDimensionMismatch)));
    let mut rng = Gen(33);
    let key = rng.glwe_key(1, 8);
    let rlk = key.relinearization_key(8, 2, &vec![vec![rng.poly(8)]; 2], &vec![vec![0; 8]; 2]);
    let tensor = tensor_product(&a, &a, 10).unwrap();
    assert!(matches!(relinearize(&tensor, &rlk), Err(EngineError::PolynomialSizeMismatch)));
    let d = GlweCiphertext::trivial_encrypt(2, &vec![1u64; 8]);
    let wide = tensor_product(&d, &d, 10).unwrap();
    assert!(matches!(relinearize(&wide, &rlk), Err(EngineError::GlweDimensionMismatch)));
}
