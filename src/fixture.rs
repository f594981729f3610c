//! The steps of the statistical checks of each operation, with the randomness handed in: the
//! inputs they build, the operation they run, and what they read back.
use crate::bootstrap::{discard_bootstrap, LweBootstrapKey};
use crate::error::EngineError;
use crate::glwe::{all_sized, glwe_phase_coeff, mask_key_coeff, poly_vals, GlweCiphertext, GlweSecretKey};
use crate::keyswitch::{discard_keyswitch, LweKeyswitchKey};
use crate::lwe::{lwe_phase, LweCiphertext, LweSecretKey};
use crate::torus::{dot, lemma_mod_add, vals, UnsignedTorus};
use vstd::arithmetic::power2::pow2;
use vstd::prelude::*;

verus! {

/// `sum_{i < count} w[i] * p[i]`.
pub open spec fn weighted_sum(p: Seq<int>, w: Seq<int>, count: nat) -> int
    decreases count,
{
    if count == 0 {
        0
    } else {
        weighted_sum(p, w, (count - 1) as nat) + w[count - 1] * p[count - 1]
    }
}

/// The check of GLWE encryption.
pub struct GlweCiphertextEncryptionFixture;

impl GlweCiphertextEncryptionFixture {
    /// Encrypts `plaintext` under `key` with the given mask polynomials and error.
    pub fn execute_engine<T: UnsignedTorus>(
        key: &GlweSecretKey<T>,
        plaintext: &Vec<T>,
        masks: &Vec<Vec<T>>,
        error: &Vec<T>,
    ) -> (r: GlweCiphertext<T>)
        requires
            key.wf(),
            plaintext.len() == key.polynomial_size,
            error.len() == key.polynomial_size,
            masks.len() == key.polys.len(),
            all_sized(masks@, key.polynomial_size as int),
        ensures
            r.wf(),
            r.polynomial_size == key.polynomial_size,
            r.polys.len() == key.polys.len() + 1,
            forall|j: int|
                0 <= j < key.polynomial_size ==> #[trigger] glwe_phase_coeff(
                    T::modulus(),
                    key.key(),
                    r.view_polys(),
                    j,
                ) == (plaintext[j].val() + error[j].val()) % T::modulus(),
    {
        let r = key.encrypt(plaintext, masks, error);
        proof {
            T::lemma_modulus();
            let m = T::modulus();
            let k = key.polys.len();
            assert forall|j: int| 0 <= j < key.polynomial_size implies #[trigger] glwe_phase_coeff(
                m,
                key.key(),
                r.view_polys(),
                j,
            ) == (plaintext[j].val() + error[j].val()) % m by {
                lemma_mask_key_coeff_prefix(r.view_polys(), poly_vals(masks@), key.key(), j, k as nat);
                let x = mask_key_coeff(poly_vals(masks@), key.key(), j, k as nat);
                assert(r.view_polys().last()[j] == r.polys[k as int][j].val());
                lemma_mod_add(x + plaintext[j].val() + error[j].val(), x, m);
                assert(x + plaintext[j].val() + error[j].val() - x == plaintext[j].val()
                    + error[j].val());
            }
        }
        r
    }

    /// Decrypts `ct` under `key`.
    pub fn process_context<T: UnsignedTorus>(key: &GlweSecretKey<T>, ct: &GlweCiphertext<T>) -> (r: Vec<T>)
        requires
            key.wf(),
            ct.wf(),
            ct.polynomial_size == key.polynomial_size,
            ct.polys.len() == key.polys.len() + 1,
        ensures
            r.len() == key.polynomial_size,
            forall|j: int|
                0 <= j < key.polynomial_size ==> #[trigger] r[j].val() == glwe_phase_coeff(
                    T::modulus(),
                    key.key(),
                    ct.view_polys(),
                    j,
                ),
    {
        key.decrypt(ct)
    }
}

proof fn lemma_mask_key_coeff_prefix(a: Seq<Seq<int>>, b: Seq<Seq<int>>, key: Seq<Seq<int>>, j: int, count: nat)
    requires
        count <= b.len(),
        a.len() > b.len(),
        a.drop_last() == b,
    ensures
        mask_key_coeff(a, key, j, count) == mask_key_coeff(b, key, j, count),
    decreases count,
{
    if count > 0 {
        lemma_mask_key_coeff_prefix(a, b, key, j, (count - 1) as nat);
        assert(a[count - 1] == b[count - 1]);
    }
}

/// The check of LWE decryption, ciphertext by ciphertext.
pub struct LweCiphertextVectorDecryptionFixture;

impl LweCiphertextVectorDecryptionFixture {
    /// Encrypts each plaintext under `key`, the `i`-th with `masks[i]` and `errors[i]`.
    pub fn prepare_context<T: UnsignedTorus>(
        key: &LweSecretKey<T>,
        plaintexts: &Vec<T>,
        masks: &Vec<Vec<T>>,
        errors: &Vec<T>,
    ) -> (r: Vec<LweCiphertext<T>>)
        requires
            masks.len() == plaintexts.len(),
            errors.len() == plaintexts.len(),
            forall|i: int| 0 <= i < masks.len() ==> (#[trigger] masks[i]).len() == key.coefficients.len(),
        ensures
            r.len() == plaintexts.len(),
            forall|i: int|
                0 <= i < r.len() ==> (#[trigger] r[i]).lwe_dimension() == key.coefficients.len() && r[i].wf()
                    && lwe_phase(T::modulus(), key.key(), vals(r[i].data@)) == (plaintexts[i].val()
                    + errors[i].val()) % T::modulus(),
    {
        let mut r: Vec<LweCiphertext<T>> = Vec::new();
        let mut i: usize = 0;
        while i < plaintexts.len()
            invariant
                masks.len() == plaintexts.len(),
                errors.len() == plaintexts.len(),
                forall|i2: int| 0 <= i2 < masks.len() ==> (#[trigger] masks[i2]).len() == key.coefficients.len(),
                i <= plaintexts.len(),
                r.len() == i,
                forall|i2: int|
                    0 <= i2 < i ==> (#[trigger] r[i2]).lwe_dimension() == key.coefficients.len() && r[i2].wf()
                        && lwe_phase(T::modulus(), key.key(), vals(r[i2].data@)) == (plaintexts[i2].val()
                        + errors[i2].val()) % T::modulus(),
            decreases plaintexts.len() - i,
        {
            let ct = key.encrypt(plaintexts[i], &masks[i], errors[i]);
            proof {
                T::lemma_modulus();
                crate::lwe::lemma_decrypt_encrypt(
                    T::modulus(),
                    key.key(),
                    vals(ct.data@),
                    plaintexts[i as int].val(),
                    errors[i as int].val(),
                );
            }
            r.push(ct);
            i += 1;
        }
        r
    }

    /// Decrypts each ciphertext under `key`.
    pub fn execute_engine<T: UnsignedTorus>(key: &LweSecretKey<T>, cts: &Vec<LweCiphertext<T>>) -> (r: Vec<T>)
        requires
            forall|i: int|
                0 <= i < cts.len() ==> (#[trigger] cts[i]).wf() && cts[i].lwe_dimension()
                    == key.coefficients.len(),
        ensures
            r.len() == cts.len(),
            forall|i: int|
                0 <= i < r.len() ==> #[trigger] r[i].val() == lwe_phase(
                    T::modulus(),
                    key.key(),
                    vals(cts[i].data@),
                ),
    {
        let mut r: Vec<T> = Vec::new();
        let mut i: usize = 0;
        while i < cts.len()
            invariant
                forall|i2: int|
                    0 <= i2 < cts.len() ==> (#[trigger] cts[i2]).wf() && cts[i2].lwe_dimension()
                        == key.coefficients.len(),
                i <= cts.len(),
                r.len() == i,
                forall|i2: int|
                    0 <= i2 < i ==> #[trigger] r[i2].val() == lwe_phase(
                        T::modulus(),
                        key.key(),
                        vals(cts[i2].data@),
                    ),
            decreases cts.len() - i,
        {
            r.push(key.decrypt(&cts[i]));
            i += 1;
        }
        r
    }
}

/// The check of affine transformations of LWE ciphertexts.
pub struct LweCiphertextVectorDiscardingAffineTransformationFixture;

impl LweCiphertextVectorDiscardingAffineTransformationFixture {
    /// The expected phase of the result: `bias + sum_i weights[i] * plaintexts[i]`.
    pub fn compute_prediction<T: UnsignedTorus>(plaintexts: &Vec<T>, weights: &Vec<T>, bias: T) -> (r: T)
        requires
            weights.len() == plaintexts.len(),
        ensures
            r.val() == (bias.val() + weighted_sum(vals(plaintexts@), vals(weights@), plaintexts.len() as nat))
                % T::modulus(),
    {
        let mut acc = bias;
        let ghost m = T::modulus();
        proof {
            T::lemma_modulus();
            T::lemma_val_bounds(bias);
            vstd::arithmetic::div_mod::lemma_small_mod(bias.val() as nat, m as nat);
        }
        let mut i: usize = 0;
        while i < plaintexts.len()
            invariant
                m == T::modulus(),
                m > 0,
                weights.len() == plaintexts.len(),
                i <= plaintexts.len(),
                acc.val() == (bias.val() + weighted_sum(vals(plaintexts@), vals(weights@), i as nat)) % m,
            decreases plaintexts.len() - i,
        {
            let p = plaintexts[i].torus_mul(weights[i]);
            proof {
                let x = bias.val() + weighted_sum(vals(plaintexts@), vals(weights@), i as nat);
                let y = weights[i as int].val() * plaintexts[i as int].val();
                let pv = plaintexts[i as int].val();
                let wv = weights[i as int].val();
                assert(pv * wv == wv * pv) by (nonlinear_arith);
                lemma_mod_add(x, y, m);
                lemma_mod_add(x % m, y, m);
                lemma_mod_add(x, y % m, m);
                lemma_mod_add(x % m, y % m, m);
                lemma_mod_add(y, x, m);
                lemma_mod_add(y % m, x, m);
            }
            acc = acc.torus_add(p);
            i += 1;
        }
        acc
    }

    /// Overwrites `output` with the affine transformation (see `discard_affine_transform`).
    pub fn execute_engine<T: UnsignedTorus>(
        output: &mut LweCiphertext<T>,
        inputs: &Vec<LweCiphertext<T>>,
        weights: &Vec<T>,
        bias: T,
    ) -> (r: Result<(), EngineError>)
        requires
            old(output).wf(),
        ensures
            r == Err::<(), EngineError>(EngineError::CleartextCountMismatch) <==> weights.len()
                != inputs.len(),
            r == Err::<(), EngineError>(EngineError::InputLweDimensionMismatch) <==> (weights.len()
                == inputs.len() && exists|i: int|
                0 <= i < inputs.len() && (#[trigger] inputs[i]).data.len() != old(output).data.len()),
            r is Ok <==> weights.len() == inputs.len() && forall|i: int|
                0 <= i < inputs.len() ==> (#[trigger] inputs[i]).data.len() == old(output).data.len(),
            r is Err ==> *final(output) == *old(output),
            r is Ok ==> final(output).data.len() == old(output).data.len() && forall|c: int|
                0 <= c < final(output).data.len() ==> #[trigger] final(output).data[c].val()
                    == crate::lwe::affine_entry(
                    T::modulus(),
                    old(output).lwe_dimension(),
                    crate::lwe::lwe_list_vals(inputs@),
                    vals(weights@),
                    bias.val(),
                    c,
                ),
    {
        crate::lwe::discard_affine_transform(output, inputs, weights, bias)
    }
}

/// The check of LWE key switching.
pub struct LweCiphertextDiscardingKeyswitchFixture;

impl LweCiphertextDiscardingKeyswitchFixture {
    /// Overwrites `output` with the key switch of `input` (see `discard_keyswitch`).
    pub fn execute_engine<T: UnsignedTorus>(
        ksk: &LweKeyswitchKey<T>,
        input: &LweCiphertext<T>,
        output: &mut LweCiphertext<T>,
    ) -> (r: Result<(), EngineError>)
        requires
            ksk.wf(),
            old(output).wf(),
            input.wf(),
        ensures
            r == Err::<(), EngineError>(EngineError::InputLweDimensionMismatch) <==> input.lwe_dimension()
                != ksk.input_dimension,
            r == Err::<(), EngineError>(EngineError::OutputLweDimensionMismatch) <==> (
            input.lwe_dimension() == ksk.input_dimension && old(output).lwe_dimension()
                != ksk.output_dimension),
            r is Ok <==> input.lwe_dimension() == ksk.input_dimension && old(output).lwe_dimension()
                == ksk.output_dimension,
            r is Err ==> *final(output) == *old(output),
            r is Ok ==> final(output).data.len() == old(output).data.len() && forall|c: int|
                0 <= c < final(output).data.len() ==> #[trigger] final(output).data[c].val()
                    == crate::keyswitch::keyswitch_entry(
                    T::modulus(),
                    vals(input.data@),
                    crate::lwe::lwe_list_vals(ksk.ciphertexts@),
                    ksk.output_dimension as int,
                    T::width(),
                    ksk.base_log as nat,
                    ksk.level as nat,
                    c,
                ),
    {
        discard_keyswitch(output, input, ksk)
    }

    /// Decrypts the output under the output key.
    pub fn process_context<T: UnsignedTorus>(key: &LweSecretKey<T>, output: &LweCiphertext<T>) -> (r: T)
        requires
            output.wf(),
            output.lwe_dimension() == key.coefficients.len(),
        ensures
            r.val() == lwe_phase(T::modulus(), key.key(), vals(output.data@)),
    {
        key.decrypt(output)
    }
}

/// The check of programmable bootstrapping.
pub struct LweCiphertextDiscardingBootstrapHarness;

impl LweCiphertextDiscardingBootstrapHarness {
    /// The message of a check: the bits `W - 4 .. W - 1` of `random`, in place, all others zero.
    pub fn generate_random_raw_inputs<T: UnsignedTorus>(random: T) -> (r: T)
        ensures
            r.val() == (random.val() / pow2((T::width() - 4) as nat) as int) % 8 * pow2(
                (T::width() - 4) as nat,
            ) as int,
    {
        proof {
            T::lemma_modulus();
            T::lemma_val_bounds(random);
        }
        let w = T::bits();
        let s = crate::decomposition::pow2_u64(w - 4);
        proof {
            vstd::arithmetic::power2::lemma_pow2_pos((w - 4) as nat);
            vstd::arithmetic::power2::lemma_pow2_adds(3, (w - 4) as nat);
            vstd::arithmetic::power2::lemma2_to64();
            vstd::arithmetic::power2::lemma_pow2_strictly_increases((w - 1) as nat, 64);
            assert((3 + (w - 4)) as nat == (w - 1) as nat);
        }
        let top = (random.to_u64() / s) % 8;
        proof {
            assert(top as int * s as int <= 7 * s as int) by (nonlinear_arith)
                requires
                    top <= 7,
                    s >= 0,
            ;
            assert(pow2(3) == 8);
        }
        let v = top * s;
        proof {
            vstd::arithmetic::div_mod::lemma_small_mod(v as nat, T::modulus() as nat);
        }
        T::from_u64(v)
    }

    /// Overwrites `output` with the bootstrap of `input` (see `discard_bootstrap`).
    pub fn ignite_engine<T: UnsignedTorus>(
        output: &mut LweCiphertext<T>,
        input: &LweCiphertext<T>,
        acc: &GlweCiphertext<T>,
        bsk: &LweBootstrapKey<T>,
    ) -> (r: Result<(), EngineError>)
        requires
            bsk.wf(),
            input.wf(),
            old(output).wf(),
            acc.wf(),
        ensures
            r == Err::<(), EngineError>(EngineError::InputLweDimensionMismatch) <==> input.lwe_dimension()
                != bsk.ggsws.len(),
            r == Err::<(), EngineError>(EngineError::AccumulatorPolynomialSizeMismatch) <==> (
            input.lwe_dimension() == bsk.ggsws.len() && acc.polynomial_size != bsk.polynomial_size),
            r == Err::<(), EngineError>(EngineError::AccumulatorGlweDimensionMismatch) <==> (
            input.lwe_dimension() == bsk.ggsws.len() && acc.polynomial_size == bsk.polynomial_size
                && acc.polys.len() != bsk.glwe_dimension + 1),
            r == Err::<(), EngineError>(EngineError::OutputLweDimensionMismatch) <==> (input.lwe_dimension()
                == bsk.ggsws.len() && acc.polynomial_size == bsk.polynomial_size && acc.polys.len()
                == bsk.glwe_dimension + 1 && old(output).lwe_dimension() != bsk.glwe_dimension
                * bsk.polynomial_size),
            r is Ok <==> (input.lwe_dimension() == bsk.ggsws.len() && acc.polynomial_size
                == bsk.polynomial_size && acc.polys.len() == bsk.glwe_dimension + 1
                && old(output).lwe_dimension() == bsk.glwe_dimension * bsk.polynomial_size),
            r is Err ==> *final(output) == *old(output),
            r is Ok ==> ({
                let br = crate::bootstrap::blind_rotate_spec(
                    T::modulus(),
                    acc.view_polys(),
                    bsk.view_ggsws(),
                    vals(input.data@),
                    T::width(),
                    (bsk.log_polynomial_size + 1) as nat,
                    bsk.base_log as nat,
                    bsk.level as nat,
                    bsk.ggsws.len() as nat,
                );
                &&& final(output).data.len() == old(output).data.len()
                &&& forall|i: int, t: int|
                    0 <= i < bsk.glwe_dimension && 0 <= t < bsk.polynomial_size ==> final(output).data[i
                        * bsk.polynomial_size + t].val() == #[trigger] crate::glwe::extracted_mask_coeff(
                        T::modulus(),
                        br[i],
                        t,
                    )
                &&& final(output).data[bsk.glwe_dimension * bsk.polynomial_size].val()
                    == br[bsk.glwe_dimension as int][0]
            }),
    {
        discard_bootstrap(output, input, acc, bsk)
    }

    /// Decrypts the output under the key that the GLWE key flattens to.
    pub fn process_outputs<T: UnsignedTorus>(key: &LweSecretKey<T>, output: &LweCiphertext<T>) -> (r: T)
        requires
            output.wf(),
            output.lwe_dimension() == key.coefficients.len(),
        ensures
            r.val() == lwe_phase(T::modulus(), key.key(), vals(output.data@)),
    {
        key.decrypt(output)
    }
}

} // verus!
