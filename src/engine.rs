//! The engine that runs the operations with exact negacyclic polynomial products.
use crate::bootstrap::{discard_bootstrap, LweBootstrapKey};
use crate::error::EngineError;
use crate::glwe::{all_sized, GlweCiphertext, GlweSecretKey};
use crate::keyswitch::{decomposition_fits, discard_keyswitch, LweKeyswitchKey};
use crate::lwe::{LweCiphertext, LweSecretKey};
use crate::torus::UnsignedTorus;
use vstd::arithmetic::power2::pow2;
use vstd::prelude::*;

verus! {

/// The error of the engine's own parameter checks.
#[derive(Clone, Copy, Debug, PartialEq, Eq, Structural)]
pub enum NttError {
    /// The polynomial size is not a power of two `2^v` with `v + 1` below the bit width.
    UnsupportedPolynomialSize,
}

impl NttError {
    /// A description of the error.
    pub fn message(&self) -> (r: String) {
        match self {
            NttError::UnsupportedPolynomialSize => String::from_str(
                "The polynomial size must be a power of two smaller than half the torus modulus.",
            ),
        }
    }
}

/// The engine: it holds no state, every operation works on the values it is given.
pub struct NttEngine {}

/// `Some(v)` when `n == 2^v` and `v + 1 < width`, `None` otherwise.
pub fn log2_exact(n: usize, width: u32) -> (r: Option<u32>)
    requires
        width == 32 || width == 64,
    ensures
        r is Some <==> exists|v: nat| v + 1 < width && pow2(v) == n,
        r is Some ==> pow2(r->0 as nat) == n && r->0 + 1 < width,
{
    let mut v: u32 = 0;
    let mut p: u64 = 1;
    proof {
        vstd::arithmetic::power2::lemma2_to64();
    }
    while v + 1 < width
        invariant
            width == 32 || width == 64,
            v + 1 <= width,
            p as nat == pow2(v as nat),
            forall|u: nat| u < v ==> pow2(u) != n,
        decreases width - v,
    {
        if p == n as u64 {
            return Some(v);
        }
        proof {
            vstd::arithmetic::power2::lemma_pow2_unfold((v + 1) as nat);
            vstd::arithmetic::power2::lemma_pow2_strictly_increases((v + 1) as nat, 64);
            vstd::arithmetic::power2::lemma2_to64();
        }
        p = p * 2;
        v += 1;
    }
    proof {
        assert forall|u: nat| u + 1 < width implies pow2(u) != n by {
            assert(u < v);
        }
    }
    None
}

impl NttEngine {
    pub fn new() -> (r: Result<NttEngine, NttError>)
        ensures
            r is Ok,
    {
        Ok(NttEngine {  })
    }

    /// The bootstrapping key from `input_key` to `output_key` (see `LweBootstrapKey::new`), or
    /// `UnsupportedPolynomialSize` where the output key's polynomial size is not a power of two
    /// `2^v` with `v + 1` below the bit width.
    pub fn create_bootstrap_key<T: UnsignedTorus>(
        &mut self,
        input_key: &LweSecretKey<T>,
        output_key: &GlweSecretKey<T>,
        base_log: u32,
        level: u32,
        masks: &Vec<Vec<Vec<Vec<T>>>>,
        errors: &Vec<Vec<Vec<T>>>,
    ) -> (r: Result<LweBootstrapKey<T>, NttError>)
        requires
            output_key.wf(),
            2 * output_key.polynomial_size <= usize::MAX,
            (output_key.polys.len() + 1) * output_key.polynomial_size < usize::MAX,
            decomposition_fits(T::width() as int, base_log as int, level as int),
            (output_key.polys.len() + 1) * level <= usize::MAX,
            masks.len() == input_key.coefficients.len(),
            errors.len() == masks.len(),
            forall|i: int, u: int|
                0 <= i < masks.len() && 0 <= u < masks[i].len() ==> (#[trigger] masks[i][u]).len()
                    == output_key.polys.len() && all_sized(masks[i][u]@, output_key.polynomial_size as int),
            forall|i: int, u: int|
                0 <= i < errors.len() && 0 <= u < errors[i].len() ==> (#[trigger] errors[i][u]).len()
                    == output_key.polynomial_size,
            forall|i: int| 0 <= i < masks.len() ==> (#[trigger] masks[i]).len() == (output_key.polys.len() + 1) * level,
            forall|i: int| 0 <= i < errors.len() ==> (#[trigger] errors[i]).len() == (output_key.polys.len() + 1) * level,
        ensures
            r is Err <==> !(exists|v: nat| v + 1 < T::width() && pow2(v) == output_key.polynomial_size),
            r is Ok ==> ({
                let k = r->Ok_0;
                &&& k.wf()
                &&& k.ggsws.len() == input_key.coefficients.len()
                &&& k.glwe_dimension == output_key.polys.len()
                &&& k.polynomial_size == output_key.polynomial_size
                &&& k.base_log == base_log
                &&& k.level == level
                &&& pow2(k.log_polynomial_size as nat) == output_key.polynomial_size
                &&& forall|i: int|
                    0 <= i < k.ggsws.len() ==> #[trigger] k.view_ggsws()[i] =~~= crate::bootstrap::ggsw_rows_spec(
                        T::modulus(),
                        output_key.key(),
                        input_key.key()[i],
                        output_key.polynomial_size as int,
                        T::width(),
                        base_log as nat,
                        level as nat,
                        masks[i]@.map_values(|v: Vec<Vec<T>>| crate::glwe::poly_vals(v@)),
                        crate::glwe::poly_vals(errors[i]@),
                    )
            }),
    {
        proof {
            T::lemma_modulus();
        }
        match log2_exact(output_key.polynomial_size, T::bits()) {
            None => Err(NttError::UnsupportedPolynomialSize),
            Some(log) => Ok(LweBootstrapKey::new(input_key, output_key, log, base_log, level, masks, errors)),
        }
    }

    /// Key switching, checked (see `discard_keyswitch`).
    pub fn discard_keyswitch_lwe_ciphertext<T: UnsignedTorus>(
        &mut self,
        output: &mut LweCiphertext<T>,
        input: &LweCiphertext<T>,
        ksk: &LweKeyswitchKey<T>,
    ) -> (r: Result<(), EngineError>)
        requires
            ksk.wf(),
            old(output).wf(),
            input.wf(),
        ensures
            r == Err::<(), EngineError>(EngineError::InputLweDimensionMismatch) <==> input.lwe_dimension()
                != ksk.input_dimension,
            r == Err::<(), EngineError>(EngineError::OutputLweDimensionMismatch) <==> (
            input.lwe_dimension() == ksk.input_dimension && old(output).lwe_dimension()
                != ksk.output_dimension),
            r is Ok <==> input.lwe_dimension() == ksk.input_dimension && old(output).lwe_dimension()
                == ksk.output_dimension,
            r is Err ==> *final(output) == *old(output),
            r is Ok ==> final(output).data.len() == old(output).data.len() && forall|c: int|
                0 <= c < final(output).data.len() ==> #[trigger] final(output).data[c].val()
                    == crate::keyswitch::keyswitch_entry(
                    T::modulus(),
                    crate::torus::vals(input.data@),
                    crate::lwe::lwe_list_vals(ksk.ciphertexts@),
                    ksk.output_dimension as int,
                    T::width(),
                    ksk.base_log as nat,
                    ksk.level as nat,
                    c,
                ),
    {
        discard_keyswitch(output, input, ksk)
    }

    /// Programmable bootstrapping, checked (see `discard_bootstrap`).
    pub fn discard_bootstrap_lwe_ciphertext<T: UnsignedTorus>(
        &mut self,
        output: &mut LweCiphertext<T>,
        input: &LweCiphertext<T>,
        acc: &GlweCiphertext<T>,
        bsk: &LweBootstrapKey<T>,
    ) -> (r: Result<(), EngineError>)
        requires
            bsk.wf(),
            input.wf(),
            old(output).wf(),
            acc.wf(),
        ensures
            r == Err::<(), EngineError>(EngineError::InputLweDimensionMismatch) <==> input.lwe_dimension()
                != bsk.ggsws.len(),
            r == Err::<(), EngineError>(EngineError::AccumulatorPolynomialSizeMismatch) <==> (
            input.lwe_dimension() == bsk.ggsws.len() && acc.polynomial_size != bsk.polynomial_size),
            r == Err::<(), EngineError>(EngineError::AccumulatorGlweDimensionMismatch) <==> (
            input.lwe_dimension() == bsk.ggsws.len() && acc.polynomial_size == bsk.polynomial_size
                && acc.polys.len() != bsk.glwe_dimension + 1),
            r == Err::<(), EngineError>(EngineError::OutputLweDimensionMismatch) <==> (input.lwe_dimension()
                == bsk.ggsws.len() && acc.polynomial_size == bsk.polynomial_size && acc.polys.len()
                == bsk.glwe_dimension + 1 && old(output).lwe_dimension() != bsk.glwe_dimension
                * bsk.polynomial_size),
            r is Ok <==> (input.lwe_dimension() == bsk.ggsws.len() && acc.polynomial_size
                == bsk.polynomial_size && acc.polys.len() == bsk.glwe_dimension + 1
                && old(output).lwe_dimension() == bsk.glwe_dimension * bsk.polynomial_size),
            r is Err ==> *final(output) == *old(output),
            r is Ok ==> ({
                let br = crate::bootstrap::blind_rotate_spec(
                    T::modulus(),
                    acc.view_polys(),
                    bsk.view_ggsws(),
                    crate::torus::vals(input.data@),
                    T::width(),
                    (bsk.log_polynomial_size + 1) as nat,
                    bsk.base_log as nat,
                    bsk.level as nat,
                    bsk.ggsws.len() as nat,
                );
                &&& final(output).data.len() == old(output).data.len()
                &&& forall|i: int, t: int|
                    0 <= i < bsk.glwe_dimension && 0 <= t < bsk.polynomial_size ==> final(output).data[i
                        * bsk.polynomial_size + t].val() == #[trigger] crate::glwe::extracted_mask_coeff(
                        T::modulus(),
                        br[i],
                        t,
                    )
                &&& final(output).data[bsk.glwe_dimension * bsk.polynomial_size].val()
                    == br[bsk.glwe_dimension as int][0]
            }),
    {
        discard_bootstrap(output, input, acc, bsk)
    }
}

} // verus!
