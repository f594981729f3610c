//! LWE-to-LWE key switching by gadget decomposition.
use crate::decomposition::{decompose, gadget_digits, ints};
use crate::error::EngineError;
use crate::lwe::{lwe_list_vals, LweCiphertext, LweSecretKey};
use crate::torus::{lemma_mod_add, vals, UnsignedTorus};
use vstd::arithmetic::power2::pow2;
use vstd::prelude::*;

verus! {

/// A key-switching key: for each coefficient `s_i` of the input key and each level `j` (from 1),
/// an LWE encryption under the output key of `s_i * 2^(W - j * base_log)`, stored at index
/// `i * level + (j - 1)`.
pub struct LweKeyswitchKey<T> {
    pub input_dimension: usize,
    pub output_dimension: usize,
    pub base_log: u32,
    pub level: u32,
    pub ciphertexts: Vec<LweCiphertext<T>>,
}

/// Whether `base_log` and `level` describe a decomposition of `bits`-bit elements.
pub open spec fn decomposition_fits(bits: int, base_log: int, level: int) -> bool {
    1 <= base_log < 64 && 1 <= level && base_log * level <= bits
}

/// `sum_j d[j] * block[j][c]` over the first `d.len()` levels.
pub open spec fn level_sum(d: Seq<int>, block: Seq<Seq<int>>, c: int) -> int
    decreases d.len(),
{
    if d.len() == 0 {
        0
    } else {
        level_sum(d.drop_last(), block, c) + d.last() * block[d.len() - 1][c]
    }
}

/// `sum_i sum_j digits(mask[i])[j] * ksk[i * level + j][c]` over the entries of `mask`.
pub open spec fn keyswitch_sum(
    mask: Seq<int>,
    ksk: Seq<Seq<int>>,
    bits: nat,
    base_log: nat,
    level: nat,
    c: int,
) -> int
    decreases mask.len(),
{
    if mask.len() == 0 {
        0
    } else {
        let i = mask.len() - 1;
        keyswitch_sum(mask.drop_last(), ksk, bits, base_log, level, c) + level_sum(
            gadget_digits(mask.last(), bits, base_log, level),
            ksk.subrange(i * level, i * level + level),
            c,
        )
    }
}

/// The entry `c` of the key-switched ciphertext: the input body on the output body, minus the
/// digits of the input mask applied to the key-switching key.
pub open spec fn keyswitch_entry(
    m: int,
    input: Seq<int>,
    ksk: Seq<Seq<int>>,
    out_dim: int,
    bits: nat,
    base_log: nat,
    level: nat,
    c: int,
) -> int {
    ((if c == out_dim { input.last() } else { 0 }) - keyswitch_sum(
        input.drop_last(),
        ksk,
        bits,
        base_log,
        level,
        c,
    )) % m
}

/// Whether `ct` encrypts `coef * 2^shift` under `key`, with the given mask and error.
pub open spec fn encrypts_gadget_multiple<T: UnsignedTorus>(
    ct: LweCiphertext<T>,
    mask: Seq<T>,
    error: T,
    key: Seq<int>,
    coef: int,
    shift: nat,
) -> bool {
    &&& ct.mask() == vals(mask)
    &&& ct.body() == (crate::torus::dot(vals(mask), key) + (coef * pow2(shift)) % T::modulus()
        + error.val()) % T::modulus()
}

impl<T: UnsignedTorus> LweKeyswitchKey<T> {
    pub open spec fn wf(&self) -> bool {
        &&& decomposition_fits(
            T::width() as int,
            self.base_log as int,
            self.level as int,
        )
        &&& self.ciphertexts.len() == self.input_dimension * self.level
        &&& self.output_dimension < usize::MAX
        &&& forall|i: int|
            0 <= i < self.ciphertexts.len() ==> (#[trigger] self.ciphertexts[i]).data.len()
                == self.output_dimension + 1
    }

    /// The key-switching key from `input_key` to `output_key`: the `t`-th ciphertext encrypts
    /// its gadget multiple of an input-key coefficient with `masks[t]` and `errors[t]`.
    pub fn new(
        input_key: &LweSecretKey<T>,
        output_key: &LweSecretKey<T>,
        base_log: u32,
        level: u32,
        masks: &Vec<Vec<T>>,
        errors: &Vec<T>,
    ) -> (r: Self)
        requires
            decomposition_fits(
                T::width() as int,
                base_log as int,
                level as int,
            ),
            input_key.coefficients.len() * level <= usize::MAX,
            output_key.coefficients.len() < usize::MAX,
            masks.len() == input_key.coefficients.len() * level,
            errors.len() == masks.len(),
            forall|t: int| 0 <= t < masks.len() ==> (#[trigger] masks[t]).len()
                == output_key.coefficients.len(),
        ensures
            r.wf(),
            r.input_dimension == input_key.coefficients.len(),
            r.output_dimension == output_key.coefficients.len(),
            r.base_log == base_log,
            r.level == level,
            forall|t: int|
                0 <= t < r.ciphertexts.len() ==> #[trigger] encrypts_gadget_multiple(
                    r.ciphertexts[t],
                    masks[t]@,
                    errors[t],
                    output_key.key(),
                    input_key.key()[t / level as int],
                    (T::width() - (t % level as int + 1) * base_log) as nat,
                ),
    {
        let bits = T::bits();
        proof {
            T::lemma_modulus();
        }
        let n_in = input_key.lwe_dimension();
        let mut ciphertexts: Vec<LweCiphertext<T>> = Vec::new();
        let mut i: usize = 0;
        while i < n_in
            invariant
                bits == 32 || bits == 64,
                T::modulus() == pow2(bits as nat),
                decomposition_fits(bits as int, base_log as int, level as int),
                n_in == input_key.coefficients.len(),
                n_in * level <= usize::MAX,
                masks.len() == n_in * level,
                errors.len() == masks.len(),
                forall|t: int| 0 <= t < masks.len() ==> (#[trigger] masks[t]).len()
                    == output_key.coefficients.len(),
                i <= n_in,
                ciphertexts.len() == i * level,
                forall|t: int| 0 <= t < ciphertexts.len() ==> (#[trigger] ciphertexts[t]).data.len()
                    == output_key.coefficients.len() + 1,
                forall|t: int|
                    0 <= t < ciphertexts.len() ==> #[trigger] encrypts_gadget_multiple(
                        ciphertexts[t],
                        masks[t]@,
                        errors[t],
                        output_key.key(),
                        input_key.key()[t / level as int],
                        (bits - (t % level as int + 1) * base_log) as nat,
                    ),
            decreases n_in - i,
        {
            let mut j: u32 = 0;
            while j < level
                invariant
                    bits == 32 || bits == 64,
                    T::modulus() == pow2(bits as nat),
                    decomposition_fits(bits as int, base_log as int, level as int),
                    n_in == input_key.coefficients.len(),
                    n_in * level <= usize::MAX,
                    masks.len() == n_in * level,
                    errors.len() == masks.len(),
                    forall|t: int| 0 <= t < masks.len() ==> (#[trigger] masks[t]).len()
                        == output_key.coefficients.len(),
                    i < n_in,
                    j <= level,
                    ciphertexts.len() == i * level + j,
                    forall|t: int| 0 <= t < ciphertexts.len() ==> (#[trigger] ciphertexts[t]).data.len()
                        == output_key.coefficients.len() + 1,
                    forall|t: int|
                        0 <= t < ciphertexts.len() ==> #[trigger] encrypts_gadget_multiple(
                            ciphertexts[t],
                            masks[t]@,
                            errors[t],
                            output_key.key(),
                            input_key.key()[t / level as int],
                            (bits - (t % level as int + 1) * base_log) as nat,
                        ),
                decreases level - j,
            {
                let t = i * (level as usize) + (j as usize);
                proof {
                    assert(i * level + j < n_in * level) by (nonlinear_arith)
                        requires
                            i < n_in,
                            j < level,
                    ;
                }
                proof {
                    assert((j + 1) * base_log <= base_log * level) by (nonlinear_arith)
                        requires
                            j < level,
                            base_log >= 1,
                    ;
                    assert((j + 1) * base_log <= u32::MAX);
                    assert((j + 1) * base_log >= 1) by (nonlinear_arith)
                        requires
                            base_log >= 1,
                            j >= 0,
                    ;
                }
                let shift = bits - (j + 1) * base_log;
                proof {
                    vstd::arithmetic::power2::lemma_pow2_strictly_increases(shift as nat, 64);
                    vstd::arithmetic::power2::lemma_pow2_strictly_increases(shift as nat, bits as nat);
                    vstd::arithmetic::power2::lemma2_to64();
                }
                let g = T::from_u64(crate::decomposition::pow2_u64(shift));
                let msg = input_key.coefficients[i].torus_mul(g);
                proof {
                    T::lemma_modulus();
                    let p = pow2(shift as nat) as int;
                    vstd::arithmetic::div_mod::lemma_small_mod(p as nat, T::modulus() as nat);
                    crate::torus::lemma_mod_mul(input_key.coefficients[i as int].val(), p, T::modulus());
                }
                let ct = output_key.encrypt(msg, &masks[t], errors[t]);
                ciphertexts.push(ct);
                proof {
                    assert(t as int / level as int == i && t as int % level as int == j) by {
                        vstd::arithmetic::div_mod::lemma_fundamental_div_mod_converse(
                            t as int,
                            level as int,
                            i as int,
                            j as int,
                        );
                    }
                    assert(encrypts_gadget_multiple(
                        ciphertexts[t as int],
                        masks[t as int]@,
                        errors[t as int],
                        output_key.key(),
                        input_key.key()[t as int / level as int],
                        (bits - (t as int % level as int + 1) * base_log) as nat,
                    ));
                }
                j += 1;
            }
            proof {
                assert((i + 1) * level == i * level + level) by (nonlinear_arith);
            }
            i += 1;
        }
        LweKeyswitchKey {
            input_dimension: n_in,
            output_dimension: output_key.lwe_dimension(),
            base_log,
            level,
            ciphertexts,
        }
    }
}

} // verus!

verus! {

/// Overwrites `output` with the key switch of `input` under `ksk`: an encryption under the
/// output key of the message of `input`. The dimensions of `input` and `output` must match the
/// key's; otherwise the mismatch is reported and `output` is left as it was.
pub fn discard_keyswitch<T: UnsignedTorus>(
    output: &mut LweCiphertext<T>,
    input: &LweCiphertext<T>,
    ksk: &LweKeyswitchKey<T>,
) -> (r: Result<(), EngineError>)
    requires
        ksk.wf(),
        old(output).wf(),
        input.wf(),
    ensures
        r == Err::<(), EngineError>(EngineError::InputLweDimensionMismatch) <==> input.lwe_dimension()
            != ksk.input_dimension,
        r == Err::<(), EngineError>(EngineError::OutputLweDimensionMismatch) <==> (
        input.lwe_dimension() == ksk.input_dimension && old(output).lwe_dimension()
            != ksk.output_dimension),
        r is Ok <==> input.lwe_dimension() == ksk.input_dimension && old(output).lwe_dimension()
            == ksk.output_dimension,
        r is Ok ==> final(output).data.len() == old(output).data.len() && forall|c: int|
            0 <= c < final(output).data.len() ==> #[trigger] final(output).data[c].val()
                == keyswitch_entry(
                T::modulus(),
                vals(input.data@),
                lwe_list_vals(ksk.ciphertexts@),
                ksk.output_dimension as int,
                T::width(),
                ksk.base_log as nat,
                ksk.level as nat,
                c,
            ),
        r is Err ==> *final(output) == *old(output),
{
    if input.dimension() != ksk.input_dimension {
        return Err(EngineError::InputLweDimensionMismatch);
    }
    if output.dimension() != ksk.output_dimension {
        return Err(EngineError::OutputLweDimensionMismatch);
    }
    let bits = T::bits();
    proof {
        T::lemma_modulus();
    }
    let n_in = ksk.input_dimension;
    let n_out = ksk.output_dimension;
    let level = ksk.level;
    let base_log = ksk.base_log;
    let ghost m = T::modulus();
    let ghost kv = lwe_list_vals(ksk.ciphertexts@);
    let ghost iv = vals(input.data@);
    let body = input.data[n_in];
    let mut acc = LweCiphertext::trivial_encrypt(n_out, body);
    proof {
        assert forall|c: int| 0 <= c < acc.data.len() implies #[trigger] acc.data[c].val() == ((
        if c == n_out { iv.last() } else { 0 }) - keyswitch_sum(
            iv.subrange(0, 0),
            kv,
            bits as nat,
            base_log as nat,
            level as nat,
            c,
        ) - 0) % m by {
            T::lemma_val_bounds(acc.data[c]);
            vstd::arithmetic::div_mod::lemma_small_mod(acc.data[c].val() as nat, m as nat);
        }
    }
    let mut i: usize = 0;
    while i < n_in
        invariant
            m == T::modulus(),
            m == pow2(bits as nat),
            m >= 0x1_0000_0000,
            bits == 32 || bits == 64,
            bits as nat == T::width(),
            ksk.wf(),
            n_in == ksk.input_dimension,
            n_out == ksk.output_dimension,
            level == ksk.level,
            base_log == ksk.base_log,
            kv == lwe_list_vals(ksk.ciphertexts@),
            iv == vals(input.data@),
            input.data.len() == n_in + 1,
            i <= n_in,
            acc.data.len() == n_out + 1,
            forall|c: int|
                0 <= c < acc.data.len() ==> #[trigger] acc.data[c].val() == ((if c == n_out {
                    iv.last()
                } else {
                    0
                }) - keyswitch_sum(
                    iv.subrange(0, i as int),
                    kv,
                    bits as nat,
                    base_log as nat,
                    level as nat,
                    c,
                ) - 0) % m,
        decreases n_in - i,
    {
        let a = input.data[i];
        proof {
            T::lemma_val_bounds(a);
        }
        let d = decompose(a.to_u64(), bits, base_log, level);
        let ghost block = kv.subrange(i * level, i * level + level);
        let ghost prefix = iv.subrange(0, i as int);
        proof {
            vstd::arithmetic::power2::lemma2_to64();
            vstd::arithmetic::power2::lemma_pow2_unfold(64);
            vstd::arithmetic::power2::lemma_pow2_unfold(63);
            if base_log - 1 < 62 {
                vstd::arithmetic::power2::lemma_pow2_strictly_increases((base_log - 1) as nat, 62);
            }
            assert forall|t: int| 0 <= t < level implies -0x4000_0000_0000_0000 <= #[trigger] d[t]
                < 0x4000_0000_0000_0000 by {
                assert(ints(d@)[t] == d[t] as int);
            }
            assert(i * level + level <= n_in * level) by (nonlinear_arith)
                requires
                    i < n_in,
            ;
            assert forall|c: int| 0 <= c < acc.data.len() implies #[trigger] acc.data[c].val() == ((
            if c == n_out { iv.last() } else { 0 }) - keyswitch_sum(
                prefix,
                kv,
                bits as nat,
                base_log as nat,
                level as nat,
                c,
            ) - level_sum(ints(d@).subrange(0, 0), block, c)) % m by {}
        }
        let mut j: u32 = 0;
        while j < level
            invariant
                m == T::modulus(),
                m >= 0x1_0000_0000,
                ksk.wf(),
                n_in == ksk.input_dimension,
                n_out == ksk.output_dimension,
                level == ksk.level,
                base_log == ksk.base_log,
                kv == lwe_list_vals(ksk.ciphertexts@),
                i < n_in,
                i * level + level <= n_in * level,
                block == kv.subrange(i * level, i * level + level),
                d.len() == level,
                forall|t: int|
                    0 <= t < level ==> -0x4000_0000_0000_0000 <= #[trigger] d[t] < 0x4000_0000_0000_0000,
                j <= level,
                acc.data.len() == n_out + 1,
                forall|c: int|
                    0 <= c < acc.data.len() ==> #[trigger] acc.data[c].val() == ((if c == n_out {
                        iv.last()
                    } else {
                        0
                    }) - keyswitch_sum(prefix, kv, bits as nat, base_log as nat, level as nat, c)
                        - level_sum(ints(d@).subrange(0, j as int), block, c)) % m,
            decreases level - j,
        {
            let t = i * (level as usize) + (j as usize);
            proof {
                assert(i * level + j < n_in * level);
            }
            let w = T::from_signed(-d[j as usize]);
            let ghost before = acc.data@;
            acc.add_scaled(&ksk.ciphertexts[t], w);
            proof {
                let ds = ints(d@).subrange(0, j as int + 1);
                assert(ds.drop_last() =~= ints(d@).subrange(0, j as int));
                assert(block[j as int] == kv[t as int]);
                assert forall|c: int| 0 <= c < acc.data.len() implies #[trigger] acc.data[c].val()
                    == ((if c == n_out { iv.last() } else { 0 }) - keyswitch_sum(
                    prefix,
                    kv,
                    bits as nat,
                    base_log as nat,
                    level as nat,
                    c,
                ) - level_sum(ds, block, c)) % m by {
                    let x = (if c == n_out { iv.last() } else { 0 }) - keyswitch_sum(
                        prefix,
                        kv,
                        bits as nat,
                        base_log as nat,
                        level as nat,
                        c,
                    ) - level_sum(ints(d@).subrange(0, j as int), block, c);
                    let y = ksk.ciphertexts[t as int].data[c].val();
                    let dj = d[j as int] as int;
                    assert(kv[t as int][c] == y);
                    assert(level_sum(ds, block, c) == level_sum(ints(d@).subrange(0, j as int), block, c)
                        + dj * y);
                    assert(before[c].val() == x % m);
                    lemma_mod_add(x, w.val() * y, m);
                    crate::torus::lemma_mod_mul(-dj, y, m);
                    lemma_mod_add(x, (-dj) * y, m);
                    lemma_mod_add(x, w.val() * y, m);
                    assert((-dj) * y == -(dj * y)) by (nonlinear_arith);
                    crate::torus::lemma_mod_add(x, w.val() * y, m);
                    assert((x + w.val() * y) % m == (x + (-dj) * y) % m) by {
                        crate::torus::lemma_mod_add(w.val() * y, x, m);
                        crate::torus::lemma_mod_add((-dj) * y, x, m);
                    }
                }
            }
            j += 1;
        }
        proof {
            let np = iv.subrange(0, i as int + 1);
            assert(np.drop_last() =~= prefix);
            assert(np.last() == a.val());
            assert(ints(d@).subrange(0, level as int) =~= ints(d@));
            assert(np.len() - 1 == i);
        }
        i += 1;
    }
    proof {
        assert(iv.subrange(0, n_in as int) =~= iv.drop_last());
        assert forall|c: int| 0 <= c < acc.data.len() implies #[trigger] acc.data[c].val()
            == keyswitch_entry(m, iv, kv, n_out as int, T::width(), base_log as nat, level as nat, c) by {}
    }
    *output = acc;
    Ok(())
}

} // verus!

verus! {

/// `a` rounded to the `base_log * level` most significant bits, in place.
pub open spec fn rounded(a: int, bits: nat, base_log: nat, level: nat) -> int {
    crate::decomposition::closest_representable(a, bits, base_log, level) * pow2(
        (bits - base_log * level) as nat,
    ) as int
}

/// `sum_j d[j] * phase(block[j])`.
pub open spec fn level_phase_sum(m: int, key: Seq<int>, d: Seq<int>, block: Seq<Seq<int>>) -> int
    decreases d.len(),
{
    if d.len() == 0 {
        0
    } else {
        level_phase_sum(m, key, d.drop_last(), block) + d.last() * crate::lwe::lwe_phase(
            m,
            key,
            block[d.len() - 1],
        )
    }
}

/// `sum_i level_phase_sum` over the entries of `mask` and their blocks of `ksk`.
pub open spec fn keyswitch_phase_sum(
    m: int,
    key: Seq<int>,
    mask: Seq<int>,
    ksk: Seq<Seq<int>>,
    bits: nat,
    base_log: nat,
    level: nat,
) -> int
    decreases mask.len(),
{
    if mask.len() == 0 {
        0
    } else {
        let i = mask.len() - 1;
        keyswitch_phase_sum(m, key, mask.drop_last(), ksk, bits, base_log, level) + level_phase_sum(
            m,
            key,
            gadget_digits(mask.last(), bits, base_log, level),
            ksk.subrange(i * level, i * level + level),
        )
    }
}

/// `sum_i key[i] * (mask[i] - rounded(mask[i]))`: what rounding the mask costs.
pub open spec fn rounding_term(key: Seq<int>, mask: Seq<int>, bits: nat, base_log: nat, level: nat) -> int
    decreases mask.len(),
{
    if mask.len() == 0 {
        0
    } else {
        rounding_term(key, mask.drop_last(), bits, base_log, level) + key[mask.len() - 1] * (mask.last()
            - rounded(mask.last(), bits, base_log, level))
    }
}

/// `sum_j d[j] * e[j]`.
pub open spec fn digit_error(d: Seq<int>, e: Seq<int>) -> int
    decreases d.len(),
{
    if d.len() == 0 {
        0
    } else {
        digit_error(d.drop_last(), e) + d.last() * e[d.len() - 1]
    }
}

/// `sum_i digit_error(digits(mask[i]), errors of block i)`: what the key's errors cost.
pub open spec fn error_term(errors: Seq<int>, mask: Seq<int>, bits: nat, base_log: nat, level: nat) -> int
    decreases mask.len(),
{
    if mask.len() == 0 {
        0
    } else {
        let i = mask.len() - 1;
        error_term(errors, mask.drop_last(), bits, base_log, level) + digit_error(
            gadget_digits(mask.last(), bits, base_log, level),
            errors.subrange(i * level, i * level + level),
        )
    }
}

/// `sum_j d[j] * 2^(bits - (j + 1) * base_log)`.
pub open spec fn gadget_sum(d: Seq<int>, bits: nat, base_log: nat) -> int
    decreases d.len(),
{
    if d.len() == 0 {
        0
    } else {
        gadget_sum(d.drop_last(), bits, base_log) + d.last() * pow2((bits - d.len() * base_log) as nat) as int
    }
}

proof fn lemma_phase_reduced(m: int, key: Seq<int>, x: Seq<int>)
    requires
        m > 0,
        x.len() >= 1,
        key.len() >= x.len() - 1,
    ensures
        crate::lwe::lwe_phase(m, key, Seq::new(x.len(), |c: int| x[c] % m)) == crate::lwe::lwe_phase(m, key, x),
{
    let z = Seq::new(x.len(), |c: int| x[c] % m);
    assert forall|c: int| 0 <= c < z.len() implies #[trigger] z[c] == (1 * x[c] + 0 * x[c]) % m by {}
    crate::lwe::lemma_phase_linear(m, key, x, x, z, 1, 0);
    vstd::arithmetic::div_mod::lemma_mod_twice(
        crate::lwe::lwe_phase(m, key, x) + 0,
        m,
    );
    assert(crate::lwe::lwe_phase(m, key, x) == (x.last() - crate::torus::dot(x.drop_last(), key)) % m);
    vstd::arithmetic::div_mod::lemma_mod_twice(x.last() - crate::torus::dot(x.drop_last(), key), m);
}

proof fn lemma_level_phase(m: int, key: Seq<int>, x: Seq<int>, d: Seq<int>, block: Seq<Seq<int>>)
    requires
        m > 0,
        x.len() >= 1,
        key.len() >= x.len() - 1,
        block.len() >= d.len(),
        forall|j: int| 0 <= j < block.len() ==> (#[trigger] block[j]).len() == x.len(),
    ensures
        crate::lwe::lwe_phase(m, key, Seq::new(x.len(), |c: int| (x[c] - level_sum(d, block, c)) % m))
            == (crate::lwe::lwe_phase(m, key, x) - level_phase_sum(m, key, d, block)) % m,
    decreases d.len(),
{
    let z = Seq::new(x.len(), |c: int| (x[c] - level_sum(d, block, c)) % m);
    if d.len() == 0 {
        lemma_phase_reduced(m, key, x);
        assert(z =~= Seq::new(x.len(), |c: int| x[c] % m));
        crate::torus::lemma_mod_add(crate::lwe::lwe_phase(m, key, x), 0, m);
        vstd::arithmetic::div_mod::lemma_mod_twice(x.last() - crate::torus::dot(x.drop_last(), key), m);
    } else {
        let dp = d.drop_last();
        let j = d.len() - 1;
        let dj = d.last();
        let y = block[j];
        lemma_level_phase(m, key, x, dp, block);
        let prev = Seq::new(x.len(), |c: int| (x[c] - level_sum(dp, block, c)) % m);
        assert forall|c: int| 0 <= c < z.len() implies #[trigger] z[c] == (1 * prev[c] + (-dj) * y[c])
            % m by {
            assert(level_sum(d, block, c) == level_sum(dp, block, c) + dj * y[c]);
            crate::torus::lemma_mod_add(x[c] - level_sum(dp, block, c), (-dj) * y[c], m);
            assert((-dj) * y[c] == -(dj * y[c])) by (nonlinear_arith);
        }
        crate::lwe::lemma_phase_linear(m, key, prev, y, z, 1, -dj);
        let pp = crate::lwe::lwe_phase(m, key, x);
        let lp = level_phase_sum(m, key, dp, block);
        let py = crate::lwe::lwe_phase(m, key, y);
        assert(level_phase_sum(m, key, d, block) == lp + dj * py);
        assert((-dj) * py == -(dj * py)) by (nonlinear_arith);
        crate::torus::lemma_mod_add(pp - lp, -(dj * py), m);
    }
}

proof fn lemma_keyswitch_phase(
    m: int,
    key: Seq<int>,
    x: Seq<int>,
    mask: Seq<int>,
    ksk: Seq<Seq<int>>,
    bits: nat,
    base_log: nat,
    level: nat,
)
    requires
        m > 0,
        x.len() >= 1,
        key.len() >= x.len() - 1,
        ksk.len() >= mask.len() * level,
        forall|t: int| 0 <= t < ksk.len() ==> (#[trigger] ksk[t]).len() == x.len(),
        forall|a: int| (#[trigger] gadget_digits(a, bits, base_log, level)).len() == level,
    ensures
        crate::lwe::lwe_phase(
            m,
            key,
            Seq::new(x.len(), |c: int| (x[c] - keyswitch_sum(mask, ksk, bits, base_log, level, c)) % m),
        ) == (crate::lwe::lwe_phase(m, key, x) - keyswitch_phase_sum(m, key, mask, ksk, bits, base_log, level))
            % m,
    decreases mask.len(),
{
    let z = Seq::new(x.len(), |c: int| (x[c] - keyswitch_sum(mask, ksk, bits, base_log, level, c)) % m);
    if mask.len() == 0 {
        lemma_phase_reduced(m, key, x);
        assert(z =~= Seq::new(x.len(), |c: int| x[c] % m));
        crate::torus::lemma_mod_add(crate::lwe::lwe_phase(m, key, x), 0, m);
        vstd::arithmetic::div_mod::lemma_mod_twice(x.last() - crate::torus::dot(x.drop_last(), key), m);
    } else {
        let mp = mask.drop_last();
        let i = mask.len() - 1;
        assert(i * level + level <= mask.len() * level) by (nonlinear_arith)
            requires i == mask.len() - 1;
        assert(mp.len() * level <= mask.len() * level) by (nonlinear_arith)
            requires mp.len() <= mask.len();
        lemma_keyswitch_phase(m, key, x, mp, ksk, bits, base_log, level);
        let d = gadget_digits(mask.last(), bits, base_log, level);
        let block = ksk.subrange(i * level, i * level + level);
        let xp = Seq::new(x.len(), |c: int| x[c] - keyswitch_sum(mp, ksk, bits, base_log, level, c));
        lemma_level_phase(m, key, xp, d, block);
        assert(z =~= Seq::new(xp.len(), |c: int| (xp[c] - level_sum(d, block, c)) % m));
        lemma_phase_reduced(m, key, xp);
        assert(Seq::new(xp.len(), |c: int| xp[c] % m) =~= Seq::new(
            x.len(),
            |c: int| (x[c] - keyswitch_sum(mp, ksk, bits, base_log, level, c)) % m,
        ));
        let pp = crate::lwe::lwe_phase(m, key, x);
        let sp = keyswitch_phase_sum(m, key, mp, ksk, bits, base_log, level);
        let lp = level_phase_sum(m, key, d, block);
        crate::torus::lemma_mod_add(pp - sp, lp, m);
    }
}

} // verus!

verus! {

proof fn lemma_gadget_sum(d: Seq<int>, bits: nat, base_log: nat)
    requires
        base_log * d.len() <= bits,
    ensures
        gadget_sum(d, bits, base_log) == crate::decomposition::digits_value(d, base_log) * pow2(
            (bits - base_log * d.len()) as nat,
        ) as int,
    decreases d.len(),
{
    if d.len() > 0 {
        let dp = d.drop_last();
        let len = d.len();
        assert(base_log * dp.len() <= base_log * len) by (nonlinear_arith)
            requires dp.len() <= len;
        lemma_gadget_sum(dp, bits, base_log);
        assert(base_log * len == base_log * (len - 1) + base_log) by (nonlinear_arith);
        assert(len * base_log == base_log * len) by (nonlinear_arith);
        let lo = (bits - base_log * len) as nat;
        vstd::arithmetic::power2::lemma_pow2_adds(base_log, lo);
        assert(base_log + lo == (bits - base_log * dp.len()) as nat);
        let b = pow2(base_log) as int;
        let p = pow2(lo) as int;
        let dv = crate::decomposition::digits_value(dp, base_log);
        assert((dv * b + d.last()) * p == dv * (b * p) + d.last() * p) by (nonlinear_arith);
    }
}

proof fn lemma_balanced_digits(v: int, base_log: nat, count: nat)
    requires
        base_log >= 1,
    ensures
        (v - crate::decomposition::digits_value(
            crate::decomposition::balanced_digits(v, pow2(base_log) as int, count),
            base_log,
        )) % pow2(base_log * count) as int == 0,
        crate::decomposition::balanced_digits(v, pow2(base_log) as int, count).len() == count,
    decreases count,
{
    let b = pow2(base_log) as int;
    vstd::arithmetic::power2::lemma_pow2_pos(base_log);
    if count == 0 {
        assert(base_log * 0 == 0) by (nonlinear_arith);
        assert(pow2(0) == 1) by {
            vstd::arithmetic::power2::lemma2_to64();
        }
    } else {
        let r = v % b;
        let next = if r >= b / 2 { v / b + 1 } else { v / b };
        let digit = if r >= b / 2 { r - b } else { r };
        vstd::arithmetic::div_mod::lemma_fundamental_div_mod(v, b);
        assert(v == next * b + digit) by (nonlinear_arith)
            requires
                v == b * (v / b) + r,
                (next == v / b && digit == r) || (next == v / b + 1 && digit == r - b),
        ;
        lemma_balanced_digits(next, base_log, (count - 1) as nat);
        let x = crate::decomposition::balanced_digits(next, b, (count - 1) as nat);
        let full = crate::decomposition::balanced_digits(v, b, count);
        assert(full == x.push(digit));
        assert(full.drop_last() =~= x);
        let dvx = crate::decomposition::digits_value(x, base_log);
        assert(crate::decomposition::digits_value(full, base_log) == dvx * b + digit);
        let p = pow2(base_log * (count - 1) as nat) as int;
        vstd::arithmetic::power2::lemma_pow2_pos(base_log * (count - 1) as nat);
        vstd::arithmetic::div_mod::lemma_fundamental_div_mod(next - dvx, p);
        let kq = (next - dvx) / p;
        assert(v - (dvx * b + digit) == (next - dvx) * b) by (nonlinear_arith)
            requires v == next * b + digit;
        vstd::arithmetic::power2::lemma_pow2_adds(base_log * (count - 1) as nat, base_log);
        assert(base_log * (count - 1) as nat + base_log == base_log * count) by (nonlinear_arith)
            requires count >= 1;
        assert((next - dvx) * b == (p * b) * kq) by (nonlinear_arith)
            requires
                next - dvx == p * kq + 0,
        ;
        assert(p * b > 0) by (nonlinear_arith)
            requires
                p > 0,
                b > 0,
        ;
        vstd::arithmetic::div_mod::lemma_mod_multiples_basic(kq, p * b);
        assert(kq * (p * b) == (p * b) * kq) by (nonlinear_arith);
    }
}

/// The digits recompose to `a` rounded: `sum_j d[j] * 2^(bits - (j + 1) * base_log)` and
/// `rounded(a)` agree modulo `2^bits`.
proof fn lemma_gadget_digits_recompose(a: int, bits: nat, base_log: nat, level: nat)
    requires
        base_log >= 1,
        level >= 1,
        base_log * level <= bits,
    ensures
        (rounded(a, bits, base_log, level) - gadget_sum(gadget_digits(a, bits, base_log, level), bits, base_log))
            % pow2(bits) as int == 0,
        gadget_digits(a, bits, base_log, level).len() == level,
{
    let c = crate::decomposition::closest_representable(a, bits, base_log, level);
    let d = gadget_digits(a, bits, base_log, level);
    lemma_balanced_digits(c, base_log, level);
    lemma_gadget_sum(d, bits, base_log);
    let dv = crate::decomposition::digits_value(d, base_log);
    let p = pow2(base_log * level) as int;
    let s = pow2((bits - base_log * level) as nat) as int;
    vstd::arithmetic::power2::lemma_pow2_pos(base_log * level);
    vstd::arithmetic::div_mod::lemma_fundamental_div_mod(c - dv, p);
    let kq = (c - dv) / p;
    vstd::arithmetic::power2::lemma_pow2_adds(base_log * level, (bits - base_log * level) as nat);
    assert(c * s - dv * s == (p * s) * kq) by (nonlinear_arith)
        requires
            c - dv == p * kq + 0,
    ;
    vstd::arithmetic::power2::lemma_pow2_pos((bits - base_log * level) as nat);
    assert(p * s > 0) by (nonlinear_arith)
        requires
            p > 0,
            s > 0,
    ;
    vstd::arithmetic::div_mod::lemma_mod_multiples_basic(kq, p * s);
    assert(kq * (p * s) == (p * s) * kq) by (nonlinear_arith);
}

proof fn lemma_level_value(
    m: int,
    key: Seq<int>,
    d: Seq<int>,
    block: Seq<Seq<int>>,
    e: Seq<int>,
    coef: int,
    bits: nat,
    base_log: nat,
)
    requires
        m > 0,
        block.len() >= d.len(),
        e.len() >= d.len(),
        forall|j: int|
            0 <= j < d.len() ==> #[trigger] crate::lwe::lwe_phase(m, key, block[j]) == (coef * pow2(
                (bits - (j + 1) * base_log) as nat,
            ) + e[j]) % m,
    ensures
        level_phase_sum(m, key, d, block) % m == (coef * gadget_sum(d, bits, base_log) + digit_error(d, e)) % m,
    decreases d.len(),
{
    if d.len() > 0 {
        let dp = d.drop_last();
        let j = d.len() - 1;
        lemma_level_value(m, key, dp, block, e, coef, bits, base_log);
        let lp = level_phase_sum(m, key, dp, block);
        let g = pow2((bits - (j + 1) * base_log) as nat) as int;
        assert((j + 1) * base_log == d.len() * base_log);
        assert(d.len() * base_log == base_log * d.len()) by (nonlinear_arith);
        let dj = d.last();
        let ph = crate::lwe::lwe_phase(m, key, block[j]);
        let gs = gadget_sum(dp, bits, base_log);
        let de = digit_error(dp, e);
        crate::torus::lemma_mod_mul(dj, coef * g + e[j], m);
        crate::torus::lemma_mod_add(lp, dj * ph, m);
        crate::torus::lemma_mod_add(lp, dj * (coef * g + e[j]), m);
        crate::torus::lemma_mod_add(dj * ph, lp, m);
        crate::torus::lemma_mod_add(dj * (coef * g + e[j]), lp, m);
        crate::torus::lemma_mod_add(dj * (coef * g + e[j]), coef * gs + de, m);
        assert(coef * gs + de + dj * (coef * g + e[j]) == coef * (gs + dj * g) + (de + dj * e[j]))
            by (nonlinear_arith);
    }
}

proof fn lemma_mask_value(
    m: int,
    bits: nat,
    base_log: nat,
    level: nat,
    in_key: Seq<int>,
    out_key: Seq<int>,
    mask: Seq<int>,
    ksk: Seq<Seq<int>>,
    errors: Seq<int>,
)
    requires
        m == pow2(bits),
        base_log >= 1,
        level >= 1,
        base_log * level <= bits,
        in_key.len() >= mask.len(),
        ksk.len() >= mask.len() * level,
        errors.len() >= mask.len() * level,
        forall|t: int|
            0 <= t < mask.len() * level ==> #[trigger] crate::lwe::lwe_phase(m, out_key, ksk[t]) == (in_key[t
                / level as int] * pow2((bits - (t % level as int + 1) * base_log) as nat) + errors[t]) % m,
    ensures
        keyswitch_phase_sum(m, out_key, mask, ksk, bits, base_log, level) % m == (crate::torus::dot(mask, in_key)
            - rounding_term(in_key, mask, bits, base_log, level) + error_term(errors, mask, bits, base_log, level))
            % m,
    decreases mask.len(),
{
    vstd::arithmetic::power2::lemma_pow2_pos(bits);
    if mask.len() > 0 {
        let mp = mask.drop_last();
        let i = mask.len() - 1;
        assert(mp.len() * level <= mask.len() * level) by (nonlinear_arith)
            requires mp.len() <= mask.len();
        lemma_mask_value(m, bits, base_log, level, in_key, out_key, mp, ksk, errors);
        let a = mask.last();
        let d = gadget_digits(a, bits, base_log, level);
        lemma_gadget_digits_recompose(a, bits, base_log, level);
        let block = ksk.subrange(i * level, i * level + level);
        let eb = errors.subrange(i * level, i * level + level);
        assert(i * level + level == mask.len() * level) by (nonlinear_arith)
            requires i == mask.len() - 1;
        assert forall|j: int| 0 <= j < d.len() implies #[trigger] crate::lwe::lwe_phase(m, out_key, block[j])
            == (in_key[i] * pow2((bits - (j + 1) * base_log) as nat) + eb[j]) % m by {
            let t = i * level + j;
            vstd::arithmetic::div_mod::lemma_fundamental_div_mod_converse(t, level as int, i, j);
            assert(block[j] == ksk[t]);
            assert(eb[j] == errors[t]);
        }
        lemma_level_value(m, out_key, d, block, eb, in_key[i], bits, base_log);
        let lp = level_phase_sum(m, out_key, d, block);
        let kp = keyswitch_phase_sum(m, out_key, mp, ksk, bits, base_log, level);
        let s = in_key[i];
        let gs = gadget_sum(d, bits, base_log);
        let r = rounded(a, bits, base_log, level);
        let de = digit_error(d, eb);
        let prev = crate::torus::dot(mp, in_key) - rounding_term(in_key, mp, bits, base_log, level)
            + error_term(errors, mp, bits, base_log, level);
        // s * gs and s * r agree modulo m
        vstd::arithmetic::div_mod::lemma_fundamental_div_mod(r - gs, m);
        let kq = (r - gs) / m;
        assert(s * gs + de == s * r + de - m * (s * kq)) by (nonlinear_arith)
            requires r - gs == m * kq + 0;
        vstd::arithmetic::div_mod::lemma_mod_sub_multiples_vanish(s * r + de, m);
        vstd::arithmetic::div_mod::lemma_mod_multiples_vanish(-(s * kq), s * r + de, m);
        assert(s * r + de - m * (s * kq) == m * (-(s * kq)) + (s * r + de)) by (nonlinear_arith);
        crate::torus::lemma_mod_add(kp, lp, m);
        crate::torus::lemma_mod_add(lp, kp, m);
        crate::torus::lemma_mod_add(prev, lp, m);
        crate::torus::lemma_mod_add(lp, prev, m);
        crate::torus::lemma_mod_add(s * r + de, prev, m);
        assert(crate::torus::dot(mask, in_key) == crate::torus::dot(mp, in_key) + a * s);
        assert(prev + (s * r + de) == crate::torus::dot(mask, in_key) - rounding_term(in_key, mask, bits, base_log, level)
            + error_term(errors, mask, bits, base_log, level)) by {
            assert(s * (a - r) == a * s - s * r) by (nonlinear_arith);
        }
    }
}

/// Key switching keeps the message: when each ciphertext of the key-switching key decrypts
/// under the output key to its gadget multiple of an input-key coefficient plus an error, the
/// key-switched ciphertext decrypts to the input's phase, plus what rounding the input mask
/// costs (`sum_i s_i * (a_i - rounded(a_i))`), minus the errors weighted by the digits.
pub proof fn lemma_keyswitch_preserves_message(
    bits: nat,
    base_log: nat,
    level: nat,
    in_key: Seq<int>,
    out_key: Seq<int>,
    input: Seq<int>,
    ksk: Seq<Seq<int>>,
    errors: Seq<int>,
    output: Seq<int>,
)
    requires
        decomposition_fits(bits as int, base_log as int, level as int),
        input.len() == in_key.len() + 1,
        ksk.len() == in_key.len() * level,
        errors.len() == ksk.len(),
        forall|t: int| 0 <= t < ksk.len() ==> (#[trigger] ksk[t]).len() == out_key.len() + 1,
        forall|t: int|
            0 <= t < ksk.len() ==> #[trigger] crate::lwe::lwe_phase(pow2(bits) as int, out_key, ksk[t])
                == (in_key[t / level as int] * pow2((bits - (t % level as int + 1) * base_log) as nat)
                + errors[t]) % pow2(bits) as int,
        output.len() == out_key.len() + 1,
        forall|c: int|
            0 <= c < output.len() ==> #[trigger] output[c] == keyswitch_entry(
                pow2(bits) as int,
                input,
                ksk,
                out_key.len() as int,
                bits,
                base_log,
                level,
                c,
            ),
    ensures
        crate::lwe::lwe_phase(pow2(bits) as int, out_key, output) == (crate::lwe::lwe_phase(
            pow2(bits) as int,
            in_key,
            input,
        ) + rounding_term(in_key, input.drop_last(), bits, base_log, level) - error_term(
            errors,
            input.drop_last(),
            bits,
            base_log,
            level,
        )) % pow2(bits) as int,
{
    let m = pow2(bits) as int;
    vstd::arithmetic::power2::lemma_pow2_pos(bits);
    let n = out_key.len() as int;
    let mask = input.drop_last();
    let body = input.last();
    let x = Seq::new((n + 1) as nat, |c: int| if c == n { body } else { 0 });
    assert forall|a: int| (#[trigger] gadget_digits(a, bits, base_log, level)).len() == level by {
        lemma_gadget_digits_recompose(a, bits, base_log, level);
    }
    lemma_keyswitch_phase(m, out_key, x, mask, ksk, bits, base_log, level);
    assert(output =~= Seq::new(
        x.len(),
        |c: int| (x[c] - keyswitch_sum(mask, ksk, bits, base_log, level, c)) % m,
    ));
    assert(x.drop_last() =~= Seq::new(n as nat, |c: int| 0));
    lemma_dot_zero_seq(x.drop_last(), out_key);
    lemma_mask_value(m, bits, base_log, level, in_key, out_key, mask, ksk, errors);
    let kp = keyswitch_phase_sum(m, out_key, mask, ksk, bits, base_log, level);
    let dt = crate::torus::dot(mask, in_key);
    let rt = rounding_term(in_key, mask, bits, base_log, level);
    let et = error_term(errors, mask, bits, base_log, level);
    assert(crate::lwe::lwe_phase(m, out_key, x) == body % m);
    crate::torus::lemma_mod_add(body, kp, m);
    crate::torus::lemma_mod_add(body, dt - rt + et, m);
    crate::torus::lemma_mod_add(body, kp % m, m);
    crate::torus::lemma_mod_add(body, (dt - rt + et) % m, m);
    crate::torus::lemma_mod_add(body - dt, rt - et, m);
    crate::torus::lemma_mod_add(rt - et, body - dt, m);
    assert(body - (dt - rt + et) == (body - dt) + (rt - et));
}

proof fn lemma_dot_zero_seq(a: Seq<int>, b: Seq<int>)
    requires
        forall|i: int| 0 <= i < a.len() ==> #[trigger] a[i] == 0,
    ensures
        crate::torus::dot(a, b) == 0,
    decreases a.len(),
{
    if a.len() > 0 {
        lemma_dot_zero_seq(a.drop_last(), b);
        assert(a.last() == a[a.len() - 1]);
    }
}

} // verus!
