//! LWE secret keys and ciphertexts: encryption, decryption and linear combinations.
use crate::error::EngineError;
use crate::torus::{copy_vec, dot, lemma_dot_linear, lemma_mod_add, lemma_mod_mul, vals, UnsignedTorus};
use vstd::prelude::*;

verus! {

/// The distribution that secret-key coefficients are drawn from.
#[derive(Clone, Copy, Debug, PartialEq, Eq, Structural)]
pub enum KeyKind {
    Binary,
    Ternary,
    Gaussian,
}

/// Whether every coefficient of `key` (values modulo `m`) is allowed for `kind`.
pub open spec fn key_fits_kind(kind: KeyKind, key: Seq<int>, m: int) -> bool {
    match kind {
        KeyKind::Binary => forall|i: int| 0 <= i < key.len() ==> #[trigger] key[i] == 0 || key[i] == 1,
        KeyKind::Ternary => forall|i: int|
            0 <= i < key.len() ==> #[trigger] key[i] == 0 || key[i] == 1 || key[i] == m - 1,
        KeyKind::Gaussian => true,
    }
}

/// The phase `body - <mask, key>` of an LWE ciphertext `ct = mask ++ [body]`, modulo `m`.
pub open spec fn lwe_phase(m: int, key: Seq<int>, ct: Seq<int>) -> int {
    (ct.last() - dot(ct.drop_last(), key)) % m
}

/// An LWE secret key: `n` small coefficients, each stored as the torus element congruent to it.
pub struct LweSecretKey<T> {
    pub kind: KeyKind,
    pub coefficients: Vec<T>,
}

/// An LWE ciphertext: a mask of `n` torus elements followed by one body element.
pub struct LweCiphertext<T> {
    pub data: Vec<T>,
}

impl<T: UnsignedTorus> LweSecretKey<T> {
    pub open spec fn key(&self) -> Seq<int> {
        vals(self.coefficients@)
    }

    pub open spec fn wf(&self) -> bool {
        key_fits_kind(self.kind, self.key(), T::modulus())
    }

    pub fn lwe_dimension(&self) -> (r: usize)
        ensures
            r == self.coefficients.len(),
    {
        self.coefficients.len()
    }

    /// A binary key whose `i`-th coefficient is the low bit of `draws[i]`.
    pub fn generate_binary(draws: &Vec<u64>) -> (r: Self)
        ensures
            r.wf(),
            r.kind == KeyKind::Binary,
            r.key() == Seq::new(draws.len() as nat, |i: int| draws[i] as int % 2),
    {
        let mut coefficients: Vec<T> = Vec::new();
        let mut i: usize = 0;
        while i < draws.len()
            invariant
                i <= draws.len(),
                coefficients.len() == i,
                forall|j: int| 0 <= j < i ==> #[trigger] coefficients[j].val() == draws[j] as int % 2,
            decreases draws.len() - i,
        {
            let c = T::from_u64(draws[i] % 2);
            proof {
                T::lemma_val_bounds(c);
                vstd::arithmetic::div_mod::lemma_small_mod((draws[i as int] % 2) as nat, T::modulus() as nat);
            }
            coefficients.push(c);
            i += 1;
        }
        let r = LweSecretKey { kind: KeyKind::Binary, coefficients };
        assert(r.key() =~= Seq::new(draws.len() as nat, |i: int| draws[i] as int % 2));
        r
    }

    /// A ternary key whose `i`-th coefficient is `draws[i] % 3 - 1`.
    pub fn generate_ternary(draws: &Vec<u64>) -> (r: Self)
        ensures
            r.wf(),
            r.kind == KeyKind::Ternary,
            r.key() == Seq::new(
                draws.len() as nat,
                |i: int| (draws[i] as int % 3 - 1) % T::modulus(),
            ),
    {
        let mut coefficients: Vec<T> = Vec::new();
        let mut i: usize = 0;
        while i < draws.len()
            invariant
                i <= draws.len(),
                coefficients.len() == i,
                forall|j: int|
                    0 <= j < i ==> #[trigger] coefficients[j].val() == (draws[j] as int % 3 - 1)
                        % T::modulus(),
            decreases draws.len() - i,
        {
            let c = T::from_signed((draws[i] % 3) as i64 - 1);
            coefficients.push(c);
            i += 1;
        }
        let r = LweSecretKey { kind: KeyKind::Ternary, coefficients };
        assert(r.key() =~= Seq::new(
            draws.len() as nat,
            |i: int| (draws[i] as int % 3 - 1) % T::modulus(),
        ));
        assert forall|j: int| 0 <= j < r.key().len() implies #[trigger] r.key()[j] == 0 || r.key()[j]
            == 1 || r.key()[j] == T::modulus() - 1 by {
            T::lemma_val_bounds(r.coefficients[j]);
            let d = draws[j] as int % 3 - 1;
            if d == -1 {
                vstd::arithmetic::div_mod::lemma_mod_add_multiples_vanish(-1, T::modulus());
                vstd::arithmetic::div_mod::lemma_small_mod((T::modulus() - 1) as nat, T::modulus() as nat);
            } else {
                vstd::arithmetic::div_mod::lemma_small_mod(d as nat, T::modulus() as nat);
            }
        }
        r
    }

    /// A key whose coefficients are the given samples of a discrete Gaussian.
    pub fn generate_gaussian(samples: &Vec<i64>) -> (r: Self)
        ensures
            r.wf(),
            r.kind == KeyKind::Gaussian,
            r.key() == Seq::new(samples.len() as nat, |i: int| samples[i] as int % T::modulus()),
    {
        let mut coefficients: Vec<T> = Vec::new();
        let mut i: usize = 0;
        while i < samples.len()
            invariant
                i <= samples.len(),
                coefficients.len() == i,
                forall|j: int|
                    0 <= j < i ==> #[trigger] coefficients[j].val() == samples[j] as int % T::modulus(),
            decreases samples.len() - i,
        {
            coefficients.push(T::from_signed(samples[i]));
            i += 1;
        }
        let r = LweSecretKey { kind: KeyKind::Gaussian, coefficients };
        assert(r.key() =~= Seq::new(samples.len() as nat, |i: int| samples[i] as int % T::modulus()));
        r
    }

    /// Encrypts `plaintext` with the given uniformly random `mask` and the given `error` sample:
    /// the body is `<mask, key> + plaintext + error`.
    pub fn encrypt(&self, plaintext: T, mask: &Vec<T>, error: T) -> (r: LweCiphertext<T>)
        requires
            mask.len() == self.coefficients.len(),
        ensures
            r.lwe_dimension() == self.coefficients.len(),
            r.mask() == vals(mask@),
            r.body() == (dot(vals(mask@), self.key()) + plaintext.val() + error.val()) % T::modulus(),
    {
        let ip = inner_product(mask, &self.coefficients);
        let body = ip.torus_add(plaintext).torus_add(error);
        let mut data = copy_vec(mask);
        data.push(body);
        proof {
            let m = T::modulus();
            T::lemma_modulus();
            lemma_mod_add(dot(vals(mask@), self.key()), plaintext.val(), m);
            lemma_mod_add(dot(vals(mask@), self.key()) + plaintext.val(), error.val(), m);
            assert(vals(data@).drop_last() =~= vals(mask@));
        }
        LweCiphertext { data }
    }

    /// The phase `body - <mask, key>` of `ct`: the plaintext plus the encryption error.
    pub fn decrypt(&self, ct: &LweCiphertext<T>) -> (r: T)
        requires
            ct.wf(),
            ct.lwe_dimension() == self.coefficients.len(),
        ensures
            r.val() == lwe_phase(T::modulus(), self.key(), vals(ct.data@)),
    {
        let n = ct.data.len() - 1;
        let body = ct.data[n];
        let mut mask: Vec<T> = Vec::new();
        let mut i: usize = 0;
        while i < n
            invariant
                n == ct.data.len() - 1,
                i <= n,
                mask@ == ct.data@.subrange(0, i as int),
            decreases n - i,
        {
            mask.push(ct.data[i]);
            i += 1;
        }
        let ip = inner_product(&mask, &self.coefficients);
        proof {
            assert(mask@ == ct.data@.drop_last());
            assert(vals(mask@) =~= vals(ct.data@).drop_last());
            T::lemma_modulus();
            lemma_mod_add(body.val(), dot(vals(mask@), self.key()), T::modulus());
        }
        body.torus_sub(ip)
    }
}

/// `<a, b>` over the torus, for `a.len() <= b.len()`.
pub fn inner_product<T: UnsignedTorus>(a: &Vec<T>, b: &Vec<T>) -> (r: T)
    requires
        a.len() <= b.len(),
    ensures
        r.val() == dot(vals(a@), vals(b@)) % T::modulus(),
{
    let mut acc = T::zero();
    let mut i: usize = 0;
    proof {
        T::lemma_modulus();
        vstd::arithmetic::div_mod::lemma_small_mod(0, T::modulus() as nat);
        T::lemma_val_bounds(acc);
    }
    while i < a.len()
        invariant
            a.len() <= b.len(),
            i <= a.len(),
            acc.val() == dot(vals(a@).subrange(0, i as int), vals(b@)) % T::modulus(),
        decreases a.len() - i,
    {
        let p = a[i].torus_mul(b[i]);
        proof {
            let m = T::modulus();
            T::lemma_modulus();
            T::lemma_val_bounds(p);
            let s = vals(a@).subrange(0, i as int + 1);
            assert(s.drop_last() =~= vals(a@).subrange(0, i as int));
            lemma_mod_add(dot(s.drop_last(), vals(b@)), a[i as int].val() * b[i as int].val(), m);
            lemma_mod_add(dot(s.drop_last(), vals(b@)) % m, a[i as int].val() * b[i as int].val(), m);
            lemma_mod_add(acc.val(), a[i as int].val() * b[i as int].val(), m);
        }
        acc = acc.torus_add(p);
        i += 1;
    }
    assert(vals(a@).subrange(0, a.len() as int) =~= vals(a@));
    acc
}

impl<T: UnsignedTorus> LweCiphertext<T> {
    pub open spec fn wf(&self) -> bool {
        self.data.len() >= 1
    }

    pub open spec fn mask(&self) -> Seq<int> {
        vals(self.data@).drop_last()
    }

    pub open spec fn body(&self) -> int {
        vals(self.data@).last()
    }

    pub open spec fn lwe_dimension(&self) -> int {
        self.data.len() - 1
    }

    pub fn dimension(&self) -> (r: usize)
        requires
            self.wf(),
        ensures
            r == self.lwe_dimension(),
    {
        self.data.len() - 1
    }

    /// The trivial encryption of `plaintext`: zero mask, body equal to the plaintext.
    pub fn trivial_encrypt(dimension: usize, plaintext: T) -> (r: Self)
        requires
            dimension < usize::MAX,
        ensures
            r.wf(),
            r.lwe_dimension() == dimension,
            forall|i: int| 0 <= i < dimension ==> #[trigger] r.data[i].val() == 0,
            r.data[dimension as int].val() == plaintext.val(),
    {
        let mut data: Vec<T> = Vec::new();
        let mut i: usize = 0;
        while i < dimension
            invariant
                i <= dimension,
                data.len() == i,
                forall|j: int| 0 <= j < i ==> #[trigger] data[j].val() == 0,
            decreases dimension - i,
        {
            data.push(T::zero());
            i += 1;
        }
        data.push(plaintext);
        LweCiphertext { data }
    }

    /// The entry-wise sum of two ciphertexts of one dimension.
    pub fn add(&self, other: &Self) -> (r: Self)
        requires
            self.data.len() == other.data.len(),
        ensures
            r.data.len() == self.data.len(),
            forall|i: int|
                0 <= i < r.data.len() ==> #[trigger] r.data[i].val() == (self.data[i].val()
                    + other.data[i].val()) % T::modulus(),
    {
        let mut data = copy_vec(&self.data);
        let mut i: usize = 0;
        while i < data.len()
            invariant
                data.len() == self.data.len(),
                data.len() == other.data.len(),
                i <= data.len(),
                forall|j: int|
                    0 <= j < i ==> #[trigger] data[j].val() == (self.data[j].val()
                        + other.data[j].val()) % T::modulus(),
                forall|j: int| i <= j < data.len() ==> #[trigger] data[j] == self.data[j],
            decreases data.len() - i,
        {
            let v = self.data[i].torus_add(other.data[i]);
            data.set(i, v);
            i += 1;
        }
        LweCiphertext { data }
    }

    /// Adds `weight * other` to `self`, entry by entry.
    pub fn add_scaled(&mut self, other: &Self, weight: T)
        requires
            old(self).data.len() == other.data.len(),
        ensures
            final(self).data.len() == old(self).data.len(),
            forall|i: int|
                0 <= i < final(self).data.len() ==> #[trigger] final(self).data[i].val() == (
                old(self).data[i].val() + weight.val() * other.data[i].val()) % T::modulus(),
    {
        let mut i: usize = 0;
        while i < self.data.len()
            invariant
                self.data.len() == old(self).data.len(),
                self.data.len() == other.data.len(),
                i <= self.data.len(),
                forall|j: int|
                    0 <= j < i ==> #[trigger] self.data[j].val() == (old(self).data[j].val()
                        + weight.val() * other.data[j].val()) % T::modulus(),
                forall|j: int| i <= j < self.data.len() ==> #[trigger] self.data[j] == old(self).data[j],
            decreases self.data.len() - i,
        {
            let p = weight.torus_mul(other.data[i]);
            let v = self.data[i].torus_add(p);
            proof {
                T::lemma_modulus();
                lemma_mod_add(self.data[i as int].val(), weight.val() * other.data[i as int].val(), T::modulus());
            }
            self.data.set(i, v);
            i += 1;
        }
    }
}

} // verus!

verus! {

/// The values of each ciphertext of a list.
pub open spec fn lwe_list_vals<T: UnsignedTorus>(cts: Seq<LweCiphertext<T>>) -> Seq<Seq<int>> {
    cts.map_values(|ct: LweCiphertext<T>| vals(ct.data@))
}

/// `sum_i w[i] * cts[i][c]` over the ciphertexts of `cts`.
pub open spec fn column_sum(cts: Seq<Seq<int>>, w: Seq<int>, c: int) -> int
    decreases cts.len(),
{
    if cts.len() == 0 {
        0
    } else {
        column_sum(cts.drop_last(), w, c) + w[cts.len() - 1] * cts.last()[c]
    }
}

/// `sum_i w[i] * phase(cts[i])` over the ciphertexts of `cts`.
pub open spec fn phase_sum(m: int, key: Seq<int>, cts: Seq<Seq<int>>, w: Seq<int>) -> int
    decreases cts.len(),
{
    if cts.len() == 0 {
        0
    } else {
        phase_sum(m, key, cts.drop_last(), w) + w[cts.len() - 1] * lwe_phase(m, key, cts.last())
    }
}

/// The entry `c` of the affine combination `bias + sum_i w[i] * cts[i]` of ciphertexts of
/// dimension `n`, the bias being added to the body.
pub open spec fn affine_entry(m: int, n: int, cts: Seq<Seq<int>>, w: Seq<int>, bias: int, c: int) -> int {
    ((if c == n { bias } else { 0 }) + column_sum(cts, w, c)) % m
}

/// Decryption is linear: an entry-wise combination `a * x + b * y` of two ciphertexts has
/// phase `a * phase(x) + b * phase(y)`.
pub proof fn lemma_phase_linear(m: int, key: Seq<int>, x: Seq<int>, y: Seq<int>, z: Seq<int>, a: int, b: int)
    requires
        m > 0,
        z.len() >= 1,
        x.len() == z.len(),
        y.len() == z.len(),
        key.len() >= z.len() - 1,
        forall|i: int| 0 <= i < z.len() ==> #[trigger] z[i] == (a * x[i] + b * y[i]) % m,
    ensures
        lwe_phase(m, key, z) == (a * lwe_phase(m, key, x) + b * lwe_phase(m, key, y)) % m,
{
    let n = z.len() - 1;
    assert forall|i: int| 0 <= i < z.drop_last().len() implies #[trigger] z.drop_last()[i] == (a
        * x.drop_last()[i] + b * y.drop_last()[i]) % m by {
        assert(z[i] == (a * x[i] + b * y[i]) % m);
    }
    lemma_dot_linear(x.drop_last(), y.drop_last(), z.drop_last(), key, a, b, m);
    let dx = dot(x.drop_last(), key);
    let dy = dot(y.drop_last(), key);
    let dz = dot(z.drop_last(), key);
    let px = x.last() - dx;
    let py = y.last() - dy;
    assert(z.last() == z[n]);
    // phase(z) == (a*x_n + b*y_n - (a*dx + b*dy)) % m
    lemma_mod_add(a * x[n] + b * y[n], dz, m);
    lemma_mod_add(a * x[n] + b * y[n], a * dx + b * dy, m);
    lemma_mod_add(z[n], dz, m);
    assert((z[n] - dz) % m == ((a * x[n] + b * y[n]) % m - dz) % m);
    assert(((a * x[n] + b * y[n]) % m - dz) % m == (a * x[n] + b * y[n] - dz) % m);
    assert((a * x[n] + b * y[n] - dz) % m == (a * x[n] + b * y[n] - dz % m) % m);
    assert((a * x[n] + b * y[n] - (a * dx + b * dy) % m) % m == (a * x[n] + b * y[n] - (a * dx
        + b * dy)) % m);
    assert(a * x[n] + b * y[n] - (a * dx + b * dy) == a * px + b * py) by (nonlinear_arith)
        requires
            px == x[n] - dx,
            py == y[n] - dy,
    ;
    // (a * px + b * py) % m == (a * (px % m) + b * (py % m)) % m
    lemma_mod_mul(a, px, m);
    lemma_mod_mul(b, py, m);
    lemma_mod_add(a * px, b * py, m);
    lemma_mod_add(a * (px % m), b * py, m);
    lemma_mod_add(b * py, a * (px % m), m);
    lemma_mod_add(b * (py % m), a * (px % m), m);
    assert(x.last() == x[n]);
    assert(y.last() == y[n]);
}

/// Decrypting an encryption gives back the plaintext plus the error that encryption added.
pub proof fn lemma_decrypt_encrypt(m: int, key: Seq<int>, ct: Seq<int>, plaintext: int, error: int)
    requires
        m > 0,
        ct.len() >= 1,
        ct.last() == (dot(ct.drop_last(), key) + plaintext + error) % m,
    ensures
        lwe_phase(m, key, ct) == (plaintext + error) % m,
{
    let d = dot(ct.drop_last(), key);
    lemma_mod_add(d + plaintext + error, d, m);
    assert(d + plaintext + error - d == plaintext + error);
}

/// The sum of two ciphertexts decrypts to the sum of their phases.
pub proof fn lemma_add_decrypts_to_sum(m: int, key: Seq<int>, x: Seq<int>, y: Seq<int>, z: Seq<int>)
    requires
        m > 0,
        z.len() >= 1,
        x.len() == z.len(),
        y.len() == z.len(),
        key.len() >= z.len() - 1,
        forall|i: int| 0 <= i < z.len() ==> #[trigger] z[i] == (x[i] + y[i]) % m,
    ensures
        lwe_phase(m, key, z) == (lwe_phase(m, key, x) + lwe_phase(m, key, y)) % m,
{
    assert forall|i: int| 0 <= i < z.len() implies #[trigger] z[i] == (1 * x[i] + 1 * y[i]) % m by {
        assert(z[i] == (x[i] + y[i]) % m);
    }
    lemma_phase_linear(m, key, x, y, z, 1, 1);
}

/// An affine combination of ciphertexts decrypts to the same combination of their phases.
pub proof fn lemma_affine_phase(m: int, key: Seq<int>, n: int, cts: Seq<Seq<int>>, w: Seq<int>, bias: int)
    requires
        m > 0,
        n >= 0,
        key.len() >= n,
        w.len() >= cts.len(),
        forall|i: int| 0 <= i < cts.len() ==> (#[trigger] cts[i]).len() == n + 1,
    ensures
        lwe_phase(m, key, Seq::new((n + 1) as nat, |c: int| affine_entry(m, n, cts, w, bias, c)))
            == (bias + phase_sum(m, key, cts, w)) % m,
    decreases cts.len(),
{
    let z = Seq::new((n + 1) as nat, |c: int| affine_entry(m, n, cts, w, bias, c));
    if cts.len() == 0 {
        assert(z.drop_last() =~= Seq::new(n as nat, |c: int| 0));
        lemma_dot_zero(Seq::new(n as nat, |c: int| 0), key);
        lemma_mod_add(bias, 0, m);
        assert(z.last() == affine_entry(m, n, cts, w, bias, n));
    } else {
        let t = cts.len() - 1;
        let prev = cts.drop_last();
        lemma_affine_phase(m, key, n, prev, w, bias);
        let x = Seq::new((n + 1) as nat, |c: int| affine_entry(m, n, prev, w, bias, c));
        let y = cts[t];
        assert forall|c: int| 0 <= c < z.len() implies #[trigger] z[c] == (1 * x[c] + w[t] * y[c])
            % m by {
            let bc = if c == n { bias } else { 0 };
            assert(column_sum(cts, w, c) == column_sum(prev, w, c) + w[t] * y[c]);
            lemma_mod_add(bc + column_sum(prev, w, c), w[t] * y[c], m);
        }
        lemma_phase_linear(m, key, x, y, z, 1, w[t]);
        assert(phase_sum(m, key, cts, w) == phase_sum(m, key, prev, w) + w[t] * lwe_phase(m, key, y));
        lemma_mod_add(bias + phase_sum(m, key, prev, w), w[t] * lwe_phase(m, key, y), m);
        lemma_mod_add(w[t] * lwe_phase(m, key, y), bias + phase_sum(m, key, prev, w), m);
        assert(1 * lwe_phase(m, key, x) == lwe_phase(m, key, x));
    }
}

proof fn lemma_dot_zero(a: Seq<int>, b: Seq<int>)
    requires
        forall|i: int| 0 <= i < a.len() ==> #[trigger] a[i] == 0,
    ensures
        dot(a, b) == 0,
    decreases a.len(),
{
    if a.len() > 0 {
        lemma_dot_zero(a.drop_last(), b);
        assert(a.last() == a[a.len() - 1]);
    }
}

} // verus!

verus! {

/// Overwrites `output` with `bias + sum_i weights[i] * inputs[i]`, the bias added to the body.
/// All ciphertexts must share the dimension of `output`, and there must be one weight per
/// ciphertext; otherwise the mismatch is reported and `output` is left as it was.
pub fn discard_affine_transform<T: UnsignedTorus>(
    output: &mut LweCiphertext<T>,
    inputs: &Vec<LweCiphertext<T>>,
    weights: &Vec<T>,
    bias: T,
) -> (r: Result<(), EngineError>)
    requires
        old(output).wf(),
    ensures
        r == Err::<(), EngineError>(EngineError::CleartextCountMismatch) <==> weights.len()
            != inputs.len(),
        r == Err::<(), EngineError>(EngineError::InputLweDimensionMismatch) <==> (weights.len()
            == inputs.len() && exists|i: int|
            0 <= i < inputs.len() && (#[trigger] inputs[i]).data.len() != old(output).data.len()),
        r is Ok <==> weights.len() == inputs.len() && forall|i: int|
            0 <= i < inputs.len() ==> (#[trigger] inputs[i]).data.len() == old(output).data.len(),
        r is Ok ==> final(output).data.len() == old(output).data.len() && forall|c: int|
            0 <= c < final(output).data.len() ==> #[trigger] final(output).data[c].val()
                == affine_entry(
                T::modulus(),
                old(output).lwe_dimension(),
                lwe_list_vals(inputs@),
                vals(weights@),
                bias.val(),
                c,
            ),
        r is Err ==> *final(output) == *old(output),
{
    if weights.len() != inputs.len() {
        return Err(EngineError::CleartextCountMismatch);
    }
    let n = output.dimension();
    let mut k: usize = 0;
    while k < inputs.len()
        invariant
            k <= inputs.len(),
            weights.len() == inputs.len(),
            *output == *old(output),
            n + 1 == output.data.len(),
            forall|j: int| 0 <= j < k ==> (#[trigger] inputs[j]).data.len() == n + 1,
        decreases inputs.len() - k,
    {
        if inputs[k].data.len() != n + 1 {
            assert(inputs[k as int].data.len() != old(output).data.len());
            return Err(EngineError::InputLweDimensionMismatch);
        }
        k += 1;
    }
    let ghost m = T::modulus();
    let ghost w = vals(weights@);
    let mut acc = LweCiphertext::trivial_encrypt(n, bias);
    proof {
        T::lemma_modulus();
        assert forall|c: int| 0 <= c < acc.data.len() implies #[trigger] acc.data[c].val()
            == affine_entry(m, n as int, lwe_list_vals(inputs@.subrange(0, 0)), w, bias.val(), c) by {
            T::lemma_val_bounds(acc.data[c]);
            vstd::arithmetic::div_mod::lemma_small_mod(acc.data[c].val() as nat, m as nat);
        }
    }
    let mut i: usize = 0;
    while i < inputs.len()
        invariant
            m == T::modulus(),
            w == vals(weights@),
            weights.len() == inputs.len(),
            i <= inputs.len(),
            acc.data.len() == n + 1,
            forall|j: int| 0 <= j < inputs.len() ==> (#[trigger] inputs[j]).data.len() == n + 1,
            forall|c: int|
                0 <= c < acc.data.len() ==> #[trigger] acc.data[c].val() == affine_entry(
                    m,
                    n as int,
                    lwe_list_vals(inputs@.subrange(0, i as int)),
                    w,
                    bias.val(),
                    c,
                ),
        decreases inputs.len() - i,
    {
        let ghost before = acc.data@;
        acc.add_scaled(&inputs[i], weights[i]);
        proof {
            T::lemma_modulus();
            let cur = lwe_list_vals(inputs@.subrange(0, i as int + 1));
            let prev = lwe_list_vals(inputs@.subrange(0, i as int));
            assert(cur.drop_last() =~= prev);
            assert forall|c: int| 0 <= c < acc.data.len() implies #[trigger] acc.data[c].val()
                == affine_entry(m, n as int, cur, w, bias.val(), c) by {
                let bc = if c == n { bias.val() } else { 0 };
                assert(cur.last() == vals(inputs[i as int].data@));
                assert(column_sum(cur, w, c) == column_sum(prev, w, c) + w[i as int]
                    * inputs[i as int].data[c].val());
                lemma_mod_add(bc + column_sum(prev, w, c), weights[i as int].val()
                    * inputs[i as int].data[c].val(), m);
                assert(before[c].val() == affine_entry(m, n as int, prev, w, bias.val(), c));
            }
        }
        i += 1;
    }
    assert(inputs@.subrange(0, inputs.len() as int) =~= inputs@);
    *output = acc;
    Ok(())
}

} // verus!
