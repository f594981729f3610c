//! GLWE secret keys and ciphertexts: `k` mask polynomials and one body polynomial of size `N`.
use crate::lwe::{KeyKind, LweCiphertext, LweSecretKey};
use crate::polynomial::{poly_add, poly_mul, poly_mul_coeff};
use crate::torus::{lemma_mod_add, vals, UnsignedTorus};
use vstd::prelude::*;

verus! {

/// The values of each polynomial of a list.
pub open spec fn poly_vals<T: UnsignedTorus>(p: Seq<Vec<T>>) -> Seq<Seq<int>> {
    p.map_values(|v: Vec<T>| vals(v@))
}

/// `sum_{i < count} (masks[i] * keys[i])[j]`, before reduction modulo `q`.
pub open spec fn mask_key_coeff(masks: Seq<Seq<int>>, keys: Seq<Seq<int>>, j: int, count: nat) -> int
    decreases count,
{
    if count == 0 {
        0
    } else {
        mask_key_coeff(masks, keys, j, (count - 1) as nat) + poly_mul_coeff(
            masks[count - 1],
            keys[count - 1],
            j,
        )
    }
}

/// Coefficient `j` of the phase `body - sum_i mask_i * key_i` of a GLWE ciphertext.
pub open spec fn glwe_phase_coeff(m: int, key: Seq<Seq<int>>, ct: Seq<Seq<int>>, j: int) -> int {
    (ct.last()[j] - mask_key_coeff(ct, key, j, key.len())) % m
}

/// Whether every polynomial of `p` has `n` coefficients.
pub open spec fn all_sized<T>(p: Seq<Vec<T>>, n: int) -> bool {
    forall|i: int| 0 <= i < p.len() ==> (#[trigger] p[i]).len() == n
}

/// A GLWE secret key: `k` polynomials of small coefficients.
pub struct GlweSecretKey<T> {
    pub kind: KeyKind,
    pub polys: Vec<Vec<T>>,
    pub polynomial_size: usize,
}

/// A GLWE ciphertext: `k` mask polynomials followed by the body polynomial.
pub struct GlweCiphertext<T> {
    pub polys: Vec<Vec<T>>,
    pub polynomial_size: usize,
}

impl<T: UnsignedTorus> GlweSecretKey<T> {
    pub open spec fn key(&self) -> Seq<Seq<int>> {
        poly_vals(self.polys@)
    }

    pub open spec fn wf(&self) -> bool {
        &&& self.polynomial_size >= 1
        &&& all_sized(self.polys@, self.polynomial_size as int)
        &&& forall|i: int|
            0 <= i < self.polys.len() ==> crate::lwe::key_fits_kind(
                self.kind,
                #[trigger] self.key()[i],
                T::modulus(),
            )
    }

    /// The key whose `i`-th polynomial holds the coefficients of `keys[i]`.
    pub fn from_lwe_keys(keys: Vec<LweSecretKey<T>>, kind: KeyKind, polynomial_size: usize) -> (r: Self)
        requires
            polynomial_size >= 1,
            forall|i: int| 0 <= i < keys.len() ==> (#[trigger] keys[i]).coefficients.len() == polynomial_size,
            forall|i: int| 0 <= i < keys.len() ==> (#[trigger] keys[i]).wf() && keys[i].kind == kind,
        ensures
            r.wf(),
            r.kind == kind,
            r.polynomial_size == polynomial_size,
            r.key() == keys@.map_values(|k: LweSecretKey<T>| k.key()),
    {
        let mut keys = keys;
        let ghost orig = keys@;
        let mut out: Vec<Vec<T>> = Vec::new();
        let n = keys.len();
        let mut i: usize = 0;
        while i < n
            invariant
                n == orig.len(),
                keys@ == orig.subrange(i as int, n as int),
                i <= n,
                out.len() == i,
                forall|t: int| 0 <= t < i ==> (#[trigger] out[t])@ == orig[t].coefficients@,
            decreases n - i,
        {
            let k = keys.remove(0);
            out.push(k.coefficients);
            i += 1;
            proof {
                assert(keys@ =~= orig.subrange(i as int, n as int));
            }
        }
        let r = GlweSecretKey { kind, polys: out, polynomial_size };
        proof {
            assert(r.key() =~= orig.map_values(|k: LweSecretKey<T>| k.key()));
            assert forall|t: int| 0 <= t < r.polys.len() implies crate::lwe::key_fits_kind(
                kind,
                #[trigger] r.key()[t],
                T::modulus(),
            ) by {
                assert(r.key()[t] == orig[t].key());
            }
        }
        r
    }

    pub fn glwe_dimension(&self) -> (r: usize)
        ensures
            r == self.polys.len(),
    {
        self.polys.len()
    }

    /// The LWE key of dimension `k * N` whose coefficient `i * N + t` is coefficient `t` of
    /// polynomial `i`: the key under which extracted samples decrypt.
    pub fn to_lwe_secret_key(&self) -> (r: LweSecretKey<T>)
        requires
            self.wf(),
            self.polys.len() * self.polynomial_size <= usize::MAX,
        ensures
            r.kind == self.kind,
            r.coefficients.len() == self.polys.len() * self.polynomial_size,
            forall|i: int, t: int|
                0 <= i < self.polys.len() && 0 <= t < self.polynomial_size ==> r.key()[i
                    * self.polynomial_size + t] == #[trigger] self.key()[i][t],
            r.wf(),
    {
        let n = self.polynomial_size;
        let mut coefficients: Vec<T> = Vec::new();
        let mut i: usize = 0;
        while i < self.polys.len()
            invariant
                self.wf(),
                n == self.polynomial_size,
                self.polys.len() * n <= usize::MAX,
                i <= self.polys.len(),
                coefficients.len() == i * n,
                forall|i2: int, t: int|
                    0 <= i2 < i && 0 <= t < n ==> coefficients[i2 * n + t].val() == #[trigger] self.key()[i2][t],
            decreases self.polys.len() - i,
        {
            let mut t: usize = 0;
            proof {
                assert(i * n + n <= self.polys.len() * n) by (nonlinear_arith)
                    requires i < self.polys.len();
            }
            while t < n
                invariant
                    self.wf(),
                    n == self.polynomial_size,
                    i < self.polys.len(),
                    t <= n,
                    coefficients.len() == i * n + t,
                    forall|i2: int, t2: int|
                        0 <= i2 < i && 0 <= t2 < n ==> coefficients[i2 * n + t2].val()
                            == #[trigger] self.key()[i2][t2],
                    forall|t2: int| 0 <= t2 < t ==> coefficients[i * n + t2].val() == #[trigger] self.key()[i as int][t2],
                decreases n - t,
            {
                assert(self.polys[i as int].len() == n);
                let ghost before = coefficients@;
                coefficients.push(self.polys[i][t]);
                proof {
                    assert forall|i2: int, t2: int| 0 <= i2 < i && 0 <= t2 < n implies coefficients[i2
                        * n + t2].val() == #[trigger] self.key()[i2][t2] by {
                        assert(i2 * n + t2 < i * n) by (nonlinear_arith)
                            requires
                                i2 < i,
                                t2 < n,
                        ;
                        assert(coefficients[i2 * n + t2] == before[i2 * n + t2]);
                    }
                }
                t += 1;
            }
            proof {
                assert forall|i2: int, t2: int| 0 <= i2 < i + 1 && 0 <= t2 < n implies coefficients[i2
                    * n + t2].val() == #[trigger] self.key()[i2][t2] by {
                    if i2 == i {
                        assert(self.key()[i as int][t2] == self.key()[i2][t2]);
                    }
                }
                assert((i + 1) * n == i * n + n) by (nonlinear_arith);
            }
            i += 1;
        }
        let r = LweSecretKey { kind: self.kind, coefficients };
        proof {
            assert forall|i2: int, t2: int|
                0 <= i2 < self.polys.len() && 0 <= t2 < n implies r.key()[i2 * n + t2]
                == #[trigger] self.key()[i2][t2] by {
                assert(i2 * n + t2 < self.polys.len() * n) by (nonlinear_arith)
                    requires
                        i2 < self.polys.len(),
                        t2 < n,
                ;
            }
            assert forall|x: int| 0 <= x < r.key().len() implies match self.kind {
                KeyKind::Binary => r.key()[x] == 0 || r.key()[x] == 1,
                KeyKind::Ternary => r.key()[x] == 0 || r.key()[x] == 1 || r.key()[x] == T::modulus() - 1,
                KeyKind::Gaussian => true,
            } by {
                let i2 = x / n as int;
                let t2 = x % n as int;
                vstd::arithmetic::div_mod::lemma_fundamental_div_mod(x, n as int);
                assert(0 <= i2 < self.polys.len()) by {
                    if i2 >= self.polys.len() {
                        assert(i2 * n >= self.polys.len() * n) by (nonlinear_arith)
                            requires i2 >= self.polys.len(), n >= 1;
                    }
                    vstd::arithmetic::div_mod::lemma_div_pos_is_pos(x, n as int);
                }
                assert(x == i2 * n + t2) by (nonlinear_arith)
                    requires x == n * i2 + t2;
                assert(r.key()[x] == self.key()[i2][t2]);
                assert(crate::lwe::key_fits_kind(self.kind, self.key()[i2], T::modulus()));
            }
        }
        r
    }
}

} // verus!

verus! {

/// `sum_{i < count} masks[i] * keys[i]`, coefficient by coefficient.
fn mask_key_product<T: UnsignedTorus>(masks: &Vec<Vec<T>>, keys: &Vec<Vec<T>>, count: usize, n: usize) -> (r: Vec<T>)
    requires
        count <= masks.len(),
        count <= keys.len(),
        all_sized(masks@, n as int),
        all_sized(keys@, n as int),
    ensures
        r.len() == n,
        forall|j: int|
            0 <= j < n ==> #[trigger] r[j].val() == mask_key_coeff(poly_vals(masks@), poly_vals(keys@), j, count as nat)
                % T::modulus(),
{
    let ghost m = T::modulus();
    proof {
        T::lemma_modulus();
    }
    let mut acc: Vec<T> = Vec::new();
    let mut j: usize = 0;
    while j < n
        invariant
            j <= n,
            acc.len() == j,
            forall|t: int| 0 <= t < j ==> #[trigger] acc[t].val() == 0,
        decreases n - j,
    {
        acc.push(T::zero());
        j += 1;
    }
    proof {
        assert forall|t: int| 0 <= t < n implies #[trigger] acc[t].val() == mask_key_coeff(poly_vals(masks@), poly_vals(keys@), t, 0) % m by {
            vstd::arithmetic::div_mod::lemma_small_mod(0, m as nat);
        }
    }
    let mut i: usize = 0;
    while i < count
        invariant
            m == T::modulus(),
            m > 0,
            count <= masks.len(),
            count <= keys.len(),
            all_sized(masks@, n as int),
            all_sized(keys@, n as int),
            i <= count,
            acc.len() == n,
            forall|t: int|
                0 <= t < n ==> #[trigger] acc[t].val() == mask_key_coeff(poly_vals(masks@), poly_vals(keys@), t, i as nat) % m,
        decreases count - i,
    {
        let p = poly_mul(&masks[i], &keys[i]);
        let ghost before = acc@;
        acc = poly_add(&acc, &p);
        proof {
            assert forall|t: int| 0 <= t < n implies #[trigger] acc[t].val() == mask_key_coeff(poly_vals(masks@), poly_vals(keys@), t, (i + 1) as nat) % m by {
                let x = mask_key_coeff(poly_vals(masks@), poly_vals(keys@), t, i as nat);
                let y = poly_mul_coeff(vals(masks[i as int]@), vals(keys[i as int]@), t);
                assert(poly_vals(masks@)[i as int] == vals(masks[i as int]@));
                assert(poly_vals(keys@)[i as int] == vals(keys[i as int]@));
                lemma_mod_add(x, y, m);
                lemma_mod_add(x, y % m, m);
                crate::torus::lemma_mod_add(y, x, m);
                crate::torus::lemma_mod_add(x % m, y, m);
            }
        }
        i += 1;
    }
    acc
}

impl<T: UnsignedTorus> GlweSecretKey<T> {
    /// Encrypts the polynomial `plaintext` with the given uniformly random mask polynomials
    /// and the given error polynomial: body `= sum_i masks[i] * key[i] + plaintext + error`.
    pub fn encrypt(&self, plaintext: &Vec<T>, masks: &Vec<Vec<T>>, error: &Vec<T>) -> (r: GlweCiphertext<T>)
        requires
            self.wf(),
            plaintext.len() == self.polynomial_size,
            error.len() == self.polynomial_size,
            masks.len() == self.polys.len(),
            all_sized(masks@, self.polynomial_size as int),
        ensures
            r.wf(),
            r.polynomial_size == self.polynomial_size,
            r.polys.len() == self.polys.len() + 1,
            poly_vals(r.polys@).drop_last() == poly_vals(masks@),
            forall|j: int|
                0 <= j < self.polynomial_size ==> #[trigger] r.polys[self.polys.len() as int][j].val() == (
                mask_key_coeff(poly_vals(masks@), self.key(), j, self.polys.len() as nat)
                    + plaintext[j].val() + error[j].val()) % T::modulus(),
    {
        let n = self.polynomial_size;
        let k = self.polys.len();
        let ip = mask_key_product(masks, &self.polys, k, n);
        let b1 = poly_add(&ip, plaintext);
        let body = poly_add(&b1, error);
        let mut polys: Vec<Vec<T>> = Vec::new();
        let mut i: usize = 0;
        while i < k
            invariant
                k == masks.len(),
                i <= k,
                polys.len() == i,
                forall|t: int| 0 <= t < i ==> (#[trigger] polys[t])@ == masks[t]@,
            decreases k - i,
        {
            polys.push(crate::torus::copy_vec(&masks[i]));
            i += 1;
        }
        polys.push(body);
        let r = GlweCiphertext { polys, polynomial_size: n };
        proof {
            T::lemma_modulus();
            let m = T::modulus();
            assert(poly_vals(r.polys@).drop_last() =~= poly_vals(masks@));
            assert forall|j: int| 0 <= j < n implies #[trigger] r.polys[k as int][j].val() == (
            mask_key_coeff(poly_vals(masks@), self.key(), j, k as nat) + plaintext[j].val()
                + error[j].val()) % m by {
                let x = mask_key_coeff(poly_vals(masks@), self.key(), j, k as nat);
                lemma_mod_add(x, plaintext[j].val(), m);
                lemma_mod_add(x + plaintext[j].val(), error[j].val(), m);
            }
            assert forall|i2: int| 0 <= i2 < r.polys.len() implies (#[trigger] r.polys[i2]).len() == n by {
                if i2 < k {
                    assert(r.polys[i2]@ == masks[i2]@);
                }
            }
        }
        r
    }

    /// The phase `body - sum_i mask_i * key_i` of `ct`: the plaintext plus the encryption error.
    pub fn decrypt(&self, ct: &GlweCiphertext<T>) -> (r: Vec<T>)
        requires
            self.wf(),
            ct.wf(),
            ct.polynomial_size == self.polynomial_size,
            ct.polys.len() == self.polys.len() + 1,
        ensures
            r.len() == self.polynomial_size,
            forall|j: int|
                0 <= j < self.polynomial_size ==> #[trigger] r[j].val() == glwe_phase_coeff(
                    T::modulus(),
                    self.key(),
                    poly_vals(ct.polys@),
                    j,
                ),
    {
        let n = self.polynomial_size;
        let k = self.polys.len();
        let ip = mask_key_product(&ct.polys, &self.polys, k, n);
        let r = crate::polynomial::poly_sub(&ct.polys[k], &ip);
        proof {
            T::lemma_modulus();
            assert forall|j: int| 0 <= j < n implies #[trigger] r[j].val() == glwe_phase_coeff(
                T::modulus(),
                self.key(),
                poly_vals(ct.polys@),
                j,
            ) by {
                assert(poly_vals(ct.polys@).last() == vals(ct.polys[k as int]@));
                lemma_mod_add(
                    ct.polys[k as int][j].val(),
                    mask_key_coeff(poly_vals(ct.polys@), self.key(), j, k as nat),
                    T::modulus(),
                );
            }
        }
        r
    }
}

impl<T: UnsignedTorus> GlweCiphertext<T> {
    pub open spec fn wf(&self) -> bool {
        &&& self.polys.len() >= 1
        &&& self.polynomial_size >= 1
        &&& all_sized(self.polys@, self.polynomial_size as int)
    }

    pub open spec fn view_polys(&self) -> Seq<Seq<int>> {
        poly_vals(self.polys@)
    }

    pub fn glwe_dimension(&self) -> (r: usize)
        requires
            self.wf(),
        ensures
            r == self.polys.len() - 1,
    {
        self.polys.len() - 1
    }

    /// The trivial encryption of `plaintext` with `glwe_dimension` zero masks.
    pub fn trivial_encrypt(glwe_dimension: usize, plaintext: &Vec<T>) -> (r: Self)
        requires
            plaintext.len() >= 1,
        ensures
            r.wf(),
            r.polynomial_size == plaintext.len(),
            r.polys.len() == glwe_dimension + 1,
            forall|i: int, j: int|
                0 <= i < glwe_dimension && 0 <= j < plaintext.len() ==> #[trigger] r.polys[i][j].val() == 0,
            r.polys[glwe_dimension as int]@ == plaintext@,
    {
        let n = plaintext.len();
        let mut polys: Vec<Vec<T>> = Vec::new();
        let mut i: usize = 0;
        while i < glwe_dimension
            invariant
                n == plaintext.len(),
                i <= glwe_dimension,
                polys.len() == i,
                all_sized(polys@, n as int),
                forall|i2: int, j: int| 0 <= i2 < i && 0 <= j < n ==> #[trigger] polys[i2][j].val() == 0,
            decreases glwe_dimension - i,
        {
            let mut z: Vec<T> = Vec::new();
            let mut j: usize = 0;
            while j < n
                invariant
                    j <= n,
                    z.len() == j,
                    forall|t: int| 0 <= t < j ==> #[trigger] z[t].val() == 0,
                decreases n - j,
            {
                z.push(T::zero());
                j += 1;
            }
            polys.push(z);
            i += 1;
        }
        polys.push(crate::torus::copy_vec(plaintext));
        GlweCiphertext { polys, polynomial_size: n }
    }

    /// The LWE ciphertext, under the flattened key, of coefficient 0 of the phase of `self`:
    /// the body is `body[0]`, and the mask entry `i * N + t` is `a_i[0]` for `t == 0` and
    /// `-a_i[N - t]` otherwise.
    pub fn extract_sample(&self) -> (r: LweCiphertext<T>)
        requires
            self.wf(),
            self.polys.len() * self.polynomial_size < usize::MAX,
        ensures
            r.data.len() == (self.polys.len() - 1) * self.polynomial_size + 1,
            forall|i: int, t: int|
                0 <= i < self.polys.len() - 1 && 0 <= t < self.polynomial_size ==> r.data[i
                    * self.polynomial_size + t].val() == #[trigger] extracted_mask_coeff(
                    T::modulus(),
                    self.view_polys()[i],
                    t,
                ),
            r.data[(self.polys.len() - 1) * self.polynomial_size].val() == self.polys[self.polys.len()
                - 1][0].val(),
    {
        let n = self.polynomial_size;
        let k = self.polys.len() - 1;
        proof {
            T::lemma_modulus();
            assert(k * n <= self.polys.len() * n) by (nonlinear_arith)
                requires k < self.polys.len();
        }
        let mut data: Vec<T> = Vec::new();
        let mut i: usize = 0;
        while i < k
            invariant
                self.wf(),
                T::modulus() > 0,
                n == self.polynomial_size,
                k == self.polys.len() - 1,
                k * n <= self.polys.len() * n,
                self.polys.len() * n < usize::MAX,
                i <= k,
                data.len() == i * n,
                forall|i2: int, t: int|
                    0 <= i2 < i && 0 <= t < n ==> data[i2 * n + t].val() == #[trigger] extracted_mask_coeff(
                        T::modulus(),
                        self.view_polys()[i2],
                        t,
                    ),
            decreases k - i,
        {
            proof {
                assert(i * n + n <= k * n) by (nonlinear_arith)
                    requires i < k;
            }
            let a = &self.polys[i];
            assert(a.len() == n);
            let mut t: usize = 0;
            while t < n
                invariant
                    self.wf(),
                    T::modulus() > 0,
                    n == self.polynomial_size,
                    a == self.polys[i as int],
                    a.len() == n,
                    i < k,
                    k == self.polys.len() - 1,
                    t <= n,
                    data.len() == i * n + t,
                    forall|i2: int, t2: int|
                        0 <= i2 < i && 0 <= t2 < n ==> data[i2 * n + t2].val()
                            == #[trigger] extracted_mask_coeff(T::modulus(), self.view_polys()[i2], t2),
                    forall|t2: int|
                        0 <= t2 < t ==> data[i * n + t2].val() == #[trigger] extracted_mask_coeff(
                            T::modulus(),
                            self.view_polys()[i as int],
                            t2,
                        ),
                decreases n - t,
            {
                let v = if t == 0 {
                    a[0]
                } else {
                    T::zero().torus_sub(a[n - t])
                };
                proof {
                    T::lemma_val_bounds(v);
                    assert(self.view_polys()[i as int] == vals(a@));
                    if t == 0 {
                        vstd::arithmetic::div_mod::lemma_small_mod(v.val() as nat, T::modulus() as nat);
                    } else {
                        lemma_mod_add(0, a[n - t].val(), T::modulus());
                    }
                }
                let ghost before = data@;
                data.push(v);
                proof {
                    assert forall|i2: int, t2: int| 0 <= i2 < i && 0 <= t2 < n implies data[i2 * n
                        + t2].val() == #[trigger] extracted_mask_coeff(
                        T::modulus(),
                        self.view_polys()[i2],
                        t2,
                    ) by {
                        assert(i2 * n + t2 < i * n) by (nonlinear_arith)
                            requires
                                i2 < i,
                                t2 < n,
                        ;
                        assert(data[i2 * n + t2] == before[i2 * n + t2]);
                    }
                }
                t += 1;
            }
            proof {
                assert forall|i2: int, t2: int| 0 <= i2 < i + 1 && 0 <= t2 < n implies data[i2 * n
                    + t2].val() == #[trigger] extracted_mask_coeff(
                    T::modulus(),
                    self.view_polys()[i2],
                    t2,
                ) by {
                    if i2 == i {
                        assert(self.view_polys()[i as int] == self.view_polys()[i2]);
                    }
                }
                assert((i + 1) * n == i * n + n) by (nonlinear_arith);
            }
            i += 1;
        }
        let ghost before = data@;
        data.push(self.polys[k][0]);
        proof {
            assert forall|i2: int, t2: int| 0 <= i2 < k && 0 <= t2 < n implies data[i2 * n + t2].val()
                == #[trigger] extracted_mask_coeff(T::modulus(), self.view_polys()[i2], t2) by {
                assert(i2 * n + t2 < k * n) by (nonlinear_arith)
                    requires
                        i2 < k,
                        t2 < n,
                ;
                assert(data[i2 * n + t2] == before[i2 * n + t2]);
            }
        }
        LweCiphertext { data }
    }
}

/// Mask entry `t` that sample extraction takes from the mask polynomial `a`.
pub open spec fn extracted_mask_coeff(m: int, a: Seq<int>, t: int) -> int {
    if t == 0 {
        a[0]
    } else {
        (-a[a.len() - t]) % m
    }
}

} // verus!

verus! {

/// `sum_{lo <= i < hi} f(i)`.
pub open spec fn sum_up(f: spec_fn(int) -> int, lo: int, hi: int) -> int
    decreases hi - lo,
{
    if hi <= lo {
        0
    } else {
        sum_up(f, lo, hi - 1) + f(hi - 1)
    }
}

proof fn lemma_sum_ext(f: spec_fn(int) -> int, g: spec_fn(int) -> int, lo: int, hi: int)
    requires
        forall|i: int| lo <= i < hi ==> #[trigger] f(i) == g(i),
    ensures
        sum_up(f, lo, hi) == sum_up(g, lo, hi),
    decreases hi - lo,
{
    if hi > lo {
        lemma_sum_ext(f, g, lo, hi - 1);
    }
}

proof fn lemma_sum_split_first(f: spec_fn(int) -> int, lo: int, hi: int)
    requires
        lo < hi,
    ensures
        sum_up(f, lo, hi) == f(lo) + sum_up(f, lo + 1, hi),
    decreases hi - lo,
{
    if hi - 1 > lo {
        lemma_sum_split_first(f, lo, hi - 1);
        assert(sum_up(f, lo + 1, hi) == sum_up(f, lo + 1, hi - 1) + f(hi - 1));
    } else {
        assert(sum_up(f, lo, lo) == 0);
        assert(sum_up(f, lo + 1, hi) == 0);
    }
}

proof fn lemma_sum_reverse(f: spec_fn(int) -> int, lo: int, hi: int)
    ensures
        sum_up(f, lo, hi) == sum_up(|i: int| f(lo + hi - 1 - i), lo, hi),
    decreases hi - lo,
{
    let g = |i: int| f(lo + hi - 1 - i);
    if hi > lo {
        lemma_sum_split_first(f, lo, hi);
        lemma_sum_reverse(f, lo + 1, hi);
        let h = |i: int| f(lo + 1 + hi - 1 - i);
        assert forall|i: int| lo + 1 <= i < hi implies #[trigger] h(i) == g(i - 1) by {}
        lemma_sum_shift_back(g, h, lo, hi);
        assert(sum_up(g, lo, hi) == sum_up(g, lo, hi - 1) + g(hi - 1));
    }
}

proof fn lemma_sum_shift_back(g: spec_fn(int) -> int, h: spec_fn(int) -> int, lo: int, hi: int)
    requires
        forall|i: int| lo + 1 <= i < hi ==> #[trigger] h(i) == g(i - 1),
    ensures
        sum_up(h, lo + 1, hi) == sum_up(g, lo, hi - 1),
    decreases hi - lo,
{
    if hi > lo + 1 {
        lemma_sum_shift_back(g, h, lo, hi - 1);
    }
}

proof fn lemma_nega_sum_is_sum(a: Seq<int>, b: Seq<int>, j: int, count: nat)
    ensures
        crate::polynomial::nega_sum(a, b, j, count) == sum_up(
            |i: int| crate::polynomial::nega_term(a, b, j, i),
            0,
            count as int,
        ),
    decreases count,
{
    if count > 0 {
        lemma_nega_sum_is_sum(a, b, j, (count - 1) as nat);
    }
}

proof fn lemma_sum_mod(f: spec_fn(int) -> int, g: spec_fn(int) -> int, m: int, lo: int, hi: int)
    requires
        m > 0,
        forall|i: int| lo <= i < hi ==> #[trigger] f(i) % m == g(i) % m,
    ensures
        sum_up(f, lo, hi) % m == sum_up(g, lo, hi) % m,
    decreases hi - lo,
{
    if hi > lo {
        lemma_sum_mod(f, g, m, lo, hi - 1);
        let a = sum_up(f, lo, hi - 1);
        let b = sum_up(g, lo, hi - 1);
        lemma_mod_add(a, f(hi - 1), m);
        lemma_mod_add(a % m, f(hi - 1), m);
        lemma_mod_add(b, g(hi - 1), m);
        lemma_mod_add(b % m, g(hi - 1), m);
        crate::torus::lemma_mod_add(f(hi - 1), a % m, m);
        crate::torus::lemma_mod_add(g(hi - 1), b % m, m);
    }
}

/// Coefficient 0 of `a * s` is what the extracted mask entries of `a` give against `s`.
proof fn lemma_extract_block(m: int, a: Seq<int>, s: Seq<int>)
    requires
        m > 0,
        a.len() >= 1,
        s.len() == a.len(),
    ensures
        sum_up(|t: int| extracted_mask_coeff(m, a, t) * s[t], 0, a.len() as int) % m
            == crate::polynomial::poly_mul_coeff(a, s, 0) % m,
{
    let n = a.len() as int;
    let f = |t: int| extracted_mask_coeff(m, a, t) * s[t];
    let h = |t: int| if t == 0 { a[0] * s[0] } else { -(a[n - t] * s[t]) };
    let p = |i: int| crate::polynomial::nega_term(a, s, 0, i);
    assert forall|t: int| 0 <= t < n implies #[trigger] f(t) % m == h(t) % m by {
        if t != 0 {
            crate::torus::lemma_mod_mul(-a[n - t], s[t], m);
            assert((-a[n - t]) * s[t] == -(a[n - t] * s[t])) by (nonlinear_arith);
        }
    }
    lemma_sum_mod(f, h, m, 0, n);
    lemma_nega_sum_is_sum(a, s, 0, a.len());
    lemma_sum_split_first(h, 0, n);
    lemma_sum_split_first(p, 0, n);
    lemma_sum_reverse(h, 1, n);
    let r = |i: int| h(1 + n - 1 - i);
    assert forall|i: int| 1 <= i < n implies #[trigger] r(i) == p(i) by {
        assert(h(n - i) == -(a[i] * s[n - i]));
    }
    lemma_sum_ext(r, p, 1, n);
}

} // verus!

verus! {

/// `sum_{i' < i} sum_t extracted(ct[i'], t) * key[i'][t]`.
pub open spec fn extract_blocks(m: int, key: Seq<Seq<int>>, ct: Seq<Seq<int>>, n: int, i: nat) -> int
    decreases i,
{
    if i == 0 {
        0
    } else {
        extract_blocks(m, key, ct, n, (i - 1) as nat) + sum_up(
            |t: int| extracted_mask_coeff(m, ct[i - 1], t) * key[i - 1][t],
            0,
            n,
        )
    }
}

proof fn lemma_extract_dot_inner(
    m: int,
    key: Seq<Seq<int>>,
    ct: Seq<Seq<int>>,
    n: int,
    lwe_key: Seq<int>,
    lwe: Seq<int>,
    i: int,
    t: int,
)
    requires
        n >= 1,
        0 <= i < key.len(),
        0 <= t <= n,
        lwe.len() >= (i + 1) * n,
        lwe_key.len() >= (i + 1) * n,
        forall|t2: int| 0 <= t2 < n ==> lwe[i * n + t2] == #[trigger] extracted_mask_coeff(m, ct[i], t2),
        forall|t2: int| 0 <= t2 < n ==> lwe_key[i * n + t2] == #[trigger] key[i][t2],
        crate::torus::dot(lwe.subrange(0, i * n), lwe_key) == extract_blocks(m, key, ct, n, i as nat),
    ensures
        crate::torus::dot(lwe.subrange(0, i * n + t), lwe_key) == extract_blocks(m, key, ct, n, i as nat)
            + sum_up(|t2: int| extracted_mask_coeff(m, ct[i], t2) * key[i][t2], 0, t),
    decreases t,
{
    if t > 0 {
        lemma_extract_dot_inner(m, key, ct, n, lwe_key, lwe, i, t - 1);
        assert((i + 1) * n == i * n + n) by (nonlinear_arith);
        assert(i * n >= 0) by (nonlinear_arith)
            requires i >= 0, n >= 1;
        let s = lwe.subrange(0, i * n + t);
        assert(s.drop_last() =~= lwe.subrange(0, i * n + t - 1));
        assert(s.last() == lwe[i * n + t - 1]);
        assert(lwe[i * n + (t - 1)] == extracted_mask_coeff(m, ct[i], t - 1));
        assert(lwe_key[i * n + (t - 1)] == key[i][t - 1]);
    }
}

proof fn lemma_extract_dot(
    m: int,
    key: Seq<Seq<int>>,
    ct: Seq<Seq<int>>,
    n: int,
    lwe_key: Seq<int>,
    lwe: Seq<int>,
    i: int,
)
    requires
        n >= 1,
        0 <= i <= key.len(),
        lwe.len() >= key.len() * n,
        lwe_key.len() >= key.len() * n,
        forall|i2: int, t2: int|
            0 <= i2 < key.len() && 0 <= t2 < n ==> lwe[i2 * n + t2] == #[trigger] extracted_mask_coeff(
                m,
                ct[i2],
                t2,
            ),
        forall|i2: int, t2: int| 0 <= i2 < key.len() && 0 <= t2 < n ==> lwe_key[i2 * n + t2] == #[trigger] key[i2][t2],
    ensures
        crate::torus::dot(lwe.subrange(0, i * n), lwe_key) == extract_blocks(m, key, ct, n, i as nat),
    decreases i,
{
    if i == 0 {
        assert(lwe.subrange(0, 0 * n) =~= Seq::<int>::empty());
    } else {
        lemma_extract_dot(m, key, ct, n, lwe_key, lwe, i - 1);
        assert(i * n <= key.len() * n) by (nonlinear_arith)
            requires i <= key.len(), n >= 1;
        assert((i - 1 + 1) * n == i * n);
        lemma_extract_dot_inner(m, key, ct, n, lwe_key, lwe, i - 1, n);
        assert((i - 1) * n + n == i * n) by (nonlinear_arith);
    }
}

proof fn lemma_extract_blocks_value(m: int, key: Seq<Seq<int>>, ct: Seq<Seq<int>>, n: int, i: nat)
    requires
        m > 0,
        n >= 1,
        i <= key.len(),
        i <= ct.len(),
        forall|i2: int| 0 <= i2 < key.len() ==> (#[trigger] key[i2]).len() == n,
        forall|i2: int| 0 <= i2 < ct.len() ==> (#[trigger] ct[i2]).len() == n,
    ensures
        extract_blocks(m, key, ct, n, i) % m == mask_key_coeff(ct, key, 0, i) % m,
    decreases i,
{
    if i > 0 {
        lemma_extract_blocks_value(m, key, ct, n, (i - 1) as nat);
        lemma_extract_block(m, ct[i - 1], key[i - 1]);
        let a = extract_blocks(m, key, ct, n, (i - 1) as nat);
        let b = mask_key_coeff(ct, key, 0, (i - 1) as nat);
        let x = sum_up(|t: int| extracted_mask_coeff(m, ct[i - 1], t) * key[i - 1][t], 0, n);
        let y = crate::polynomial::poly_mul_coeff(ct[i - 1], key[i - 1], 0);
        lemma_mod_add(a, x, m);
        lemma_mod_add(b, y, m);
        crate::torus::lemma_mod_add(x, a % m, m);
        crate::torus::lemma_mod_add(y, b % m, m);
        crate::torus::lemma_mod_add(a % m, x, m);
        crate::torus::lemma_mod_add(b % m, y, m);
        crate::torus::lemma_mod_add(a % m, x % m, m);
        crate::torus::lemma_mod_add(b % m, y % m, m);
    }
}

/// Sample extraction: under the key that the GLWE key flattens to, the extracted LWE
/// ciphertext decrypts to coefficient 0 of the phase of the GLWE ciphertext.
pub proof fn lemma_extracted_sample_decrypts(
    m: int,
    key: Seq<Seq<int>>,
    ct: Seq<Seq<int>>,
    n: int,
    lwe_key: Seq<int>,
    lwe: Seq<int>,
)
    requires
        m > 0,
        n >= 1,
        ct.len() == key.len() + 1,
        forall|i: int| 0 <= i < key.len() ==> (#[trigger] key[i]).len() == n,
        forall|i: int| 0 <= i < ct.len() ==> (#[trigger] ct[i]).len() == n,
        lwe_key.len() == key.len() * n,
        lwe.len() == key.len() * n + 1,
        forall|i: int, t: int|
            0 <= i < key.len() && 0 <= t < n ==> lwe[i * n + t] == #[trigger] extracted_mask_coeff(m, ct[i], t),
        forall|i: int, t: int| 0 <= i < key.len() && 0 <= t < n ==> lwe_key[i * n + t] == #[trigger] key[i][t],
        lwe[key.len() * n] == ct[key.len() as int][0],
    ensures
        crate::lwe::lwe_phase(m, lwe_key, lwe) == glwe_phase_coeff(m, key, ct, 0),
{
    let k = key.len() as int;
    lemma_extract_dot(m, key, ct, n, lwe_key, lwe, k);
    assert(lwe.subrange(0, k * n) =~= lwe.drop_last());
    lemma_extract_blocks_value(m, key, ct, n, k as nat);
    let d = crate::torus::dot(lwe.drop_last(), lwe_key);
    let c = mask_key_coeff(ct, key, 0, k as nat);
    let b = ct[k][0];
    assert(lwe.last() == b);
    assert(ct.last() == ct[k]);
    crate::torus::lemma_mod_add(b, d, m);
    crate::torus::lemma_mod_add(b, c, m);
}

} // verus!

verus! {

/// `X * a` in `Z[X] / (X^N + 1)`.
pub open spec fn times_x(a: Seq<int>) -> Seq<int> {
    Seq::new(a.len(), |i: int| if i == 0 { -a[a.len() - 1] } else { a[i - 1] })
}

/// The coefficients of `a * s`, before reduction.
pub open spec fn product_seq(a: Seq<int>, s: Seq<int>) -> Seq<int> {
    Seq::new(a.len(), |t: int| crate::polynomial::poly_mul_coeff(a, s, t))
}

/// The coefficients of `X^r * a`, before reduction.
pub open spec fn rotation_seq(a: Seq<int>, r: int) -> Seq<int> {
    Seq::new(a.len(), |t: int| crate::polynomial::monomial_mul_coeff(a, r, t))
}

proof fn lemma_sum_neg(f: spec_fn(int) -> int, g: spec_fn(int) -> int, lo: int, hi: int)
    requires
        forall|i: int| lo <= i < hi ==> #[trigger] g(i) == -f(i),
    ensures
        sum_up(g, lo, hi) == -sum_up(f, lo, hi),
    decreases hi - lo,
{
    if hi > lo {
        lemma_sum_neg(f, g, lo, hi - 1);
    }
}

/// `(X * a) * s == X * (a * s)`, coefficient by coefficient.
proof fn lemma_times_x_product(a: Seq<int>, s: Seq<int>, j: int)
    requires
        a.len() >= 1,
        s.len() == a.len(),
        0 <= j < a.len(),
    ensures
        crate::polynomial::poly_mul_coeff(times_x(a), s, j) == crate::polynomial::monomial_mul_coeff(
            product_seq(a, s),
            1,
            j,
        ),
{
    let n = a.len() as int;
    let x = times_x(a);
    let f = |i: int| crate::polynomial::nega_term(x, s, j, i);
    lemma_nega_sum_is_sum(x, s, j, a.len());
    lemma_sum_split_first(f, 0, n);
    assert(f(0) == -(a[n - 1] * s[j])) by (nonlinear_arith)
        requires
            f(0) == x[0] * s[j],
            x[0] == -a[n - 1],
    ;
    if j >= 1 {
        let g = |i: int| crate::polynomial::nega_term(a, s, j - 1, i);
        lemma_nega_sum_is_sum(a, s, j - 1, a.len());
        assert(g(n - 1) == -(a[n - 1] * s[j])) by {
            assert(j - 1 - (n - 1) + n == j);
        }
        assert(sum_up(g, 0, n) == sum_up(g, 0, n - 1) + g(n - 1));
        assert forall|i: int| 0 + 1 <= i < n implies #[trigger] f(i) == g(i - 1) by {
            assert(x[i] == a[i - 1]);
        }
        lemma_sum_shift_back(g, f, 0, n);
        assert(product_seq(a, s)[j - 1] == crate::polynomial::poly_mul_coeff(a, s, j - 1));
    } else {
        let g = |i: int| crate::polynomial::nega_term(a, s, n - 1, i);
        let hneg = |i: int| -g(i);
        lemma_nega_sum_is_sum(a, s, n - 1, a.len());
        assert(g(n - 1) == a[n - 1] * s[0]);
        assert(sum_up(g, 0, n) == sum_up(g, 0, n - 1) + g(n - 1));
        assert forall|i: int| 0 + 1 <= i < n implies #[trigger] f(i) == hneg(i - 1) by {
            assert(x[i] == a[i - 1]);
            assert(j - i + n == n - 1 - (i - 1));
        }
        lemma_sum_shift_back(hneg, f, 0, n);
        lemma_sum_neg(g, hneg, 0, n - 1);
        assert(a[n - 1] * s[0] == a[n - 1] * s[j]);
        assert(product_seq(a, s)[n - 1] == crate::polynomial::poly_mul_coeff(a, s, n - 1));
    }
}

/// `X^r * a == X^(r - 1) * (X * a)`, for `1 <= r < 2N`.
proof fn lemma_rotation_step(a: Seq<int>, r: int)
    requires
        a.len() >= 1,
        1 <= r < 2 * a.len(),
    ensures
        rotation_seq(a, r) =~= rotation_seq(times_x(a), r - 1),
{
    let n = a.len() as int;
    let x = times_x(a);
    assert forall|j: int| 0 <= j < n implies #[trigger] rotation_seq(a, r)[j] == rotation_seq(x, r - 1)[j] by {
        let s = j - r;
        if s >= 0 {
            assert(x[s + 1] == a[s]);
        } else if s >= -n {
            if s + 1 >= 0 {
                assert(s + 1 == 0 && x[0] == -a[n - 1]);
                assert(s + n == n - 1);
            } else {
                assert(x[s + 1 + n] == a[s + n]);
            }
        } else {
            if s + 1 >= -n {
                assert(s + 1 == -n);
                assert(x[0] == -a[n - 1]);
            } else {
                assert(x[s + 1 + 2 * n] == a[s + 2 * n]);
            }
        }
    }
}

/// Rotation commutes with the negacyclic product: `(X^r * a) * s == X^r * (a * s)`, exactly,
/// for `0 <= r < 2N`.
pub proof fn lemma_rotation_commutes(a: Seq<int>, s: Seq<int>, r: int, j: int)
    requires
        a.len() >= 1,
        s.len() == a.len(),
        0 <= r < 2 * a.len(),
        0 <= j < a.len(),
    ensures
        crate::polynomial::poly_mul_coeff(rotation_seq(a, r), s, j) == crate::polynomial::monomial_mul_coeff(
            product_seq(a, s),
            r,
            j,
        ),
    decreases r,
{
    let n = a.len() as int;
    if r == 0 {
        assert(rotation_seq(a, 0) =~= a);
    } else {
        let x = times_x(a);
        lemma_rotation_step(a, r);
        lemma_rotation_commutes(x, s, r - 1, j);
        assert forall|t: int| 0 <= t < n implies #[trigger] product_seq(x, s)[t] == times_x(product_seq(a, s))[t] by {
            lemma_times_x_product(a, s, t);
        }
        assert(product_seq(x, s) =~= times_x(product_seq(a, s)));
        lemma_rotation_step(product_seq(a, s), r);
        assert(rotation_seq(product_seq(a, s), r)[j] == crate::polynomial::monomial_mul_coeff(product_seq(a, s), r, j));
        assert(rotation_seq(times_x(product_seq(a, s)), r - 1)[j] == crate::polynomial::monomial_mul_coeff(
            times_x(product_seq(a, s)),
            r - 1,
            j,
        ));
    }
}

} // verus!

verus! {

/// The index of `a` that coefficient `j` of `X^r * a` takes, and its sign.
pub open spec fn rotation_source(n: int, r: int, j: int) -> (int, int) {
    let s = j - r;
    if s >= 0 {
        (s, 1)
    } else if s >= -n {
        (s + n, -1)
    } else {
        (s + 2 * n, 1)
    }
}

proof fn lemma_rotation_source(x: Seq<int>, r: int, j: int)
    ensures
        crate::polynomial::monomial_mul_coeff(x, r, j) == rotation_source(x.len() as int, r, j).1 * x[rotation_source(
            x.len() as int,
            r,
            j,
        ).0],
{
}

pub(crate) proof fn lemma_product_reduced(m: int, x: Seq<int>, s: Seq<int>, j: int)
    requires
        m > 0,
        s.len() == x.len(),
        0 <= j < x.len(),
    ensures
        crate::polynomial::poly_mul_coeff(Seq::new(x.len(), |t: int| x[t] % m), s, j) % m
            == crate::polynomial::poly_mul_coeff(x, s, j) % m,
{
    let y = Seq::new(x.len(), |t: int| x[t] % m);
    let f = |i: int| crate::polynomial::nega_term(y, s, j, i);
    let g = |i: int| crate::polynomial::nega_term(x, s, j, i);
    lemma_nega_sum_is_sum(y, s, j, x.len());
    lemma_nega_sum_is_sum(x, s, j, x.len());
    assert forall|i: int| 0 <= i < x.len() implies #[trigger] f(i) % m == g(i) % m by {
        let k = if i <= j { j - i } else { j - i + s.len() };
        crate::torus::lemma_mod_mul(x[i], s[k], m);
        if i > j {
            crate::torus::lemma_mod_add(0, (x[i] % m) * s[k], m);
            crate::torus::lemma_mod_add(0, x[i] * s[k], m);
            crate::torus::lemma_mod_add(0, ((x[i] % m) * s[k]) % m, m);
            crate::torus::lemma_mod_add(0, (x[i] * s[k]) % m, m);
        }
    }
    lemma_sum_mod(f, g, m, 0, x.len() as int);
}

/// `sum_i (X^r * ct_i) * key_i` is `X^r * sum_i ct_i * key_i`, coefficient by coefficient.
proof fn lemma_rotated_mask_key(key: Seq<Seq<int>>, ct: Seq<Seq<int>>, n: int, r: int, j: int, count: nat)
    requires
        n >= 1,
        count <= key.len(),
        count <= ct.len(),
        forall|i: int| 0 <= i < key.len() ==> (#[trigger] key[i]).len() == n,
        forall|i: int| 0 <= i < ct.len() ==> (#[trigger] ct[i]).len() == n,
        0 <= r < 2 * n,
        0 <= j < n,
    ensures
        mask_key_coeff(Seq::new(ct.len(), |q: int| rotation_seq(ct[q], r)), key, j, count) == rotation_source(n, r, j).1
            * mask_key_coeff(ct, key, rotation_source(n, r, j).0, count),
    decreases count,
{
    if count > 0 {
        let i = count - 1;
        lemma_rotated_mask_key(key, ct, n, r, j, (count - 1) as nat);
        let rc = Seq::new(ct.len(), |q: int| rotation_seq(ct[q], r));
        assert(rc[i] == rotation_seq(ct[i], r));
        lemma_rotation_commutes(ct[i], key[i], r, j);
        lemma_rotation_source(product_seq(ct[i], key[i]), r, j);
        let (idx, sg) = rotation_source(n, r, j);
        assert(product_seq(ct[i], key[i])[idx] == crate::polynomial::poly_mul_coeff(ct[i], key[i], idx));
        let prev = mask_key_coeff(ct, key, idx, (count - 1) as nat);
        assert(sg * prev + sg * crate::polynomial::poly_mul_coeff(ct[i], key[i], idx) == sg * (prev
            + crate::polynomial::poly_mul_coeff(ct[i], key[i], idx))) by (nonlinear_arith);
    }
}

/// Rotating every polynomial of a GLWE ciphertext by `X^r` rotates its phase by `X^r`.
pub proof fn lemma_rotation_rotates_phase(m: int, key: Seq<Seq<int>>, ct: Seq<Seq<int>>, n: int, r: int, j: int)
    requires
        m > 0,
        n >= 1,
        ct.len() == key.len() + 1,
        forall|i: int| 0 <= i < key.len() ==> (#[trigger] key[i]).len() == n,
        forall|i: int| 0 <= i < ct.len() ==> (#[trigger] ct[i]).len() == n,
        0 <= r < 2 * n,
        0 <= j < n,
    ensures
        glwe_phase_coeff(m, key, crate::bootstrap::glwe_rotate_spec(m, ct, r), j) == crate::polynomial::monomial_mul_coeff(
            Seq::new(n as nat, |t: int| glwe_phase_coeff(m, key, ct, t)),
            r,
            j,
        ) % m,
{
    let k = key.len() as int;
    let rot = crate::bootstrap::glwe_rotate_spec(m, ct, r);
    let rc = Seq::new(ct.len(), |q: int| rotation_seq(ct[q], r));
    let (idx, sg) = rotation_source(n, r, j);
    // the reduced rotated masks give the same products modulo m
    assert forall|i: int| 0 <= i < k implies (#[trigger] rot[i]) =~= Seq::new(rc[i].len(), |t: int| rc[i][t] % m) by {}
    lemma_mask_key_reduced(m, key, rot, rc, n, j, k as nat);
    lemma_rotated_mask_key(key, ct, n, r, j, k as nat);
    let mk = mask_key_coeff(ct, key, idx, k as nat);
    let b = ct[k];
    assert(rot.last() == rot[k]);
    assert(ct.last() == b);
    lemma_rotation_source(b, r, j);
    lemma_rotation_source(Seq::new(n as nat, |t: int| glwe_phase_coeff(m, key, ct, t)), r, j);
    assert(rot[k][j] == crate::polynomial::monomial_mul_coeff(b, r, j) % m);
    // phase(rot)[j] == (sg * b[idx] - sg * mk) % m == sg * phase(ct)[idx] % m
    let rm = mask_key_coeff(rot, key, j, k as nat);
    crate::torus::lemma_mod_add(sg * b[idx], rm, m);
    crate::torus::lemma_mod_add(sg * b[idx], sg * mk, m);
    assert(rot[k][j] == (sg * b[idx]) % m);
    assert(sg * b[idx] - sg * mk == sg * (b[idx] - mk)) by (nonlinear_arith);
    crate::torus::lemma_mod_mul(sg, b[idx] - mk, m);
    assert(glwe_phase_coeff(m, key, ct, idx) == (b[idx] - mk) % m);
}

pub(crate) proof fn lemma_mask_key_reduced(m: int, key: Seq<Seq<int>>, red: Seq<Seq<int>>, full: Seq<Seq<int>>, n: int, j: int, count: nat)
    requires
        m > 0,
        n >= 1,
        0 <= j < n,
        count <= key.len(),
        count <= red.len(),
        count <= full.len(),
        forall|i: int| 0 <= i < key.len() ==> (#[trigger] key[i]).len() == n,
        forall|i: int| 0 <= i < full.len() ==> (#[trigger] full[i]).len() == n,
        forall|i: int| 0 <= i < count ==> (#[trigger] red[i]) =~= Seq::new(full[i].len(), |t: int| full[i][t] % m),
    ensures
        mask_key_coeff(red, key, j, count) % m == mask_key_coeff(full, key, j, count) % m,
    decreases count,
{
    if count > 0 {
        let i = count - 1;
        lemma_mask_key_reduced(m, key, red, full, n, j, (count - 1) as nat);
        assert(red[i] =~= Seq::new(full[i].len(), |t: int| full[i][t] % m));
        lemma_product_reduced(m, full[i], key[i], j);
        let a = mask_key_coeff(red, key, j, (count - 1) as nat);
        let b = mask_key_coeff(full, key, j, (count - 1) as nat);
        let x = crate::polynomial::poly_mul_coeff(red[i], key[i], j);
        let y = crate::polynomial::poly_mul_coeff(full[i], key[i], j);
        crate::torus::lemma_mod_add(a, x, m);
        crate::torus::lemma_mod_add(b, y, m);
        crate::torus::lemma_mod_add(x, a % m, m);
        crate::torus::lemma_mod_add(y, b % m, m);
        crate::torus::lemma_mod_add(a % m, x, m);
        crate::torus::lemma_mod_add(b % m, y, m);
        crate::torus::lemma_mod_add(a % m, x % m, m);
        crate::torus::lemma_mod_add(b % m, y % m, m);
    }
}

} // verus!

verus! {

proof fn lemma_sum_linear(f: spec_fn(int) -> int, g: spec_fn(int) -> int, h: spec_fn(int) -> int, a: int, b: int, m: int, lo: int, hi: int)
    requires
        m > 0,
        forall|i: int| lo <= i < hi ==> #[trigger] f(i) % m == (a * g(i) + b * h(i)) % m,
    ensures
        sum_up(f, lo, hi) % m == (a * sum_up(g, lo, hi) + b * sum_up(h, lo, hi)) % m,
    decreases hi - lo,
{
    if hi > lo {
        lemma_sum_linear(f, g, h, a, b, m, lo, hi - 1);
        let sf = sum_up(f, lo, hi - 1);
        let sg = sum_up(g, lo, hi - 1);
        let sh = sum_up(h, lo, hi - 1);
        let t = hi - 1;
        let gt = g(t);
        let ht = h(t);
        let w = a * sg + b * sh;
        let v = a * gt + b * ht;
        crate::torus::lemma_mod_add(sf, f(t), m);
        crate::torus::lemma_mod_add(sf % m, f(t), m);
        crate::torus::lemma_mod_add(f(t), sf % m, m);
        crate::torus::lemma_mod_add(f(t) % m, sf % m, m);
        crate::torus::lemma_mod_add(v % m, w % m, m);
        crate::torus::lemma_mod_add(v, w % m, m);
        crate::torus::lemma_mod_add(w % m, v, m);
        crate::torus::lemma_mod_add(w, v, m);
        assert(w + v == a * (sg + gt) + b * (sh + ht)) by (nonlinear_arith)
            requires
                w == a * sg + b * sh,
                v == a * gt + b * ht,
        ;
    }
}

proof fn lemma_mod_mul_left(z: int, e: int, s: int, m: int)
    requires
        m > 0,
        z == e % m,
    ensures
        (-(z * s)) % m == (-(e * s)) % m,
{
    crate::torus::lemma_mod_mul(e, s, m);
    crate::torus::lemma_mod_add(0, z * s, m);
    crate::torus::lemma_mod_add(0, e * s, m);
}

proof fn lemma_product_linear(x: Seq<int>, y: Seq<int>, z: Seq<int>, s: Seq<int>, a: int, b: int, m: int, j: int)
    requires
        m > 0,
        x.len() == z.len(),
        y.len() == z.len(),
        s.len() == z.len(),
        0 <= j < z.len(),
        forall|i: int| 0 <= i < z.len() ==> #[trigger] z[i] == (a * x[i] + b * y[i]) % m,
    ensures
        crate::polynomial::poly_mul_coeff(z, s, j) % m == (a * crate::polynomial::poly_mul_coeff(x, s, j) + b
            * crate::polynomial::poly_mul_coeff(y, s, j)) % m,
{
    let f = |i: int| crate::polynomial::nega_term(z, s, j, i);
    let g = |i: int| crate::polynomial::nega_term(x, s, j, i);
    let h = |i: int| crate::polynomial::nega_term(y, s, j, i);
    lemma_nega_sum_is_sum(z, s, j, z.len());
    lemma_nega_sum_is_sum(x, s, j, x.len());
    lemma_nega_sum_is_sum(y, s, j, y.len());
    assert forall|i: int| 0 <= i < z.len() implies #[trigger] f(i) % m == (a * g(i) + b * h(i)) % m by {
        let k = if i <= j { j - i } else { j - i + s.len() };
        let xi = x[i];
        let yi = y[i];
        let zi = z[i];
        let sk = s[k];
        let e = a * xi + b * yi;
        let gi = g(i);
        let hi = h(i);
        let fi = f(i);
        crate::torus::lemma_mod_mul(e, sk, m);
        if i <= j {
            assert(gi == xi * sk && hi == yi * sk && fi == zi * sk);
            assert(a * gi + b * hi == e * sk) by (nonlinear_arith)
                requires
                    gi == xi * sk,
                    hi == yi * sk,
                    e == a * xi + b * yi,
            ;
        } else {
            assert(gi == -(xi * sk) && hi == -(yi * sk) && fi == -(zi * sk));
            assert(a * gi + b * hi == -(e * sk)) by (nonlinear_arith)
                requires
                    gi == -(xi * sk),
                    hi == -(yi * sk),
                    e == a * xi + b * yi,
            ;
            crate::torus::lemma_mod_mul(-1, zi * sk, m);
            crate::torus::lemma_mod_mul(-1, e * sk, m);
            assert(-1 * (zi * sk) == -(zi * sk));
            assert(-1 * (e * sk) == -(e * sk));
            lemma_mod_mul_left(zi, e, sk, m);
        }
    }
    lemma_sum_linear(f, g, h, a, b, m, 0, z.len() as int);
}

proof fn lemma_mask_key_linear(
    key: Seq<Seq<int>>,
    x: Seq<Seq<int>>,
    y: Seq<Seq<int>>,
    z: Seq<Seq<int>>,
    a: int,
    b: int,
    m: int,
    n: int,
    j: int,
    count: nat,
)
    requires
        m > 0,
        0 <= j < n,
        count <= key.len(),
        count <= z.len(),
        x.len() == z.len(),
        y.len() == z.len(),
        forall|i: int| 0 <= i < key.len() ==> (#[trigger] key[i]).len() == n,
        forall|i: int| 0 <= i < z.len() ==> (#[trigger] z[i]).len() == n && x[i].len() == n && y[i].len() == n,
        forall|q: int, c: int| 0 <= q < z.len() && 0 <= c < n ==> #[trigger] z[q][c] == (a * x[q][c] + b * y[q][c]) % m,
    ensures
        mask_key_coeff(z, key, j, count) % m == (a * mask_key_coeff(x, key, j, count) + b * mask_key_coeff(y, key, j, count))
            % m,
    decreases count,
{
    if count > 0 {
        let i = count - 1;
        lemma_mask_key_linear(key, x, y, z, a, b, m, n, j, (count - 1) as nat);
        assert forall|c: int| 0 <= c < z[i].len() implies #[trigger] z[i][c] == (a * x[i][c] + b * y[i][c]) % m by {}
        lemma_product_linear(x[i], y[i], z[i], key[i], a, b, m, j);
        let fz = crate::polynomial::poly_mul_coeff(z[i], key[i], j);
        let fx = crate::polynomial::poly_mul_coeff(x[i], key[i], j);
        let fy = crate::polynomial::poly_mul_coeff(y[i], key[i], j);
        let sz = mask_key_coeff(z, key, j, (count - 1) as nat);
        let sx = mask_key_coeff(x, key, j, (count - 1) as nat);
        let sy = mask_key_coeff(y, key, j, (count - 1) as nat);
        let w = a * sx + b * sy;
        let v = a * fx + b * fy;
        assert(w + v == a * (sx + fx) + b * (sy + fy)) by (nonlinear_arith)
            requires
                w == a * sx + b * sy,
                v == a * fx + b * fy,
        ;
        crate::torus::lemma_mod_add(sz, fz, m);
        crate::torus::lemma_mod_add(sz % m, fz, m);
        crate::torus::lemma_mod_add(fz, sz % m, m);
        crate::torus::lemma_mod_add(fz % m, sz % m, m);
        crate::torus::lemma_mod_add(v % m, w % m, m);
        crate::torus::lemma_mod_add(v, w % m, m);
        crate::torus::lemma_mod_add(w % m, v, m);
        crate::torus::lemma_mod_add(w, v, m);
    }
}

/// GLWE decryption is linear: a ciphertext whose polynomials are `a * x + b * y`, entry by
/// entry, has phase `a * phase(x) + b * phase(y)`.
pub proof fn lemma_glwe_phase_linear(
    m: int,
    key: Seq<Seq<int>>,
    x: Seq<Seq<int>>,
    y: Seq<Seq<int>>,
    z: Seq<Seq<int>>,
    a: int,
    b: int,
    n: int,
    j: int,
)
    requires
        m > 0,
        0 <= j < n,
        z.len() == key.len() + 1,
        x.len() == z.len(),
        y.len() == z.len(),
        forall|i: int| 0 <= i < key.len() ==> (#[trigger] key[i]).len() == n,
        forall|i: int| 0 <= i < z.len() ==> (#[trigger] z[i]).len() == n && x[i].len() == n && y[i].len() == n,
        forall|q: int, c: int| 0 <= q < z.len() && 0 <= c < n ==> #[trigger] z[q][c] == (a * x[q][c] + b * y[q][c]) % m,
    ensures
        glwe_phase_coeff(m, key, z, j) == (a * glwe_phase_coeff(m, key, x, j) + b * glwe_phase_coeff(m, key, y, j)) % m,
{
    let k = key.len() as int;
    lemma_mask_key_linear(key, x, y, z, a, b, m, n, j, k as nat);
    let sz = mask_key_coeff(z, key, j, k as nat);
    let sx = mask_key_coeff(x, key, j, k as nat);
    let sy = mask_key_coeff(y, key, j, k as nat);
    let bz = z[k][j];
    let bx = x[k][j];
    let by = y[k][j];
    assert(z.last() == z[k] && x.last() == x[k] && y.last() == y[k]);
    assert(bz == (a * bx + b * by) % m);
    crate::torus::lemma_mod_add(bz, sz, m);
    crate::torus::lemma_mod_add(a * bx + b * by, sz % m, m);
    crate::torus::lemma_mod_add(a * bx + b * by, sz, m);
    crate::torus::lemma_mod_add(a * bx + b * by, a * sx + b * sy, m);
    crate::torus::lemma_mod_add(a * bx + b * by, (a * sx + b * sy) % m, m);
    let px = bx - sx;
    let py = by - sy;
    assert(a * bx + b * by - (a * sx + b * sy) == a * px + b * py) by (nonlinear_arith)
        requires
            px == bx - sx,
            py == by - sy,
    ;
    crate::torus::lemma_mod_mul(a, px, m);
    crate::torus::lemma_mod_mul(b, py, m);
    crate::torus::lemma_mod_add(a * px, b * py, m);
    crate::torus::lemma_mod_add(a * (px % m), b * py, m);
    crate::torus::lemma_mod_add(b * py, a * (px % m), m);
    crate::torus::lemma_mod_add(b * (py % m), a * (px % m), m);
}

} // verus!

verus! {

/// `sum_{i < count} d[i] * (X^i * x)[j]`.
pub open spec fn rotation_sum(d: Seq<int>, x: Seq<int>, j: int, count: nat) -> int
    decreases count,
{
    if count == 0 {
        0
    } else {
        rotation_sum(d, x, j, (count - 1) as nat) + d[count - 1] * crate::polynomial::monomial_mul_coeff(
            x,
            count - 1,
            j,
        )
    }
}

/// `sum_{i < count} d[i] * ((X^i * a) * s)[j]`.
pub open spec fn rotated_product_sum(d: Seq<int>, a: Seq<int>, s: Seq<int>, j: int, count: nat) -> int
    decreases count,
{
    if count == 0 {
        0
    } else {
        rotated_product_sum(d, a, s, j, (count - 1) as nat) + d[count - 1] * crate::polynomial::poly_mul_coeff(
            rotation_seq(a, count - 1),
            s,
            j,
        )
    }
}

/// A product is a sum of rotations: `(d * x)[j] == sum_i d[i] * (X^i * x)[j]`.
proof fn lemma_product_as_rotations(d: Seq<int>, x: Seq<int>, j: int, count: nat)
    requires
        x.len() == d.len(),
        count <= d.len(),
        0 <= j < d.len(),
    ensures
        crate::polynomial::nega_sum(d, x, j, count) == rotation_sum(d, x, j, count),
    decreases count,
{
    if count > 0 {
        lemma_product_as_rotations(d, x, j, (count - 1) as nat);
        let i = count - 1;
        let n = x.len() as int;
        if i > j {
            assert(-(d[i] * x[j - i + n]) == d[i] * (-x[j - i + n])) by (nonlinear_arith);
        }
    }
}

pub(crate) proof fn lemma_nega_sum_linear(x: Seq<int>, y: Seq<int>, z: Seq<int>, s: Seq<int>, c: int, j: int, count: nat)
    requires
        x.len() == z.len(),
        y.len() == z.len(),
        s.len() == z.len(),
        count <= z.len(),
        0 <= j < z.len(),
        forall|t: int| 0 <= t < z.len() ==> #[trigger] z[t] == x[t] + c * y[t],
    ensures
        crate::polynomial::nega_sum(z, s, j, count) == crate::polynomial::nega_sum(x, s, j, count) + c
            * crate::polynomial::nega_sum(y, s, j, count),
    decreases count,
{
    if count > 0 {
        lemma_nega_sum_linear(x, y, z, s, c, j, (count - 1) as nat);
        let i = count - 1;
        let k = if i <= j { j - i } else { j - i + s.len() };
        let (xi, yi, zi, sk) = (x[i], y[i], z[i], s[k]);
        let px = crate::polynomial::nega_sum(x, s, j, (count - 1) as nat);
        let py = crate::polynomial::nega_sum(y, s, j, (count - 1) as nat);
        assert(zi * sk == xi * sk + c * (yi * sk)) by (nonlinear_arith)
            requires
                zi == xi + c * yi,
        ;
        assert(px + xi * sk + c * (py + yi * sk) == px + c * py + (xi * sk + c * (yi * sk)))
            by (nonlinear_arith);
        assert(px - xi * sk + c * (py - yi * sk) == px + c * py - (xi * sk + c * (yi * sk)))
            by (nonlinear_arith);
    }
}

/// The rotations of `a`, weighted by `d`, summed over the first `count` of them.
pub open spec fn rotation_combination(d: Seq<int>, a: Seq<int>, count: nat) -> Seq<int> {
    Seq::new(a.len(), |t: int| rotation_sum(d, a, t, count))
}

proof fn lemma_combination_product(d: Seq<int>, a: Seq<int>, s: Seq<int>, j: int, count: nat)
    requires
        a.len() >= 1,
        d.len() == a.len(),
        s.len() == a.len(),
        count <= a.len(),
        0 <= j < a.len(),
    ensures
        crate::polynomial::poly_mul_coeff(rotation_combination(d, a, count), s, j) == rotated_product_sum(
            d,
            a,
            s,
            j,
            count,
        ),
    decreases count,
{
    let n = a.len();
    if count == 0 {
        let z = rotation_combination(d, a, 0);
        assert forall|t: int| 0 <= t < n implies #[trigger] z[t] == z[t] + 0 * z[t] by {}
        lemma_zero_product(z, s, j, n);
    } else {
        lemma_combination_product(d, a, s, j, (count - 1) as nat);
        let x = rotation_combination(d, a, (count - 1) as nat);
        let y = rotation_seq(a, count - 1);
        let z = rotation_combination(d, a, count);
        assert forall|t: int| 0 <= t < n implies #[trigger] z[t] == x[t] + d[count - 1] * y[t] by {}
        lemma_nega_sum_linear(x, y, z, s, d[count - 1], j, n);
    }
}

proof fn lemma_zero_product(z: Seq<int>, s: Seq<int>, j: int, count: nat)
    requires
        forall|t: int| 0 <= t < z.len() ==> #[trigger] z[t] == 0,
        count <= z.len(),
    ensures
        crate::polynomial::nega_sum(z, s, j, count) == 0,
    decreases count,
{
    if count > 0 {
        lemma_zero_product(z, s, j, (count - 1) as nat);
        let i = count - 1;
        assert(z[i] == 0);
        assert(0 * s[j - i] == 0 && 0 * s[j - i + s.len()] == 0);
    }
}

proof fn lemma_rotated_products(d: Seq<int>, a: Seq<int>, s: Seq<int>, j: int, count: nat)
    requires
        a.len() >= 1,
        d.len() == a.len(),
        s.len() == a.len(),
        count <= a.len(),
        0 <= j < a.len(),
    ensures
        rotated_product_sum(d, a, s, j, count) == rotation_sum(d, product_seq(a, s), j, count),
    decreases count,
{
    if count > 0 {
        lemma_rotated_products(d, a, s, j, (count - 1) as nat);
        lemma_rotation_commutes(a, s, count - 1, j);
    }
}

/// The negacyclic product is associative: `(d * a) * s == d * (a * s)`, exactly.
pub proof fn lemma_product_associative(d: Seq<int>, a: Seq<int>, s: Seq<int>, j: int)
    requires
        a.len() >= 1,
        d.len() == a.len(),
        s.len() == a.len(),
        0 <= j < a.len(),
    ensures
        crate::polynomial::poly_mul_coeff(product_seq(d, a), s, j) == crate::polynomial::poly_mul_coeff(
            d,
            product_seq(a, s),
            j,
        ),
{
    let n = a.len();
    assert forall|t: int| 0 <= t < n implies #[trigger] product_seq(d, a)[t] == rotation_combination(d, a, n)[t] by {
        lemma_product_as_rotations(d, a, t, n);
    }
    assert(product_seq(d, a) =~= rotation_combination(d, a, n));
    lemma_combination_product(d, a, s, j, n);
    lemma_rotated_products(d, a, s, j, n);
    lemma_product_as_rotations(d, product_seq(a, s), j, n);
}

} // verus!

verus! {

proof fn lemma_nega_sum_linear_right(d: Seq<int>, x: Seq<int>, y: Seq<int>, z: Seq<int>, c: int, j: int, count: nat)
    requires
        x.len() == z.len(),
        y.len() == z.len(),
        d.len() == z.len(),
        count <= z.len(),
        0 <= j < z.len(),
        forall|t: int| 0 <= t < z.len() ==> #[trigger] z[t] == x[t] + c * y[t],
    ensures
        crate::polynomial::nega_sum(d, z, j, count) == crate::polynomial::nega_sum(d, x, j, count) + c
            * crate::polynomial::nega_sum(d, y, j, count),
    decreases count,
{
    if count > 0 {
        lemma_nega_sum_linear_right(d, x, y, z, c, j, (count - 1) as nat);
        let i = count - 1;
        let k = if i <= j { j - i } else { j - i + z.len() };
        let (di, xk, yk, zk) = (d[i], x[k], y[k], z[k]);
        let px = crate::polynomial::nega_sum(d, x, j, (count - 1) as nat);
        let py = crate::polynomial::nega_sum(d, y, j, (count - 1) as nat);
        assert(di * zk == di * xk + c * (di * yk)) by (nonlinear_arith)
            requires
                zk == xk + c * yk,
        ;
        assert(px + di * xk + c * (py + di * yk) == px + c * py + (di * xk + c * (di * yk)))
            by (nonlinear_arith);
        assert(px - di * xk + c * (py - di * yk) == px + c * py - (di * xk + c * (di * yk)))
            by (nonlinear_arith);
    }
}

proof fn lemma_product_reduced_right(m: int, d: Seq<int>, x: Seq<int>, j: int)
    requires
        m > 0,
        d.len() == x.len(),
        0 <= j < x.len(),
    ensures
        crate::polynomial::poly_mul_coeff(d, Seq::new(x.len(), |t: int| x[t] % m), j) % m
            == crate::polynomial::poly_mul_coeff(d, x, j) % m,
{
    let y = Seq::new(x.len(), |t: int| x[t] % m);
    let f = |i: int| crate::polynomial::nega_term(d, y, j, i);
    let g = |i: int| crate::polynomial::nega_term(d, x, j, i);
    lemma_nega_sum_is_sum(d, y, j, x.len());
    lemma_nega_sum_is_sum(d, x, j, x.len());
    assert forall|i: int| 0 <= i < x.len() implies #[trigger] f(i) % m == g(i) % m by {
        let k = if i <= j { j - i } else { j - i + x.len() };
        crate::torus::lemma_mod_mul(d[i], x[k], m);
        if i > j {
            crate::torus::lemma_mod_add(0, d[i] * (x[k] % m), m);
            crate::torus::lemma_mod_add(0, d[i] * x[k], m);
            crate::torus::lemma_mod_add(0, (d[i] * (x[k] % m)) % m, m);
            crate::torus::lemma_mod_add(0, (d[i] * x[k]) % m, m);
        }
    }
    lemma_sum_mod(f, g, m, 0, x.len() as int);
}

/// The phase `body - sum_i mask_i * key_i` of coefficient `j`, before reduction.
pub open spec fn phase_int(key: Seq<Seq<int>>, ct: Seq<Seq<int>>, j: int) -> int {
    ct[key.len() as int][j] - mask_key_coeff(ct, key, j, key.len())
}

/// The phase of a GLWE ciphertext, as a polynomial of size `n`.
pub open spec fn phase_seq(m: int, key: Seq<Seq<int>>, ct: Seq<Seq<int>>, n: int) -> Seq<int> {
    Seq::new(n as nat, |t: int| glwe_phase_coeff(m, key, ct, t))
}

/// The coefficients `t` of `sum_{i < count} ct_i * key_i`, before reduction.
pub open spec fn mask_key_seq(key: Seq<Seq<int>>, ct: Seq<Seq<int>>, n: int, count: nat) -> Seq<int> {
    Seq::new(n as nat, |t: int| mask_key_coeff(ct, key, t, count))
}

proof fn lemma_mask_key_scaled(d: Seq<int>, key: Seq<Seq<int>>, row: Seq<Seq<int>>, n: int, j: int, count: nat)
    requires
        n >= 1,
        d.len() == n,
        0 <= j < n,
        count <= key.len(),
        count <= row.len(),
        forall|i: int| 0 <= i < key.len() ==> (#[trigger] key[i]).len() == n,
        forall|i: int| 0 <= i < row.len() ==> (#[trigger] row[i]).len() == n,
    ensures
        mask_key_coeff(Seq::new(row.len(), |q: int| product_seq(d, row[q])), key, j, count)
            == crate::polynomial::poly_mul_coeff(d, mask_key_seq(key, row, n, count), j),
    decreases count,
{
    let y = Seq::new(row.len(), |q: int| product_seq(d, row[q]));
    if count == 0 {
        lemma_zero_right(d, mask_key_seq(key, row, n, 0), j, n as nat);
    } else {
        let i = count - 1;
        lemma_mask_key_scaled(d, key, row, n, j, (count - 1) as nat);
        assert(y[i] == product_seq(d, row[i]));
        lemma_product_associative(d, row[i], key[i], j);
        let prev = mask_key_seq(key, row, n, (count - 1) as nat);
        let cur = mask_key_seq(key, row, n, count);
        let p = product_seq(row[i], key[i]);
        assert forall|t: int| 0 <= t < n implies #[trigger] cur[t] == prev[t] + 1 * p[t] by {}
        lemma_nega_sum_linear_right(d, prev, p, cur, 1, j, n as nat);
    }
}

proof fn lemma_zero_right(d: Seq<int>, z: Seq<int>, j: int, count: nat)
    requires
        forall|t: int| 0 <= t < z.len() ==> #[trigger] z[t] == 0,
        z.len() == d.len(),
        0 <= j < z.len(),
        count <= z.len(),
    ensures
        crate::polynomial::nega_sum(d, z, j, count) == 0,
    decreases count,
{
    if count > 0 {
        lemma_zero_right(d, z, j, (count - 1) as nat);
        let i = count - 1;
        let k = if i <= j { j - i } else { j - i + z.len() };
        assert(z[k] == 0);
        assert(d[i] * z[k] == 0) by (nonlinear_arith)
            requires
                z[k] == 0,
        ;
    }
}

/// Multiplying every polynomial of a GLWE ciphertext by `d` multiplies its phase by `d`.
pub proof fn lemma_scaled_phase(m: int, d: Seq<int>, key: Seq<Seq<int>>, row: Seq<Seq<int>>, n: int, j: int)
    requires
        m > 0,
        n >= 1,
        d.len() == n,
        0 <= j < n,
        row.len() == key.len() + 1,
        forall|i: int| 0 <= i < key.len() ==> (#[trigger] key[i]).len() == n,
        forall|i: int| 0 <= i < row.len() ==> (#[trigger] row[i]).len() == n,
    ensures
        phase_int(key, Seq::new(row.len(), |q: int| product_seq(d, row[q])), j) % m
            == crate::polynomial::poly_mul_coeff(d, phase_seq(m, key, row, n), j) % m,
{
    let k = key.len() as int;
    lemma_mask_key_scaled(d, key, row, n, j, k as nat);
    let mk = mask_key_seq(key, row, n, k as nat);
    let unreduced = Seq::new(n as nat, |t: int| row[k][t] - mk[t]);
    assert forall|t: int| 0 <= t < n implies #[trigger] unreduced[t] == row[k][t] + (-1) * mk[t] by {}
    lemma_nega_sum_linear_right(d, row[k], mk, unreduced, -1, j, n as nat);
    assert(phase_seq(m, key, row, n) =~= Seq::new(unreduced.len(), |t: int| unreduced[t] % m)) by {
        assert forall|t: int| 0 <= t < n implies #[trigger] phase_seq(m, key, row, n)[t] == unreduced[t] % m by {
            assert(row.last() == row[k]);
        }
    }
    lemma_product_reduced_right(m, d, unreduced, j);
    let y = Seq::new(row.len(), |q: int| product_seq(d, row[q]));
    assert(y[k][j] == crate::polynomial::poly_mul_coeff(d, row[k], j));
}

} // verus!


