//! GGSW ciphertexts, the external product, the CMUX gate, and programmable bootstrapping by
//! blind rotation.
use crate::decomposition::{decompose, gadget_digits, ints};
use crate::glwe::{all_sized, glwe_phase_coeff, poly_vals, GlweCiphertext, GlweSecretKey};
use crate::keyswitch::decomposition_fits;
use crate::polynomial::{poly_add, poly_mul, poly_mul_coeff};
use crate::torus::{lemma_mod_add, vals, UnsignedTorus};
use vstd::prelude::*;

verus! {

/// The polynomial of the digits of level `j` of the coefficients of `a`, as torus values.
pub open spec fn digit_poly(m: int, a: Seq<int>, bits: nat, base_log: nat, level: nat, j: int) -> Seq<int> {
    Seq::new(a.len(), |t: int| gadget_digits(a[t], bits, base_log, level)[j] % m)
}

/// `sum_{u < count} (D_u * rows[u][comp])[c]`, where `D_u` is the digit polynomial of level
/// `u % level` of component `u / level` of `ct`.
pub open spec fn external_sum(
    m: int,
    rows: Seq<Seq<Seq<int>>>,
    ct: Seq<Seq<int>>,
    bits: nat,
    base_log: nat,
    level: nat,
    comp: int,
    c: int,
    count: nat,
) -> int
    decreases count,
{
    if count == 0 {
        0
    } else {
        let u = count - 1;
        external_sum(m, rows, ct, bits, base_log, level, comp, c, (count - 1) as nat) + poly_mul_coeff(
            digit_poly(m, ct[u / level as int], bits, base_log, level, u % level as int),
            rows[u][comp],
            c,
        )
    }
}

/// The external product of a GGSW ciphertext (given by its rows) with a GLWE ciphertext.
pub open spec fn external_product_spec(
    m: int,
    rows: Seq<Seq<Seq<int>>>,
    ct: Seq<Seq<int>>,
    bits: nat,
    base_log: nat,
    level: nat,
) -> Seq<Seq<int>> {
    Seq::new(
        ct.len(),
        |comp: int|
            Seq::new(
                ct[0].len(),
                |c: int| external_sum(m, rows, ct, bits, base_log, level, comp, c, ct.len() * level) % m,
            ),
    )
}

/// A GGSW ciphertext: for each component `p` (the `k` masks, then the body) and each level `j`,
/// the row `p * level + j`, a GLWE encryption of zero to which the message times
/// `2^(W - (j + 1) * base_log)` is added on coefficient 0 of component `p`.
pub struct GgswCiphertext<T> {
    pub rows: Vec<GlweCiphertext<T>>,
    pub glwe_dimension: usize,
    pub polynomial_size: usize,
    pub base_log: u32,
    pub level: u32,
}

impl<T: UnsignedTorus> GgswCiphertext<T> {
    pub open spec fn view_rows(&self) -> Seq<Seq<Seq<int>>> {
        self.rows@.map_values(|g: GlweCiphertext<T>| g.view_polys())
    }

    pub open spec fn wf(&self) -> bool {
        &&& decomposition_fits(T::width() as int, self.base_log as int, self.level as int)
        &&& self.polynomial_size >= 1
        &&& self.rows.len() == (self.glwe_dimension + 1) * self.level
        &&& forall|u: int|
            0 <= u < self.rows.len() ==> {
                &&& (#[trigger] self.rows[u]).wf()
                &&& self.rows[u].polys.len() == self.glwe_dimension + 1
                &&& self.rows[u].polynomial_size == self.polynomial_size
            }
    }

    /// The external product `self ⊡ ct`: each polynomial of `ct` is decomposed into its
    /// digit polynomials, which multiply the matching rows, and the products are summed.
    pub fn external_product(&self, ct: &GlweCiphertext<T>) -> (r: GlweCiphertext<T>)
        requires
            self.wf(),
            ct.wf(),
            ct.polys.len() == self.glwe_dimension + 1,
            ct.polynomial_size == self.polynomial_size,
        ensures
            r.wf(),
            r.polys.len() == ct.polys.len(),
            r.polynomial_size == ct.polynomial_size,
            r.view_polys() =~~= external_product_spec(
                T::modulus(),
                self.view_rows(),
                ct.view_polys(),
                T::width(),
                self.base_log as nat,
                self.level as nat,
            ),
    {
        let n = self.polynomial_size;
        let out = gadget_product(&self.rows, &ct.polys, self.glwe_dimension + 1, n, self.base_log, self.level);
        let r = GlweCiphertext { polys: out, polynomial_size: n };
        proof {
            let cv = ct.view_polys();
            assert(cv[0].len() == n) by {
                assert(cv[0] == vals(ct.polys[0]@));
            }
            assert(self.view_rows() == rows_view(self.rows@));
            let spec = external_product_spec(
                T::modulus(),
                self.view_rows(),
                cv,
                T::width(),
                self.base_log as nat,
                self.level as nat,
            );
            assert forall|q: int| 0 <= q < r.polys.len() implies #[trigger] r.view_polys()[q] =~= spec[q] by {
                assert(r.view_polys()[q] == vals(r.polys[q]@));
            }
        }
        r
    }
}

/// The views of a list of GLWE ciphertexts.
pub open spec fn rows_view<T: UnsignedTorus>(rows: Seq<GlweCiphertext<T>>) -> Seq<Seq<Seq<int>>> {
    rows.map_values(|g: GlweCiphertext<T>| g.view_polys())
}

/// `sum_u D_u * rows[u]`, where `D_u` is the digit polynomial of level `u % level` of
/// `polys[u / level]`: a GLWE ciphertext of `k1` polynomials.
pub fn gadget_product<T: UnsignedTorus>(
    rows: &Vec<GlweCiphertext<T>>,
    polys: &Vec<Vec<T>>,
    k1: usize,
    n: usize,
    base_log: u32,
    level: u32,
) -> (r: Vec<Vec<T>>)
    requires
        decomposition_fits(T::width() as int, base_log as int, level as int),
        n >= 1,
        k1 >= 1,
        rows.len() == polys.len() * level,
        all_sized(polys@, n as int),
        forall|u: int|
            0 <= u < rows.len() ==> {
                &&& (#[trigger] rows[u]).wf()
                &&& rows[u].polys.len() == k1
                &&& rows[u].polynomial_size == n
            },
    ensures
        r.len() == k1,
        all_sized(r@, n as int),
        forall|q: int, c: int|
            0 <= q < k1 && 0 <= c < n ==> #[trigger] r[q][c].val() == external_sum(
                T::modulus(),
                rows_view(rows@),
                poly_vals(polys@),
                T::width(),
                base_log as nat,
                level as nat,
                q,
                c,
                (polys.len() * level) as nat,
            ) % T::modulus(),
{
    let bits = T::bits();
    let ghost m = T::modulus();
    let ghost rv = rows_view(rows@);
    let ghost cv = poly_vals(polys@);
    proof {
        T::lemma_modulus();
    }
    let zero = GlweCiphertext::<T>::trivial_encrypt(k1 - 1, &zero_poly(n));
    let mut out = zero.polys;
    proof {
        assert forall|q: int, c: int| 0 <= q < k1 && 0 <= c < n implies #[trigger] out[q][c].val()
            == external_sum(m, rv, cv, bits as nat, base_log as nat, level as nat, q, c, 0) % m by {
            vstd::arithmetic::div_mod::lemma_small_mod(0, m as nat);
        }
    }
    let total = polys.len() * (level as usize);
    let mut u: usize = 0;
    while u < total
        invariant
            decomposition_fits(T::width() as int, base_log as int, level as int),
            n >= 1,
            k1 >= 1,
            rows.len() == polys.len() * level,
            all_sized(polys@, n as int),
            forall|u2: int|
                0 <= u2 < rows.len() ==> {
                    &&& (#[trigger] rows[u2]).wf()
                    &&& rows[u2].polys.len() == k1
                    &&& rows[u2].polynomial_size == n
                },
            bits as nat == T::width(),
            bits == 32 || bits == 64,
            m == T::modulus(),
            m == vstd::arithmetic::power2::pow2(bits as nat),
            m > 0,
            rv == rows_view(rows@),
            cv == poly_vals(polys@),
            total == polys.len() * level,
            u <= total,
            out.len() == k1,
            all_sized(out@, n as int),
            forall|q: int, c: int|
                0 <= q < k1 && 0 <= c < n ==> #[trigger] out[q][c].val() == external_sum(
                    m,
                    rv,
                    cv,
                    bits as nat,
                    base_log as nat,
                    level as nat,
                    q,
                    c,
                    u as nat,
                ) % m,
        decreases total - u,
    {
        let p = u / (level as usize);
        let j = u % (level as usize);
        proof {
            vstd::arithmetic::div_mod::lemma_fundamental_div_mod(u as int, level as int);
            let pi = p as int;
            let ji = j as int;
            let li = level as int;
            assert(u as int == li * pi + ji);
            assert(pi < polys.len()) by (nonlinear_arith)
                requires
                    u as int == li * pi + ji,
                    ji >= 0,
                    (u as int) < polys.len() * li,
                    li > 0,
            ;
        }
        let dp = digit_polynomial(&polys[p], bits, base_log, level, j);
        let mut q: usize = 0;
        while q < k1
            invariant
                decomposition_fits(T::width() as int, base_log as int, level as int),
                n >= 1,
                k1 >= 1,
                rows.len() == polys.len() * level,
                all_sized(polys@, n as int),
                forall|u2: int|
                    0 <= u2 < rows.len() ==> {
                        &&& (#[trigger] rows[u2]).wf()
                        &&& rows[u2].polys.len() == k1
                        &&& rows[u2].polynomial_size == n
                    },
                bits as nat == T::width(),
                m == T::modulus(),
                m > 0,
                rv == rows_view(rows@),
                cv == poly_vals(polys@),
                u < total,
                total == polys.len() * level,
                p as int == u as int / level as int,
                j as int == u as int % level as int,
                p < polys.len(),
                vals(dp@) == digit_poly(m, cv[p as int], bits as nat, base_log as nat, level as nat, j as int),
                dp.len() == n,
                q <= k1,
                out.len() == k1,
                all_sized(out@, n as int),
                forall|q2: int, c: int|
                    0 <= q2 < k1 && 0 <= c < n ==> #[trigger] out[q2][c].val() == external_sum(
                        m,
                        rv,
                        cv,
                        bits as nat,
                        base_log as nat,
                        level as nat,
                        q2,
                        c,
                        if q2 < q { (u + 1) as nat } else { u as nat },
                    ) % m,
            decreases k1 - q,
        {
            assert(rows[u as int].polys.len() == k1);
            let prod = poly_mul(&dp, &rows[u].polys[q]);
            let sum = poly_add(&out[q], &prod);
            let ghost before = out@;
            out.set(q, sum);
            proof {
                assert forall|q2: int, c: int| 0 <= q2 < k1 && 0 <= c < n implies #[trigger] out[q2][c].val()
                    == external_sum(
                    m,
                    rv,
                    cv,
                    bits as nat,
                    base_log as nat,
                    level as nat,
                    q2,
                    c,
                    if q2 < q + 1 { (u + 1) as nat } else { u as nat },
                ) % m by {
                    if q2 == q {
                        let x = external_sum(m, rv, cv, bits as nat, base_log as nat, level as nat, q2, c, u as nat);
                        let y = poly_mul_coeff(vals(dp@), vals(rows[u as int].polys[q as int]@), c);
                        assert(rv[u as int] == rows[u as int].view_polys());
                        assert(rv[u as int][q2] == vals(rows[u as int].polys[q as int]@));
                        assert(before[q2][c].val() == x % m);
                        lemma_mod_add(x, y, m);
                        lemma_mod_add(y, x, m);
                        lemma_mod_add(x % m, y, m);
                        lemma_mod_add(y % m, x % m, m);
                        assert(external_sum(m, rv, cv, bits as nat, base_log as nat, level as nat, q2, c, (u + 1) as nat) == x + y);
                    } else {
                        assert(out[q2] == before[q2]);
                    }
                }
                assert forall|i: int| 0 <= i < out.len() implies (#[trigger] out@[i]).len() == n as int by {
                    if i != q {
                        assert(out[i] == before[i]);
                    }
                }
            }
            q += 1;
        }
        u += 1;
    }
    out
}

/// The all-zero polynomial of size `n`.
pub fn zero_poly<T: UnsignedTorus>(n: usize) -> (r: Vec<T>)
    requires
        n >= 1,
    ensures
        r.len() == n,
        forall|j: int| 0 <= j < n ==> #[trigger] r[j].val() == 0,
{
    let mut r: Vec<T> = Vec::new();
    let mut j: usize = 0;
    while j < n
        invariant
            j <= n,
            r.len() == j,
            forall|t: int| 0 <= t < j ==> #[trigger] r[t].val() == 0,
        decreases n - j,
    {
        r.push(T::zero());
        j += 1;
    }
    r
}

/// The digit polynomial of level `j` of `a`.
fn digit_polynomial<T: UnsignedTorus>(a: &Vec<T>, bits: u32, base_log: u32, level: u32, j: usize) -> (r: Vec<T>)
    requires
        bits as nat == T::width(),
        bits == 32 || bits == 64,
        T::modulus() == vstd::arithmetic::power2::pow2(bits as nat),
        decomposition_fits(bits as int, base_log as int, level as int),
        j < level,
    ensures
        r.len() == a.len(),
        vals(r@) == digit_poly(T::modulus(), vals(a@), bits as nat, base_log as nat, level as nat, j as int),
{
    let mut r: Vec<T> = Vec::new();
    let mut t: usize = 0;
    while t < a.len()
        invariant
            bits as nat == T::width(),
            bits == 32 || bits == 64,
            T::modulus() == vstd::arithmetic::power2::pow2(bits as nat),
            decomposition_fits(bits as int, base_log as int, level as int),
            j < level,
            t <= a.len(),
            r.len() == t,
            forall|t2: int|
                0 <= t2 < t ==> #[trigger] r[t2].val() == gadget_digits(
                    a[t2].val(),
                    bits as nat,
                    base_log as nat,
                    level as nat,
                )[j as int] % T::modulus(),
        decreases a.len() - t,
    {
        proof {
            T::lemma_val_bounds(a[t as int]);
        }
        let d = decompose(a[t].to_u64(), bits, base_log, level);
        proof {
            assert(ints(d@)[j as int] == d[j as int] as int);
        }
        r.push(T::from_signed(d[j]));
        t += 1;
    }
    proof {
        assert(vals(r@) =~= digit_poly(T::modulus(), vals(a@), bits as nat, base_log as nat, level as nat, j as int));
    }
    r
}

} // verus!

verus! {

/// `X^shift` times each polynomial of `ct`.
pub open spec fn glwe_rotate_spec(m: int, ct: Seq<Seq<int>>, shift: int) -> Seq<Seq<int>> {
    Seq::new(
        ct.len(),
        |q: int| Seq::new(ct[q].len(), |c: int| crate::polynomial::monomial_mul_coeff(ct[q], shift, c) % m),
    )
}

/// The entry-wise sum of two GLWE ciphertexts.
pub open spec fn glwe_add_spec(m: int, a: Seq<Seq<int>>, b: Seq<Seq<int>>) -> Seq<Seq<int>> {
    Seq::new(a.len(), |q: int| Seq::new(a[q].len(), |c: int| (a[q][c] + b[q][c]) % m))
}

/// The entry-wise difference of two GLWE ciphertexts.
pub open spec fn glwe_sub_spec(m: int, a: Seq<Seq<int>>, b: Seq<Seq<int>>) -> Seq<Seq<int>> {
    Seq::new(a.len(), |q: int| Seq::new(a[q].len(), |c: int| (a[q][c] - b[q][c]) % m))
}

/// The CMUX gate `acc + ggsw ⊡ (X^shift * acc - acc)`: it keeps `acc` where the GGSW
/// encrypts 0 and rotates it by `shift` where it encrypts 1.
pub open spec fn cmux_spec(
    m: int,
    acc: Seq<Seq<int>>,
    rows: Seq<Seq<Seq<int>>>,
    shift: int,
    bits: nat,
    base_log: nat,
    level: nat,
) -> Seq<Seq<int>> {
    glwe_add_spec(
        m,
        acc,
        external_product_spec(
            m,
            rows,
            glwe_sub_spec(m, glwe_rotate_spec(m, acc, shift), acc),
            bits,
            base_log,
            level,
        ),
    )
}

/// The `k + 1` polynomials of a GLWE ciphertext whose component `p` adds `v` to coefficient 0.
pub open spec fn add_to_constant(m: int, ct: Seq<Seq<int>>, p: int, v: int) -> Seq<Seq<int>> {
    ct.update(p, ct[p].update(0, (ct[p][0] + v) % m))
}

fn glwe_rotate<T: UnsignedTorus>(ct: &GlweCiphertext<T>, shift: usize) -> (r: GlweCiphertext<T>)
    requires
        ct.wf(),
        shift < 2 * ct.polynomial_size,
    ensures
        r.wf(),
        r.polys.len() == ct.polys.len(),
        r.polynomial_size == ct.polynomial_size,
        r.view_polys() =~~= glwe_rotate_spec(T::modulus(), ct.view_polys(), shift as int),
{
    let mut polys: Vec<Vec<T>> = Vec::new();
    let mut q: usize = 0;
    while q < ct.polys.len()
        invariant
            ct.wf(),
            shift < 2 * ct.polynomial_size,
            q <= ct.polys.len(),
            polys.len() == q,
            all_sized(polys@, ct.polynomial_size as int),
            forall|q2: int| 0 <= q2 < q ==> vals((#[trigger] polys[q2])@) =~= glwe_rotate_spec(
                T::modulus(),
                ct.view_polys(),
                shift as int,
            )[q2],
        decreases ct.polys.len() - q,
    {
        assert(ct.polys[q as int].len() == ct.polynomial_size);
        let p = crate::polynomial::monomial_mul(&ct.polys[q], shift);
        proof {
            assert(ct.view_polys()[q as int] == vals(ct.polys[q as int]@));
        }
        polys.push(p);
        q += 1;
    }
    let r = GlweCiphertext { polys, polynomial_size: ct.polynomial_size };
    proof {
        assert forall|q2: int| 0 <= q2 < r.polys.len() implies #[trigger] r.view_polys()[q2] =~= glwe_rotate_spec(
            T::modulus(),
            ct.view_polys(),
            shift as int,
        )[q2] by {
            assert(r.view_polys()[q2] == vals(r.polys[q2]@));
        }
    }
    r
}

fn glwe_add<T: UnsignedTorus>(a: &GlweCiphertext<T>, b: &GlweCiphertext<T>) -> (r: GlweCiphertext<T>)
    requires
        a.wf(),
        b.wf(),
        a.polys.len() == b.polys.len(),
        a.polynomial_size == b.polynomial_size,
    ensures
        r.wf(),
        r.polys.len() == a.polys.len(),
        r.polynomial_size == a.polynomial_size,
        r.view_polys() =~~= glwe_add_spec(T::modulus(), a.view_polys(), b.view_polys()),
{
    let mut polys: Vec<Vec<T>> = Vec::new();
    let mut q: usize = 0;
    while q < a.polys.len()
        invariant
            a.wf(),
            b.wf(),
            a.polys.len() == b.polys.len(),
            a.polynomial_size == b.polynomial_size,
            q <= a.polys.len(),
            polys.len() == q,
            all_sized(polys@, a.polynomial_size as int),
            forall|q2: int| 0 <= q2 < q ==> vals((#[trigger] polys[q2])@) =~= glwe_add_spec(
                T::modulus(),
                a.view_polys(),
                b.view_polys(),
            )[q2],
        decreases a.polys.len() - q,
    {
        assert(a.polys[q as int].len() == a.polynomial_size);
        assert(b.polys[q as int].len() == a.polynomial_size);
        let p = poly_add(&a.polys[q], &b.polys[q]);
        proof {
            assert(a.view_polys()[q as int] == vals(a.polys[q as int]@));
            assert(b.view_polys()[q as int] == vals(b.polys[q as int]@));
        }
        polys.push(p);
        q += 1;
    }
    let r = GlweCiphertext { polys, polynomial_size: a.polynomial_size };
    proof {
        assert forall|q2: int| 0 <= q2 < r.polys.len() implies #[trigger] r.view_polys()[q2] =~= glwe_add_spec(
            T::modulus(),
            a.view_polys(),
            b.view_polys(),
        )[q2] by {
            assert(r.view_polys()[q2] == vals(r.polys[q2]@));
        }
    }
    r
}

fn glwe_sub<T: UnsignedTorus>(a: &GlweCiphertext<T>, b: &GlweCiphertext<T>) -> (r: GlweCiphertext<T>)
    requires
        a.wf(),
        b.wf(),
        a.polys.len() == b.polys.len(),
        a.polynomial_size == b.polynomial_size,
    ensures
        r.wf(),
        r.polys.len() == a.polys.len(),
        r.polynomial_size == a.polynomial_size,
        r.view_polys() =~~= glwe_sub_spec(T::modulus(), a.view_polys(), b.view_polys()),
{
    let mut polys: Vec<Vec<T>> = Vec::new();
    let mut q: usize = 0;
    while q < a.polys.len()
        invariant
            a.wf(),
            b.wf(),
            a.polys.len() == b.polys.len(),
            a.polynomial_size == b.polynomial_size,
            q <= a.polys.len(),
            polys.len() == q,
            all_sized(polys@, a.polynomial_size as int),
            forall|q2: int| 0 <= q2 < q ==> vals((#[trigger] polys[q2])@) =~= glwe_sub_spec(
                T::modulus(),
                a.view_polys(),
                b.view_polys(),
            )[q2],
        decreases a.polys.len() - q,
    {
        assert(a.polys[q as int].len() == a.polynomial_size);
        assert(b.polys[q as int].len() == a.polynomial_size);
        let p = crate::polynomial::poly_sub(&a.polys[q], &b.polys[q]);
        proof {
            assert(a.view_polys()[q as int] == vals(a.polys[q as int]@));
            assert(b.view_polys()[q as int] == vals(b.polys[q as int]@));
        }
        polys.push(p);
        q += 1;
    }
    let r = GlweCiphertext { polys, polynomial_size: a.polynomial_size };
    proof {
        assert forall|q2: int| 0 <= q2 < r.polys.len() implies #[trigger] r.view_polys()[q2] =~= glwe_sub_spec(
            T::modulus(),
            a.view_polys(),
            b.view_polys(),
        )[q2] by {
            assert(r.view_polys()[q2] == vals(r.polys[q2]@));
        }
    }
    r
}

impl<T: UnsignedTorus> GgswCiphertext<T> {
    /// The CMUX gate on `acc` with rotation `shift`: `acc + self ⊡ (X^shift * acc - acc)`.
    pub fn cmux(&self, acc: &GlweCiphertext<T>, shift: usize) -> (r: GlweCiphertext<T>)
        requires
            self.wf(),
            acc.wf(),
            acc.polys.len() == self.glwe_dimension + 1,
            acc.polynomial_size == self.polynomial_size,
            shift < 2 * acc.polynomial_size,
        ensures
            r.wf(),
            r.polys.len() == acc.polys.len(),
            r.polynomial_size == acc.polynomial_size,
            r.view_polys() =~~= cmux_spec(
                T::modulus(),
                acc.view_polys(),
                self.view_rows(),
                shift as int,
                T::width(),
                self.base_log as nat,
                self.level as nat,
            ),
    {
        let rotated = glwe_rotate(acc, shift);
        let diff = glwe_sub(&rotated, acc);
        let ext = self.external_product(&diff);
        glwe_add(acc, &ext)
    }
}

} // verus!

verus! {

/// The GLWE encryption of `pt` under `key` with the given masks and error.
pub open spec fn glwe_encryption_spec(
    m: int,
    key: Seq<Seq<int>>,
    masks: Seq<Seq<int>>,
    pt: Seq<int>,
    err: Seq<int>,
) -> Seq<Seq<int>> {
    masks.push(
        Seq::new(pt.len(), |j: int| (crate::glwe::mask_key_coeff(masks, key, j, key.len()) + pt[j] + err[j]) % m),
    )
}

/// The rows of the GGSW encryption of `msg` under `key`, row `u` made with `masks[u]` and
/// `errors[u]`.
pub open spec fn ggsw_rows_spec(
    m: int,
    key: Seq<Seq<int>>,
    msg: int,
    n: int,
    bits: nat,
    base_log: nat,
    level: nat,
    masks: Seq<Seq<Seq<int>>>,
    errors: Seq<Seq<int>>,
) -> Seq<Seq<Seq<int>>> {
    Seq::new(
        masks.len(),
        |u: int|
            add_to_constant(
                m,
                glwe_encryption_spec(m, key, masks[u], Seq::new(n as nat, |j: int| 0), errors[u]),
                u / level as int,
                (msg * vstd::arithmetic::power2::pow2(
                    (bits - (u % level as int + 1) * base_log) as nat,
                )) % m,
            ),
    )
}

/// The values of each polynomial of each row of a list.
pub open spec fn rows_vals<T: UnsignedTorus>(rows: Seq<Vec<Vec<T>>>) -> Seq<Seq<Seq<int>>> {
    rows.map_values(|r: Vec<Vec<T>>| poly_vals(r@))
}

impl<T: UnsignedTorus> GlweSecretKey<T> {
    /// The GGSW encryption of the constant `msg` under `self`: row `u` is the encryption of zero
    /// with `masks[u]` and `errors[u]`, plus `msg * 2^(W - (u % level + 1) * base_log)` on
    /// coefficient 0 of component `u / level`.
    pub fn encrypt_ggsw(
        &self,
        msg: T,
        base_log: u32,
        level: u32,
        masks: &Vec<Vec<Vec<T>>>,
        errors: &Vec<Vec<T>>,
    ) -> (r: GgswCiphertext<T>)
        requires
            self.wf(),
            decomposition_fits(T::width() as int, base_log as int, level as int),
            (self.polys.len() + 1) * level <= usize::MAX,
            masks.len() == (self.polys.len() + 1) * level,
            errors.len() == masks.len(),
            forall|u: int|
                0 <= u < masks.len() ==> (#[trigger] masks[u]).len() == self.polys.len() && all_sized(
                    masks[u]@,
                    self.polynomial_size as int,
                ),
            forall|u: int| 0 <= u < errors.len() ==> (#[trigger] errors[u]).len() == self.polynomial_size,
        ensures
            r.wf(),
            r.glwe_dimension == self.polys.len(),
            r.polynomial_size == self.polynomial_size,
            r.base_log == base_log,
            r.level == level,
            r.view_rows() =~~= ggsw_rows_spec(
                T::modulus(),
                self.key(),
                msg.val(),
                self.polynomial_size as int,
                T::width(),
                base_log as nat,
                level as nat,
                masks@.map_values(|v: Vec<Vec<T>>| poly_vals(v@)),
                poly_vals(errors@),
            ),
    {
        let n = self.polynomial_size;
        let k = self.polys.len();
        let bits = T::bits();
        let ghost m = T::modulus();
        let ghost spec = ggsw_rows_spec(
            m,
            self.key(),
            msg.val(),
            n as int,
            bits as nat,
            base_log as nat,
            level as nat,
            masks@.map_values(|v: Vec<Vec<T>>| poly_vals(v@)),
            poly_vals(errors@),
        );
        proof {
            T::lemma_modulus();
        }
        let zero: Vec<T> = zero_poly(n);
        let total = (k + 1) * (level as usize);
        let mut rows: Vec<GlweCiphertext<T>> = Vec::new();
        let mut u: usize = 0;
        while u < total
            invariant
                self.wf(),
                n == self.polynomial_size,
                k == self.polys.len(),
                bits as nat == T::width(),
                bits == 32 || bits == 64,
                m == T::modulus(),
                m == vstd::arithmetic::power2::pow2(bits as nat),
                m > 0,
                decomposition_fits(bits as int, base_log as int, level as int),
                total == (k + 1) * level,
                masks.len() == total,
                errors.len() == total,
                forall|u2: int|
                    0 <= u2 < masks.len() ==> (#[trigger] masks[u2]).len() == k && all_sized(masks[u2]@, n as int),
                forall|u2: int| 0 <= u2 < errors.len() ==> (#[trigger] errors[u2]).len() == n,
                zero.len() == n,
                forall|j: int| 0 <= j < n ==> #[trigger] zero[j].val() == 0,
                spec == ggsw_rows_spec(
                    m,
                    self.key(),
                    msg.val(),
                    n as int,
                    bits as nat,
                    base_log as nat,
                    level as nat,
                    masks@.map_values(|v: Vec<Vec<T>>| poly_vals(v@)),
                    poly_vals(errors@),
                ),
                u <= total,
                rows.len() == u,
                forall|u2: int|
                    0 <= u2 < u ==> {
                        &&& (#[trigger] rows[u2]).wf()
                        &&& rows[u2].polys.len() == k + 1
                        &&& rows[u2].polynomial_size == n
                        &&& rows[u2].view_polys() =~~= spec[u2]
                    },
            decreases total - u,
        {
            let ct = self.encrypt(&zero, &masks[u], &errors[u]);
            let p = u / (level as usize);
            let j = u % (level as usize);
            proof {
                vstd::arithmetic::div_mod::lemma_fundamental_div_mod(u as int, level as int);
                let pi = p as int;
                let ji = j as int;
                let li = level as int;
                assert(u as int == li * pi + ji);
                assert(pi < k + 1) by (nonlinear_arith)
                    requires
                        u as int == li * pi + ji,
                        ji >= 0,
                        (u as int) < (k + 1) * li,
                        li > 0,
                ;
                assert((j + 1) * base_log <= base_log * level) by (nonlinear_arith)
                    requires
                        j < level,
                        base_log >= 1,
                ;
                assert((j + 1) * base_log >= 1) by (nonlinear_arith)
                    requires
                        base_log >= 1,
                        j >= 0,
                ;
            }
            let shift = bits - ((j as u32) + 1) * base_log;
            proof {
                vstd::arithmetic::power2::lemma_pow2_strictly_increases(shift as nat, 64);
                vstd::arithmetic::power2::lemma_pow2_strictly_increases(shift as nat, bits as nat);
                vstd::arithmetic::power2::lemma2_to64();
            }
            let g = T::from_u64(crate::decomposition::pow2_u64(shift));
            let v = msg.torus_mul(g);
            let ghost ctv = ct.view_polys();
            let mut polys = ct.polys;
            assert(polys[p as int].len() == n);
            let mut comp = crate::torus::copy_vec(&polys[p]);
            let c0 = comp[0].torus_add(v);
            comp.set(0, c0);
            polys.set(p, comp);
            let row = GlweCiphertext { polys, polynomial_size: n };
            proof {
                let pt = Seq::new(n as nat, |j2: int| 0int);
                let enc = glwe_encryption_spec(
                    m,
                    self.key(),
                    poly_vals(masks[u as int]@),
                    pt,
                    vals(errors[u as int]@),
                );
                assert(masks@.map_values(|v: Vec<Vec<T>>| poly_vals(v@))[u as int] == poly_vals(
                    masks[u as int]@,
                ));
                assert(poly_vals(errors@)[u as int] == vals(errors[u as int]@));
                assert forall|q: int| 0 <= q < k + 1 implies #[trigger] ctv[q] =~= enc[q] by {
                    if q == k {
                        assert forall|j2: int| 0 <= j2 < n implies ctv[q][j2] == enc[q][j2] by {
                            assert(ctv[q][j2] == ct.polys[k as int][j2].val());
                        }
                    } else {
                        assert(ctv[q] == poly_vals(ct.polys@).drop_last()[q]);
                    }
                }
                assert(ctv =~~= enc);
                let pw = vstd::arithmetic::power2::pow2(shift as nat) as int;
                vstd::arithmetic::div_mod::lemma_small_mod(pw as nat, m as nat);
                assert(v.val() == (msg.val() * pw) % m);
                assert(shift as nat == (bits - (u as int % level as int + 1) * base_log) as nat);
                let want = add_to_constant(m, enc, p as int, (msg.val() * pw) % m);
                assert(spec[u as int] == want);
                assert forall|q: int| 0 <= q < k + 1 implies #[trigger] row.view_polys()[q] =~= want[q] by {
                    assert(row.view_polys()[q] == vals(row.polys[q]@));
                    if q == p {
                        assert forall|j2: int| 0 <= j2 < n implies row.view_polys()[q][j2] == want[q][j2] by {
                            if j2 == 0 {
                                assert(want[q][0] == (enc[q][0] + (msg.val() * pw) % m) % m);
                                assert(ctv[q][0] == ct.polys[q][0].val()) by {
                                    assert(ctv[q] == vals(ct.polys[q]@));
                                }
                            } else {
                                assert(ctv[q] == vals(ct.polys[q]@));
                            }
                        }
                    } else {
                        assert(ctv[q] == vals(ct.polys[q]@));
                    }
                }
                assert(row.view_polys() =~~= spec[u as int]);
                assert forall|i: int| 0 <= i < row.polys.len() implies (#[trigger] row.polys@[i]).len() == n as int by {
                    assert(ct.polys[i].len() == n);
                }
            }
            rows.push(row);
            u += 1;
        }
        let r = GgswCiphertext { rows, glwe_dimension: k, polynomial_size: n, base_log, level };
        proof {
            assert forall|u2: int| 0 <= u2 < total implies #[trigger] r.view_rows()[u2] =~~= spec[u2] by {
                assert(r.view_rows()[u2] == r.rows[u2].view_polys());
            }
        }
        r
    }
}

} // verus!

verus! {

/// `a` switched from the modulus `2^bits` to `2N = 2^log_two_n`, rounding to nearest.
pub open spec fn mod_switch(a: int, bits: nat, log_two_n: nat) -> int {
    crate::decomposition::closest_representable(a, bits, log_two_n, 1)
}

/// The accumulator after the first `count` CMUX gates of the blind rotation of `lut` by the
/// LWE ciphertext `input`: it starts as `X^(2N - b~) * lut`, and gate `i` rotates it by `a~_i`
/// where the `i`-th GGSW encrypts 1.
pub open spec fn blind_rotate_spec(
    m: int,
    lut: Seq<Seq<int>>,
    bsk: Seq<Seq<Seq<Seq<int>>>>,
    input: Seq<int>,
    bits: nat,
    log_two_n: nat,
    base_log: nat,
    level: nat,
    count: nat,
) -> Seq<Seq<int>>
    decreases count,
{
    let two_n = vstd::arithmetic::power2::pow2(log_two_n) as int;
    if count == 0 {
        glwe_rotate_spec(m, lut, (two_n - mod_switch(input.last(), bits, log_two_n)) % two_n)
    } else {
        cmux_spec(
            m,
            blind_rotate_spec(m, lut, bsk, input, bits, log_two_n, base_log, level, (count - 1) as nat),
            bsk[count - 1],
            mod_switch(input[count - 1], bits, log_two_n),
            bits,
            base_log,
            level,
        )
    }
}

/// A bootstrapping key: for each coefficient of the input LWE key, a GGSW encryption of it
/// under the output GLWE key.
pub struct LweBootstrapKey<T> {
    pub ggsws: Vec<GgswCiphertext<T>>,
    pub glwe_dimension: usize,
    pub polynomial_size: usize,
    pub log_polynomial_size: u32,
    pub base_log: u32,
    pub level: u32,
}

impl<T: UnsignedTorus> LweBootstrapKey<T> {
    pub open spec fn view_ggsws(&self) -> Seq<Seq<Seq<Seq<int>>>> {
        self.ggsws@.map_values(|g: GgswCiphertext<T>| g.view_rows())
    }

    pub open spec fn wf(&self) -> bool {
        &&& self.polynomial_size == vstd::arithmetic::power2::pow2(self.log_polynomial_size as nat)
        &&& self.log_polynomial_size + 1 < T::width()
        &&& 2 * self.polynomial_size <= usize::MAX
        &&& (self.glwe_dimension + 1) * self.polynomial_size < usize::MAX
        &&& forall|i: int|
            0 <= i < self.ggsws.len() ==> {
                &&& (#[trigger] self.ggsws[i]).wf()
                &&& self.ggsws[i].glwe_dimension == self.glwe_dimension
                &&& self.ggsws[i].polynomial_size == self.polynomial_size
                &&& self.ggsws[i].base_log == self.base_log
                &&& self.ggsws[i].level == self.level
            }
    }

    /// The dimension of the LWE ciphertexts that the key bootstraps.
    pub fn input_lwe_dimension(&self) -> (r: usize)
        ensures
            r == self.ggsws.len(),
    {
        self.ggsws.len()
    }

    /// The dimension `k * N` of the LWE ciphertexts that bootstrapping produces.
    pub fn output_lwe_dimension(&self) -> (r: usize)
        requires
            self.wf(),
        ensures
            r == self.glwe_dimension * self.polynomial_size,
    {
        proof {
            assert(self.glwe_dimension * self.polynomial_size <= (self.glwe_dimension + 1)
                * self.polynomial_size) by (nonlinear_arith);
        }
        self.glwe_dimension * self.polynomial_size
    }

    /// The bootstrapping key from `input_key` to `output_key`: GGSW `i` encrypts coefficient `i`
    /// of `input_key` with `masks[i]` and `errors[i]` (see `encrypt_ggsw`).
    pub fn new(
        input_key: &crate::lwe::LweSecretKey<T>,
        output_key: &GlweSecretKey<T>,
        log_polynomial_size: u32,
        base_log: u32,
        level: u32,
        masks: &Vec<Vec<Vec<Vec<T>>>>,
        errors: &Vec<Vec<Vec<T>>>,
    ) -> (r: Self)
        requires
            output_key.wf(),
            output_key.polynomial_size == vstd::arithmetic::power2::pow2(log_polynomial_size as nat),
            log_polynomial_size + 1 < T::width(),
            2 * output_key.polynomial_size <= usize::MAX,
            (output_key.polys.len() + 1) * output_key.polynomial_size < usize::MAX,
            decomposition_fits(T::width() as int, base_log as int, level as int),
            (output_key.polys.len() + 1) * level <= usize::MAX,
            masks.len() == input_key.coefficients.len(),
            errors.len() == masks.len(),
            forall|i: int, u: int|
                0 <= i < masks.len() && 0 <= u < masks[i].len() ==> (#[trigger] masks[i][u]).len()
                    == output_key.polys.len() && all_sized(masks[i][u]@, output_key.polynomial_size as int),
            forall|i: int, u: int|
                0 <= i < errors.len() && 0 <= u < errors[i].len() ==> (#[trigger] errors[i][u]).len()
                    == output_key.polynomial_size,
            forall|i: int| 0 <= i < masks.len() ==> (#[trigger] masks[i]).len() == (output_key.polys.len() + 1) * level,
            forall|i: int| 0 <= i < errors.len() ==> (#[trigger] errors[i]).len() == (output_key.polys.len() + 1) * level,
        ensures
            r.wf(),
            r.ggsws.len() == input_key.coefficients.len(),
            r.glwe_dimension == output_key.polys.len(),
            r.polynomial_size == output_key.polynomial_size,
            r.log_polynomial_size == log_polynomial_size,
            r.base_log == base_log,
            r.level == level,
            forall|i: int|
                0 <= i < r.ggsws.len() ==> #[trigger] r.view_ggsws()[i] =~~= ggsw_rows_spec(
                    T::modulus(),
                    output_key.key(),
                    input_key.key()[i],
                    output_key.polynomial_size as int,
                    T::width(),
                    base_log as nat,
                    level as nat,
                    masks[i]@.map_values(|v: Vec<Vec<T>>| poly_vals(v@)),
                    poly_vals(errors[i]@),
                ),
    {
        let mut ggsws: Vec<GgswCiphertext<T>> = Vec::new();
        let mut i: usize = 0;
        while i < masks.len()
            invariant
                output_key.wf(),
                decomposition_fits(T::width() as int, base_log as int, level as int),
                (output_key.polys.len() + 1) * level <= usize::MAX,
                masks.len() == input_key.coefficients.len(),
                errors.len() == masks.len(),
                forall|i2: int, u: int|
                    0 <= i2 < masks.len() && 0 <= u < masks[i2].len() ==> (#[trigger] masks[i2][u]).len()
                        == output_key.polys.len() && all_sized(masks[i2][u]@, output_key.polynomial_size as int),
                forall|i2: int, u: int|
                    0 <= i2 < errors.len() && 0 <= u < errors[i2].len() ==> (#[trigger] errors[i2][u]).len()
                        == output_key.polynomial_size,
                forall|i2: int| 0 <= i2 < masks.len() ==> (#[trigger] masks[i2]).len() == (output_key.polys.len() + 1) * level,
                forall|i2: int| 0 <= i2 < errors.len() ==> (#[trigger] errors[i2]).len() == (output_key.polys.len() + 1) * level,
                i <= masks.len(),
                ggsws.len() == i,
                forall|i2: int|
                    0 <= i2 < i ==> {
                        &&& (#[trigger] ggsws[i2]).wf()
                        &&& ggsws[i2].glwe_dimension == output_key.polys.len()
                        &&& ggsws[i2].polynomial_size == output_key.polynomial_size
                        &&& ggsws[i2].base_log == base_log
                        &&& ggsws[i2].level == level
                        &&& ggsws[i2].view_rows() =~~= ggsw_rows_spec(
                            T::modulus(),
                            output_key.key(),
                            input_key.key()[i2],
                            output_key.polynomial_size as int,
                            T::width(),
                            base_log as nat,
                            level as nat,
                            masks[i2]@.map_values(|v: Vec<Vec<T>>| poly_vals(v@)),
                            poly_vals(errors[i2]@),
                        )
                    },
            decreases masks.len() - i,
        {
            let g = output_key.encrypt_ggsw(input_key.coefficients[i], base_log, level, &masks[i], &errors[i]);
            ggsws.push(g);
            i += 1;
        }
        let r = LweBootstrapKey {
            ggsws,
            glwe_dimension: output_key.polys.len(),
            polynomial_size: output_key.polynomial_size,
            log_polynomial_size,
            base_log,
            level,
        };
        proof {
            assert forall|i2: int| 0 <= i2 < r.ggsws.len() implies #[trigger] r.view_ggsws()[i2] =~~= ggsw_rows_spec(
                T::modulus(),
                output_key.key(),
                input_key.key()[i2],
                output_key.polynomial_size as int,
                T::width(),
                base_log as nat,
                level as nat,
                masks[i2]@.map_values(|v: Vec<Vec<T>>| poly_vals(v@)),
                poly_vals(errors[i2]@),
            ) by {
                assert(r.view_ggsws()[i2] == r.ggsws[i2].view_rows());
            }
        }
        r
    }
}

} // verus!

verus! {

/// `a` switched to the modulus `2N = 2^log_two_n`.
fn modulus_switch<T: UnsignedTorus>(a: T, log_two_n: u32) -> (r: usize)
    requires
        1 <= log_two_n < T::width(),
        vstd::arithmetic::power2::pow2(log_two_n as nat) <= usize::MAX,
    ensures
        r as int == mod_switch(a.val(), T::width(), log_two_n as nat),
        (r as nat) < vstd::arithmetic::power2::pow2(log_two_n as nat),
{
    let bits = T::bits();
    proof {
        T::lemma_modulus();
        T::lemma_val_bounds(a);
    }
    let r = crate::decomposition::round_to_msb(a.to_u64(), bits, log_two_n, 1);
    r as usize
}

impl<T: UnsignedTorus> LweBootstrapKey<T> {
    /// The blind rotation of `lut` by `input`: the GLWE accumulator that the bootstrap extracts
    /// from.
    pub fn blind_rotate(&self, lut: &GlweCiphertext<T>, input: &crate::lwe::LweCiphertext<T>) -> (r: GlweCiphertext<T>)
        requires
            self.wf(),
            lut.wf(),
            lut.polys.len() == self.glwe_dimension + 1,
            lut.polynomial_size == self.polynomial_size,
            input.data.len() == self.ggsws.len() + 1,
        ensures
            r.wf(),
            r.polys.len() == lut.polys.len(),
            r.polynomial_size == lut.polynomial_size,
            r.view_polys() =~~= blind_rotate_spec(
                T::modulus(),
                lut.view_polys(),
                self.view_ggsws(),
                vals(input.data@),
                T::width(),
                (self.log_polynomial_size + 1) as nat,
                self.base_log as nat,
                self.level as nat,
                self.ggsws.len() as nat,
            ),
    {
        let n = self.ggsws.len();
        proof {
            T::lemma_modulus();
        }
        let log_two_n = self.log_polynomial_size + 1;
        let two_n = 2 * self.polynomial_size;
        let ghost spec_of = |count: nat|
            blind_rotate_spec(
                T::modulus(),
                lut.view_polys(),
                self.view_ggsws(),
                vals(input.data@),
                T::width(),
                log_two_n as nat,
                self.base_log as nat,
                self.level as nat,
                count,
            );
        proof {
            vstd::arithmetic::power2::lemma_pow2_unfold(log_two_n as nat);
        }
        let b = modulus_switch(input.data[n], log_two_n);
        let start = (two_n - b) % two_n;
        let mut acc = glwe_rotate(lut, start);
        proof {
            assert(vals(input.data@).last() == input.data[n as int].val());
            assert(acc.view_polys() =~~= spec_of(0));
        }
        let mut i: usize = 0;
        while i < n
            invariant
                self.wf(),
                n == self.ggsws.len(),
                input.data.len() == n + 1,
                log_two_n == self.log_polynomial_size + 1,
                two_n == 2 * self.polynomial_size,
                two_n == vstd::arithmetic::power2::pow2(log_two_n as nat),
                i <= n,
                acc.wf(),
                acc.polys.len() == self.glwe_dimension + 1,
                acc.polynomial_size == self.polynomial_size,
                lut.polys.len() == acc.polys.len(),
                lut.polynomial_size == acc.polynomial_size,
                spec_of == (|count: nat|
                    blind_rotate_spec(
                        T::modulus(),
                        lut.view_polys(),
                        self.view_ggsws(),
                        vals(input.data@),
                        T::width(),
                        log_two_n as nat,
                        self.base_log as nat,
                        self.level as nat,
                        count,
                    )),
                acc.view_polys() =~~= spec_of(i as nat),
            decreases n - i,
        {
            let a = modulus_switch(input.data[i], log_two_n);
            let ggsw = &self.ggsws[i];
            assert(ggsw.wf());
            let next = ggsw.cmux(&acc, a);
            proof {
                assert(self.view_ggsws()[i as int] == ggsw.view_rows());
                assert(vals(input.data@)[i as int] == input.data[i as int].val());
                assert(next.view_polys() =~~= spec_of((i + 1) as nat));
            }
            acc = next;
            i += 1;
        }
        acc
    }
}

/// Overwrites `output` with the programmable bootstrap of `input`: a fresh encryption, under
/// the key that the GLWE key flattens to, of the lookup table `acc` evaluated at the message
/// of `input`. The dimensions are checked first, in this order: the input against the key's
/// input dimension, the accumulator's polynomial size and GLWE dimension against the key's,
/// the output against the key's output dimension; a mismatch is reported and `output` is left
/// as it was.
pub fn discard_bootstrap<T: UnsignedTorus>(
    output: &mut crate::lwe::LweCiphertext<T>,
    input: &crate::lwe::LweCiphertext<T>,
    acc: &GlweCiphertext<T>,
    bsk: &LweBootstrapKey<T>,
) -> (r: Result<(), crate::error::EngineError>)
    requires
        bsk.wf(),
        input.wf(),
        old(output).wf(),
        acc.wf(),
    ensures
        r == Err::<(), crate::error::EngineError>(crate::error::EngineError::InputLweDimensionMismatch)
            <==> input.lwe_dimension() != bsk.ggsws.len(),
        r == Err::<(), crate::error::EngineError>(
            crate::error::EngineError::AccumulatorPolynomialSizeMismatch,
        ) <==> (input.lwe_dimension() == bsk.ggsws.len() && acc.polynomial_size
            != bsk.polynomial_size),
        r == Err::<(), crate::error::EngineError>(
            crate::error::EngineError::AccumulatorGlweDimensionMismatch,
        ) <==> (input.lwe_dimension() == bsk.ggsws.len() && acc.polynomial_size == bsk.polynomial_size
            && acc.polys.len() != bsk.glwe_dimension + 1),
        r == Err::<(), crate::error::EngineError>(crate::error::EngineError::OutputLweDimensionMismatch)
            <==> (input.lwe_dimension() == bsk.ggsws.len() && acc.polynomial_size == bsk.polynomial_size
            && acc.polys.len() == bsk.glwe_dimension + 1 && old(output).lwe_dimension()
            != bsk.glwe_dimension * bsk.polynomial_size),
        r is Ok <==> (input.lwe_dimension() == bsk.ggsws.len() && acc.polynomial_size
            == bsk.polynomial_size && acc.polys.len() == bsk.glwe_dimension + 1
            && old(output).lwe_dimension() == bsk.glwe_dimension * bsk.polynomial_size),
        r is Err ==> *final(output) == *old(output),
        r is Ok ==> ({
            let br = blind_rotate_spec(
                T::modulus(),
                acc.view_polys(),
                bsk.view_ggsws(),
                vals(input.data@),
                T::width(),
                (bsk.log_polynomial_size + 1) as nat,
                bsk.base_log as nat,
                bsk.level as nat,
                bsk.ggsws.len() as nat,
            );
            &&& final(output).data.len() == old(output).data.len()
            &&& forall|i: int, t: int|
                0 <= i < bsk.glwe_dimension && 0 <= t < bsk.polynomial_size ==> final(output).data[i
                    * bsk.polynomial_size + t].val() == #[trigger] crate::glwe::extracted_mask_coeff(
                    T::modulus(),
                    br[i],
                    t,
                )
            &&& final(output).data[bsk.glwe_dimension * bsk.polynomial_size].val() == br[bsk.glwe_dimension as int][0]
        }),
{
    if input.dimension() != bsk.input_lwe_dimension() {
        return Err(crate::error::EngineError::InputLweDimensionMismatch);
    }
    if acc.polynomial_size != bsk.polynomial_size {
        return Err(crate::error::EngineError::AccumulatorPolynomialSizeMismatch);
    }
    if acc.glwe_dimension() != bsk.glwe_dimension {
        return Err(crate::error::EngineError::AccumulatorGlweDimensionMismatch);
    }
    if output.dimension() != bsk.output_lwe_dimension() {
        return Err(crate::error::EngineError::OutputLweDimensionMismatch);
    }
    let rotated = bsk.blind_rotate(acc, input);
    let extracted = rotated.extract_sample();
    proof {
        let k = bsk.glwe_dimension;
        let n = bsk.polynomial_size;
        assert(rotated.polys.len() - 1 == k);
        assert forall|i: int, t: int| 0 <= i < k && 0 <= t < n implies extracted.data[i * n + t].val()
            == #[trigger] crate::glwe::extracted_mask_coeff(
            T::modulus(),
            blind_rotate_spec(
                T::modulus(),
                acc.view_polys(),
                bsk.view_ggsws(),
                vals(input.data@),
                T::width(),
                (bsk.log_polynomial_size + 1) as nat,
                bsk.base_log as nat,
                bsk.level as nat,
                bsk.ggsws.len() as nat,
            )[i],
            t,
        ) by {
            assert(rotated.view_polys()[i] =~= blind_rotate_spec(
                T::modulus(),
                acc.view_polys(),
                bsk.view_ggsws(),
                vals(input.data@),
                T::width(),
                (bsk.log_polynomial_size + 1) as nat,
                bsk.base_log as nat,
                bsk.level as nat,
                bsk.ggsws.len() as nat,
            )[i]);
        }
        assert(rotated.view_polys()[k as int][0] == rotated.polys[k as int][0].val());
    }
    *output = extracted;
    Ok(())
}

} // verus!

verus! {

/// `sum_{u < count} (D_u * phase(rows[u]))[j]`, with `D_u` the digit polynomial of level
/// `u % level` of `ct[u / level]`.
pub open spec fn gadget_phase_sum(
    m: int,
    key: Seq<Seq<int>>,
    rows: Seq<Seq<Seq<int>>>,
    ct: Seq<Seq<int>>,
    bits: nat,
    base_log: nat,
    level: nat,
    n: int,
    j: int,
    count: nat,
) -> int
    decreases count,
{
    if count == 0 {
        0
    } else {
        let u = count - 1;
        gadget_phase_sum(m, key, rows, ct, bits, base_log, level, n, j, (count - 1) as nat) + poly_mul_coeff(
            digit_poly(m, ct[u / level as int], bits, base_log, level, u % level as int),
            crate::glwe::phase_seq(m, key, rows[u], n),
            j,
        )
    }
}

/// The first `count` terms of the external sums, before reduction, as a GLWE ciphertext.
pub open spec fn external_partial(
    m: int,
    rows: Seq<Seq<Seq<int>>>,
    ct: Seq<Seq<int>>,
    bits: nat,
    base_log: nat,
    level: nat,
    n: int,
    count: nat,
) -> Seq<Seq<int>> {
    Seq::new(
        ct.len(),
        |q: int| Seq::new(n as nat, |c: int| external_sum(m, rows, ct, bits, base_log, level, q, c, count)),
    )
}

proof fn lemma_mask_key_sum_exact(
    key: Seq<Seq<int>>,
    x: Seq<Seq<int>>,
    y: Seq<Seq<int>>,
    z: Seq<Seq<int>>,
    n: int,
    j: int,
    count: nat,
)
    requires
        0 <= j < n,
        count <= key.len(),
        count <= z.len(),
        x.len() == z.len(),
        y.len() == z.len(),
        forall|i: int| 0 <= i < key.len() ==> (#[trigger] key[i]).len() == n,
        forall|i: int| 0 <= i < z.len() ==> (#[trigger] z[i]).len() == n && x[i].len() == n && y[i].len() == n,
        forall|q: int, c: int| 0 <= q < z.len() && 0 <= c < n ==> #[trigger] z[q][c] == x[q][c] + y[q][c],
    ensures
        crate::glwe::mask_key_coeff(z, key, j, count) == crate::glwe::mask_key_coeff(x, key, j, count)
            + crate::glwe::mask_key_coeff(y, key, j, count),
    decreases count,
{
    if count > 0 {
        let i = count - 1;
        lemma_mask_key_sum_exact(key, x, y, z, n, j, (count - 1) as nat);
        assert forall|t: int| 0 <= t < n implies #[trigger] z[i][t] == x[i][t] + 1 * y[i][t] by {}
        crate::glwe::lemma_nega_sum_linear(x[i], y[i], z[i], key[i], 1, j, n as nat);
    }
}

proof fn lemma_external_partial_phase(
    m: int,
    key: Seq<Seq<int>>,
    rows: Seq<Seq<Seq<int>>>,
    ct: Seq<Seq<int>>,
    bits: nat,
    base_log: nat,
    level: nat,
    n: int,
    j: int,
    count: nat,
)
    requires
        m > 0,
        n >= 1,
        level >= 1,
        0 <= j < n,
        ct.len() == key.len() + 1,
        count <= ct.len() * level,
        rows.len() >= ct.len() * level,
        forall|i: int| 0 <= i < key.len() ==> (#[trigger] key[i]).len() == n,
        forall|i: int| 0 <= i < ct.len() ==> (#[trigger] ct[i]).len() == n,
        forall|u: int|
            0 <= u < rows.len() ==> (#[trigger] rows[u]).len() == ct.len() && forall|q: int|
                0 <= q < ct.len() ==> (#[trigger] rows[u][q]).len() == n,
    ensures
        crate::glwe::phase_int(key, external_partial(m, rows, ct, bits, base_log, level, n, count), j) % m
            == gadget_phase_sum(m, key, rows, ct, bits, base_log, level, n, j, count) % m,
    decreases count,
{
    let k = key.len() as int;
    let z = external_partial(m, rows, ct, bits, base_log, level, n, count);
    if count == 0 {
        assert forall|q: int, c: int| 0 <= q < z.len() && 0 <= c < n implies #[trigger] z[q][c] == z[q][c] + z[q][c] by {}
        lemma_mask_key_sum_exact(key, z, z, z, n, j, k as nat);
    } else {
        let u = count - 1;
        lemma_external_partial_phase(m, key, rows, ct, bits, base_log, level, n, j, (count - 1) as nat);
        let x = external_partial(m, rows, ct, bits, base_log, level, n, (count - 1) as nat);
        let p = u / level as int;
        vstd::arithmetic::div_mod::lemma_fundamental_div_mod(u, level as int);
        assert(p < ct.len()) by (nonlinear_arith)
            requires
                u == level * p + u % level as int,
                u % level as int >= 0,
                u < ct.len() * level,
                level >= 1,
        ;
        assert(p >= 0) by {
            vstd::arithmetic::div_mod::lemma_div_pos_is_pos(u, level as int);
        }
        let d = digit_poly(m, ct[p], bits, base_log, level, u % level as int);
        let y = Seq::new(rows[u].len(), |q: int| crate::glwe::product_seq(d, rows[u][q]));
        assert forall|q: int, c: int| 0 <= q < z.len() && 0 <= c < n implies #[trigger] z[q][c] == x[q][c]
            + y[q][c] by {
            assert(y[q][c] == poly_mul_coeff(d, rows[u][q], c));
        }
        lemma_mask_key_sum_exact(key, x, y, z, n, j, k as nat);
        crate::glwe::lemma_scaled_phase(m, d, key, rows[u], n, j);
        let px = crate::glwe::phase_int(key, x, j);
        let py = crate::glwe::phase_int(key, y, j);
        let gp = gadget_phase_sum(m, key, rows, ct, bits, base_log, level, n, j, (count - 1) as nat);
        let t = poly_mul_coeff(d, crate::glwe::phase_seq(m, key, rows[u], n), j);
        assert(crate::glwe::phase_int(key, z, j) == px + py);
        crate::torus::lemma_mod_add(px, py, m);
        crate::torus::lemma_mod_add(px % m, py, m);
        crate::torus::lemma_mod_add(py, px % m, m);
        crate::torus::lemma_mod_add(py % m, px % m, m);
        crate::torus::lemma_mod_add(t % m, gp % m, m);
        crate::torus::lemma_mod_add(t, gp % m, m);
        crate::torus::lemma_mod_add(gp % m, t, m);
        crate::torus::lemma_mod_add(gp, t, m);
    }
}

/// The phase of an external product: `sum_u D_u * phase(rows[u])`, where `D_u` is the digit
/// polynomial of level `u % level` of polynomial `u / level` of the GLWE operand.
pub proof fn lemma_external_product_phase(
    m: int,
    key: Seq<Seq<int>>,
    rows: Seq<Seq<Seq<int>>>,
    ct: Seq<Seq<int>>,
    bits: nat,
    base_log: nat,
    level: nat,
    j: int,
)
    requires
        m > 0,
        level >= 1,
        ct.len() == key.len() + 1,
        ct[0].len() >= 1,
        0 <= j < ct[0].len(),
        rows.len() >= ct.len() * level,
        forall|i: int| 0 <= i < key.len() ==> (#[trigger] key[i]).len() == ct[0].len(),
        forall|i: int| 0 <= i < ct.len() ==> (#[trigger] ct[i]).len() == ct[0].len(),
        forall|u: int|
            0 <= u < rows.len() ==> (#[trigger] rows[u]).len() == ct.len() && forall|q: int|
                0 <= q < ct.len() ==> (#[trigger] rows[u][q]).len() == ct[0].len(),
    ensures
        crate::glwe::glwe_phase_coeff(m, key, external_product_spec(m, rows, ct, bits, base_log, level), j)
            == gadget_phase_sum(m, key, rows, ct, bits, base_log, level, ct[0].len() as int, j, ct.len() * level)
            % m,
{
    let n = ct[0].len() as int;
    let k = key.len() as int;
    let count = ct.len() * level;
    let full = external_partial(m, rows, ct, bits, base_log, level, n, count);
    let red = external_product_spec(m, rows, ct, bits, base_log, level);
    lemma_external_partial_phase(m, key, rows, ct, bits, base_log, level, n, j, count);
    assert forall|i: int| 0 <= i < k implies (#[trigger] red[i]) =~= Seq::new(full[i].len(), |t: int| full[i][t] % m) by {}
    crate::glwe::lemma_mask_key_reduced(m, key, red, full, n, j, k as nat);
    let mr = crate::glwe::mask_key_coeff(red, key, j, k as nat);
    let mf = crate::glwe::mask_key_coeff(full, key, j, k as nat);
    assert(red.last() == red[k]);
    assert(red[k][j] == full[k][j] % m);
    crate::torus::lemma_mod_add(full[k][j], mr, m);
    crate::torus::lemma_mod_add(full[k][j], mf, m);
    crate::torus::lemma_mod_add(full[k][j], mr % m, m);
    crate::torus::lemma_mod_add(full[k][j], mf % m, m);
}

} // verus!

verus! {

/// The phase of a CMUX: `phase(acc) + sum_u D_u * phase(rows[u])`, the digits taken from
/// `X^shift * acc - acc`.
pub proof fn lemma_cmux_phase(
    m: int,
    key: Seq<Seq<int>>,
    acc: Seq<Seq<int>>,
    rows: Seq<Seq<Seq<int>>>,
    shift: int,
    bits: nat,
    base_log: nat,
    level: nat,
    j: int,
)
    requires
        m > 0,
        level >= 1,
        acc.len() == key.len() + 1,
        acc[0].len() >= 1,
        0 <= j < acc[0].len(),
        rows.len() >= acc.len() * level,
        forall|i: int| 0 <= i < key.len() ==> (#[trigger] key[i]).len() == acc[0].len(),
        forall|i: int| 0 <= i < acc.len() ==> (#[trigger] acc[i]).len() == acc[0].len(),
        forall|u: int|
            0 <= u < rows.len() ==> (#[trigger] rows[u]).len() == acc.len() && forall|q: int|
                0 <= q < acc.len() ==> (#[trigger] rows[u][q]).len() == acc[0].len(),
    ensures
        crate::glwe::glwe_phase_coeff(m, key, cmux_spec(m, acc, rows, shift, bits, base_log, level), j) == (
        crate::glwe::glwe_phase_coeff(m, key, acc, j) + gadget_phase_sum(
            m,
            key,
            rows,
            glwe_sub_spec(m, glwe_rotate_spec(m, acc, shift), acc),
            bits,
            base_log,
            level,
            acc[0].len() as int,
            j,
            acc.len() * level,
        )) % m,
{
    let n = acc[0].len() as int;
    let diff = glwe_sub_spec(m, glwe_rotate_spec(m, acc, shift), acc);
    let ext = external_product_spec(m, rows, diff, bits, base_log, level);
    assert(diff[0].len() == n);
    assert forall|i: int| 0 <= i < diff.len() implies (#[trigger] diff[i]).len() == diff[0].len() by {}
    lemma_external_product_phase(m, key, rows, diff, bits, base_log, level, j);
    let z = cmux_spec(m, acc, rows, shift, bits, base_log, level);
    assert forall|i: int| 0 <= i < z.len() implies (#[trigger] z[i]).len() == n && acc[i].len() == n
        && ext[i].len() == n by {}
    assert forall|q: int, c: int| 0 <= q < z.len() && 0 <= c < n implies #[trigger] z[q][c] == (1 * acc[q][c]
        + 1 * ext[q][c]) % m by {}
    crate::glwe::lemma_glwe_phase_linear(m, key, acc, ext, z, 1, 1, n, j);
    let g = gadget_phase_sum(m, key, rows, diff, bits, base_log, level, n, j, acc.len() * level);
    let pa = crate::glwe::glwe_phase_coeff(m, key, acc, j);
    crate::torus::lemma_mod_add(pa, g, m);
    crate::torus::lemma_mod_add(g, pa, m);
}

} // verus!

verus! {

proof fn lemma_bump_constant_product(m: int, a: Seq<int>, s: Seq<int>, v: int, t: int)
    requires
        m > 0,
        a.len() >= 1,
        s.len() == a.len(),
        0 <= t < a.len(),
    ensures
        poly_mul_coeff(a.update(0, (a[0] + v) % m), s, t) % m == (poly_mul_coeff(a, s, t) + v * s[t]) % m,
{
    let n = a.len();
    let b = a.update(0, (a[0] + v) % m);
    let e = Seq::new(n, |i: int| if i == 0 { v } else { 0int });
    let full = Seq::new(n, |i: int| a[i] + 1 * e[i]);
    assert forall|i: int| 0 <= i < n implies #[trigger] full[i] == a[i] + 1 * e[i] by {}
    crate::glwe::lemma_nega_sum_linear(a, e, full, s, 1, t, n);
    // e * s has coefficient t equal to v * s[t]
    lemma_single_term(e, s, v, t, n);
    // b is full reduced at entry 0 and equal elsewhere
    let red = Seq::new(n, |i: int| full[i] % m);
    let b2 = Seq::new(n, |i: int| b[i] % m);
    assert forall|i: int| 0 <= i < n implies #[trigger] b2[i] == red[i] by {
        if i == 0 {
            vstd::arithmetic::div_mod::lemma_mod_twice(a[0] + v, m);
        }
    }
    assert(b2 =~= red);
    crate::glwe::lemma_product_reduced(m, full, s, t);
    crate::glwe::lemma_product_reduced(m, b, s, t);
}

proof fn lemma_single_term(e: Seq<int>, s: Seq<int>, v: int, t: int, count: nat)
    requires
        s.len() == e.len(),
        1 <= count <= e.len(),
        0 <= t < e.len(),
        e[0] == v,
        forall|i: int| 1 <= i < e.len() ==> #[trigger] e[i] == 0,
    ensures
        crate::polynomial::nega_sum(e, s, t, count) == v * s[t],
    decreases count,
{
    if count > 1 {
        lemma_single_term(e, s, v, t, (count - 1) as nat);
        let i = count - 1;
        let ei = e[i];
        assert(ei == 0);
        let k = if i <= t { t - i } else { t - i + s.len() };
        let sk = s[k];
        assert(ei * sk == 0) by (nonlinear_arith)
            requires
                ei == 0,
        ;
    } else {
        assert(crate::polynomial::nega_sum(e, s, t, 0) == 0);
        assert(crate::polynomial::nega_term(e, s, t, 0) == e[0] * s[t]);
    }
}

/// The phase of row `u` of a GGSW encryption of `msg`: the row's error, plus
/// `v = msg * 2^(W - (u % level + 1) * base_log)` on the constant coefficient where the row
/// belongs to the body, or minus `v` times the key polynomial where it belongs to mask `p`.
pub proof fn lemma_ggsw_row_phase(
    m: int,
    key: Seq<Seq<int>>,
    msg: int,
    n: int,
    bits: nat,
    base_log: nat,
    level: nat,
    masks: Seq<Seq<Seq<int>>>,
    errors: Seq<Seq<int>>,
    u: int,
    t: int,
)
    requires
        m > 0,
        n >= 1,
        level >= 1,
        0 <= t < n,
        0 <= u < masks.len(),
        masks.len() == (key.len() + 1) * level,
        errors.len() == masks.len(),
        forall|i: int| 0 <= i < key.len() ==> (#[trigger] key[i]).len() == n,
        masks[u].len() == key.len(),
        forall|i: int| 0 <= i < key.len() ==> (#[trigger] masks[u][i]).len() == n,
        errors[u].len() == n,
    ensures
        ({
            let p = u / level as int;
            let v = (msg * vstd::arithmetic::power2::pow2((bits - (u % level as int + 1) * base_log) as nat))
                % m;
            crate::glwe::glwe_phase_coeff(
                m,
                key,
                ggsw_rows_spec(m, key, msg, n, bits, base_log, level, masks, errors)[u],
                t,
            ) == (errors[u][t] + if p == key.len() {
                if t == 0 { v } else { 0 }
            } else {
                -(v * key[p][t])
            }) % m
        }),
{
    let k = key.len() as int;
    let p = u / level as int;
    let v = (msg * vstd::arithmetic::power2::pow2((bits - (u % level as int + 1) * base_log) as nat)) % m;
    vstd::arithmetic::div_mod::lemma_fundamental_div_mod(u, level as int);
    assert(0 <= p <= k) by (nonlinear_arith)
        requires
            u == level * p + u % level as int,
            0 <= (u % (level as int)),
            (u % (level as int)) < level,
            0 <= u,
            (k + 1) * level > u,
            level >= 1,
    ;
    let zero = Seq::new(n as nat, |j: int| 0int);
    let enc = glwe_encryption_spec(m, key, masks[u], zero, errors[u]);
    let row = ggsw_rows_spec(m, key, msg, n, bits, base_log, level, masks, errors)[u];
    assert(row == add_to_constant(m, enc, p, v));
    let mk = crate::glwe::mask_key_coeff(masks[u], key, t, k as nat);
    assert(enc.drop_last() =~= masks[u]);
    lemma_prefix_mask_key(enc, masks[u], key, t, k as nat);
    assert(enc[k][t] == (mk + 0 + errors[u][t]) % m);
    if p == k {
        lemma_prefix_mask_key(row, masks[u], key, t, k as nat);
        assert(row.drop_last() =~= masks[u]);
        let b = enc[k][t];
        let rb = row[k][t];
        if t == 0 {
            assert(rb == (b + v) % m);
            crate::torus::lemma_mod_add(mk + errors[u][t], v, m);
        }
        assert(row.last() == row[k]);
        crate::torus::lemma_mod_add(rb, mk, m);
        crate::torus::lemma_mod_add(mk + errors[u][t], mk, m);
        crate::torus::lemma_mod_add(mk + errors[u][t] + v, mk, m);
        crate::torus::lemma_mod_add(b + v, mk, m);
        assert(mk + errors[u][t] + v - mk == errors[u][t] + v);
        assert(mk + errors[u][t] - mk == errors[u][t]);
    } else {
        // mask p gains v on its constant coefficient
        lemma_bump_constant_product(m, masks[u][p], key[p], v, t);
        lemma_bumped_mask_key(m, row, masks[u], key, p, v, t, k as nat);
        let mr = crate::glwe::mask_key_coeff(row, key, t, k as nat);
        assert(row[k] == enc[k]);
        assert(row.last() == row[k]);
        let b = enc[k][t];
        crate::torus::lemma_mod_add(b, mr, m);
        crate::torus::lemma_mod_add(b, mk + v * key[p][t], m);
        crate::torus::lemma_mod_add(mk + errors[u][t], mk + v * key[p][t], m);
        assert(mk + errors[u][t] - (mk + v * key[p][t]) == errors[u][t] + -(v * key[p][t]));
    }
}

proof fn lemma_prefix_mask_key(a: Seq<Seq<int>>, b: Seq<Seq<int>>, key: Seq<Seq<int>>, j: int, count: nat)
    requires
        count <= b.len(),
        a.len() > b.len(),
        forall|i: int| 0 <= i < b.len() ==> #[trigger] a[i] == b[i],
    ensures
        crate::glwe::mask_key_coeff(a, key, j, count) == crate::glwe::mask_key_coeff(b, key, j, count),
    decreases count,
{
    if count > 0 {
        lemma_prefix_mask_key(a, b, key, j, (count - 1) as nat);
    }
}

proof fn lemma_bumped_mask_key(
    m: int,
    row: Seq<Seq<int>>,
    masks: Seq<Seq<int>>,
    key: Seq<Seq<int>>,
    p: int,
    v: int,
    t: int,
    count: nat,
)
    requires
        m > 0,
        0 <= p < masks.len(),
        count <= masks.len(),
        row.len() > masks.len(),
        forall|i: int| 0 <= i < masks.len() && i != p ==> #[trigger] row[i] == masks[i],
        row[p] == masks[p].update(0, (masks[p][0] + v) % m),
        poly_mul_coeff(row[p], key[p], t) % m == (poly_mul_coeff(masks[p], key[p], t) + v * key[p][t]) % m,
    ensures
        crate::glwe::mask_key_coeff(row, key, t, count) % m == (crate::glwe::mask_key_coeff(masks, key, t, count)
            + if p < count { v * key[p][t] } else { 0 }) % m,
    decreases count,
{
    if count > 0 {
        let i = count - 1;
        lemma_bumped_mask_key(m, row, masks, key, p, v, t, (count - 1) as nat);
        let a = crate::glwe::mask_key_coeff(row, key, t, (count - 1) as nat);
        let b = crate::glwe::mask_key_coeff(masks, key, t, (count - 1) as nat);
        let x = poly_mul_coeff(row[i], key[i], t);
        let y = poly_mul_coeff(masks[i], key[i], t);
        let w = if p < count - 1 { v * key[p][t] } else { 0 };
        let w2 = if p < count { v * key[p][t] } else { 0 };
        let dx = if i == p { v * key[p][t] } else { 0 };
        assert(x % m == (y + dx) % m);
        crate::torus::lemma_mod_add(a, x, m);
        crate::torus::lemma_mod_add(a % m, x, m);
        crate::torus::lemma_mod_add(x, a % m, m);
        crate::torus::lemma_mod_add(x % m, a % m, m);
        crate::torus::lemma_mod_add(y + dx, (b + w) % m, m);
        crate::torus::lemma_mod_add(y + dx, b + w, m);
        crate::torus::lemma_mod_add((b + w) % m, y + dx, m);
        crate::torus::lemma_mod_add((y + dx) % m, (b + w) % m, m);
        assert(y + dx + (b + w) == b + y + w2);
    }
}

} // verus!
