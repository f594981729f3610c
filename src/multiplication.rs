//! GLWE multiplication: the tensor product of two GLWE ciphertexts, rescaled and rounded.
use crate::glwe::{all_sized, poly_vals, GlweCiphertext};
use crate::polynomial::poly_mul_coeff;
use crate::torus::{vals, UnsignedTorus};
use vstd::arithmetic::div_mod::*;
use vstd::arithmetic::power2::*;
use vstd::prelude::*;

verus! {

/// `2^128`, the modulus of the wide accumulators.
pub open spec fn wide() -> int {
    u128::MAX as int + 1
}

/// The representative of `a` (a value modulo `m`) in `[-m/2, m/2)`.
pub open spec fn lift(m: int, a: int) -> int {
    if a < m / 2 {
        a
    } else {
        a - m
    }
}

/// The centered representatives of a polynomial.
pub open spec fn lifted(m: int, p: Seq<int>) -> Seq<int> {
    p.map_values(|a: int| lift(m, a))
}

/// `x / 2^scale_log`, rounded to nearest, ties up.
pub open spec fn rescale_round(x: int, scale_log: nat) -> int {
    (x + pow2((scale_log - 1) as nat) as int) / pow2(scale_log) as int
}

/// Coefficient `j` of `round((p1 * p2 + r1 * r2) / 2^scale_log)` over the integers, on the
/// centered representatives, reduced modulo `m`.
pub open spec fn rescaled_coeff(
    m: int,
    p1: Seq<int>,
    p2: Seq<int>,
    r1: Seq<int>,
    r2: Seq<int>,
    scale_log: nat,
    j: int,
) -> int {
    rescale_round(
        poly_mul_coeff(lifted(m, p1), lifted(m, p2), j) + poly_mul_coeff(lifted(m, r1), lifted(m, r2), j),
        scale_log,
    ) % m
}

/// The centered representative of `a`, modulo `2^128`.
fn lift_wide<T: UnsignedTorus>(a: T) -> (r: u128)
    ensures
        r as int == lift(T::modulus(), a.val()) % wide(),
{
    proof {
        T::lemma_modulus();
        T::lemma_val_bounds(a);
        lemma2_to64();
    }
    let v = a.to_u64() as u128;
    let half: u128 = if T::bits() == 64 { 0x8000_0000_0000_0000 } else { 0x8000_0000 };
    if v < half {
        proof {
            lemma_small_mod(v as nat, wide() as nat);
        }
        v
    } else {
        let q: u128 = if T::bits() == 64 { 0x1_0000_0000_0000_0000 } else { 0x1_0000_0000 };
        let r = v.wrapping_sub(q);
        proof {
            let x = v as int - q as int;
            lemma_mod_add_multiples_vanish(x, wide());
            lemma_small_mod((x + wide()) as nat, wide() as nat);
        }
        r
    }
}

proof fn lemma_wide_step(acc: int, x: int, y: int, big: int)
    requires
        big > 0,
    ensures
        (acc % big + (x % big) * (y % big)) % big == (acc + x * y) % big,
        (acc % big - (x % big) * (y % big)) % big == (acc - x * y) % big,
{
    lemma_mul_mod_noop_general(x, y, big);
    crate::torus::lemma_mod_add(acc, (x % big) * (y % big), big);
    crate::torus::lemma_mod_add(acc, x * y, big);
    crate::torus::lemma_mod_add(acc, (x % big) * (y % big) % big, big);
    crate::torus::lemma_mod_add(acc, (x * y) % big, big);
}

/// `s + x * y` (or `s - x * y`) modulo `2^128`.
fn wide_mul_acc(s: u128, x: u128, y: u128, negate: bool) -> (r: u128)
    ensures
        r as int == (if negate { s as int - x as int * y as int } else { s as int + x as int * y as int })
            % wide(),
{
    let p = x.wrapping_mul(y);
    proof {
        crate::torus::lemma_mod_add(s as int, x as int * y as int, wide());
        lemma_small_mod(s as nat, wide() as nat);
    }
    if negate {
        let r = s.wrapping_sub(p);
        proof {
            crate::torus::lemma_mod_add(s as int, x as int * y as int, wide());
            lemma_mod_twice(s as int - x as int * y as int, wide());
            if s as int - (p as int) < 0 {
                lemma_mod_add_multiples_vanish(s as int - p as int, wide());
                lemma_small_mod((s as int - p as int + wide()) as nat, wide() as nat);
            } else {
                lemma_small_mod((s as int - p as int) as nat, wide() as nat);
            }
        }
        r
    } else {
        let r = s.wrapping_add(p);
        proof {
            if s as int + p as int >= wide() {
                lemma_mod_sub_multiples_vanish(s as int + p as int, wide());
                lemma_small_mod((s as int + p as int - wide()) as nat, wide() as nat);
            } else {
                lemma_small_mod((s as int + p as int) as nat, wide() as nat);
            }
        }
        r
    }
}

/// Adds the coefficient `j` of `a * b` (centered representatives) to `acc`, modulo `2^128`.
fn accumulate_product<T: UnsignedTorus>(acc: u128, a: &Vec<T>, b: &Vec<T>, j: usize) -> (r: u128)
    requires
        a.len() == b.len(),
        j < a.len(),
    ensures
        r as int == (acc as int + poly_mul_coeff(lifted(T::modulus(), vals(a@)), lifted(T::modulus(), vals(b@)), j as int))
            % wide(),
{
    let n = a.len();
    let ghost la = lifted(T::modulus(), vals(a@));
    let ghost lb = lifted(T::modulus(), vals(b@));
    let mut s = acc;
    let mut i: usize = 0;
    proof {
        lemma_small_mod(acc as nat, wide() as nat);
    }
    while i < n
        invariant
            n == a.len(),
            n == b.len(),
            j < n,
            i <= n,
            la == lifted(T::modulus(), vals(a@)),
            lb == lifted(T::modulus(), vals(b@)),
            s as int == (acc as int + crate::polynomial::nega_sum(la, lb, j as int, i as nat)) % wide(),
        decreases n - i,
    {
        let ghost prev = acc as int + crate::polynomial::nega_sum(la, lb, j as int, i as nat);
        let x = lift_wide(a[i]);
        let k = if i <= j { j - i } else { n - (i - j) };
        let y = lift_wide(b[k]);
        let next = wide_mul_acc(s, x, y, i > j);
        proof {
            assert(la[i as int] == lift(T::modulus(), a[i as int].val()));
            assert(lb[k as int] == lift(T::modulus(), b[k as int].val()));
            lemma_wide_step(prev, la[i as int], lb[k as int], wide());
            if i > j {
                assert(j - i + lb.len() == k);
                assert(-(la[i as int] * lb[k as int]) + prev == prev - la[i as int] * lb[k as int]);
            }
        }
        s = next;
        i += 1;
    }
    s
}

} // verus!

verus! {

proof fn lemma_wide_pow2()
    ensures
        pow2(128) as int == wide(),
{
    lemma2_to64();
    lemma_pow2_adds(64, 64);
}

/// `2^e` for `e < 128`.
fn pow2_u128(e: u32) -> (r: u128)
    requires
        e < 128,
    ensures
        r as nat == pow2(e as nat),
{
    let mut r: u128 = 1;
    let mut i: u32 = 0;
    proof {
        lemma2_to64();
    }
    while i < e
        invariant
            i <= e,
            e < 128,
            r as nat == pow2(i as nat),
        decreases e - i,
    {
        proof {
            lemma_pow2_unfold((i + 1) as nat);
            lemma_pow2_strictly_increases((i + 1) as nat, 128);
            lemma_wide_pow2();
        }
        r = r * 2;
        i += 1;
    }
    r
}

/// Reducing modulo `2^128` before the rounded division by `2^scale_log` changes nothing
/// modulo `m` when `m` divides `2^(128 - scale_log)`.
proof fn lemma_wide_rescale(y: int, scale_log: nat, m: int, width: nat)
    requires
        1 <= scale_log,
        width + scale_log <= 128,
        m == pow2(width),
    ensures
        ((y % wide()) / pow2(scale_log) as int) % m == (y / pow2(scale_log) as int) % m,
{
    let d = pow2(scale_log) as int;
    let e = pow2((128 - scale_log) as nat) as int;
    lemma_pow2_pos(scale_log);
    lemma_pow2_pos((128 - scale_log) as nat);
    lemma_pow2_pos(width);
    lemma_pow2_adds((128 - scale_log) as nat, scale_log);
    lemma_wide_pow2();
    assert(e * d == wide());
    lemma_fundamental_div_mod(y, wide());
    let t = y / wide();
    let r = y % wide();
    // y == d * (e * t) + r, so y / d == e * t + r / d
    assert(y == d * (e * t) + r) by (nonlinear_arith)
        requires
            y == wide() * t + r,
            e * d == wide(),
    ;
    lemma_fundamental_div_mod(r, d);
    lemma_div_multiples_vanish_fancy(e * t + r / d, r % d, d);
    assert(d * (e * t + r / d) + r % d == y) by (nonlinear_arith)
        requires
            y == d * (e * t) + r,
            r == d * (r / d) + r % d,
    ;
    lemma_mod_bound(r, d);
    // e == m * 2^(128 - scale_log - width)
    let f = pow2((128 - scale_log - width) as nat) as int;
    lemma_pow2_adds(width, (128 - scale_log - width) as nat);
    assert(m * f == e);
    assert(e * t + r / d == m * (f * t) + r / d) by (nonlinear_arith)
        requires
            m * f == e,
    ;
    lemma_mod_multiples_vanish(f * t, r / d, m);
}

/// The polynomial `round((p1 * p2 + r1 * r2) / 2^scale_log)` on centered representatives,
/// reduced modulo `q`.
pub fn rescaled_product<T: UnsignedTorus>(p1: &Vec<T>, p2: &Vec<T>, r1: &Vec<T>, r2: &Vec<T>, scale_log: u32) -> (r: Vec<T>)
    requires
        p2.len() == p1.len(),
        r1.len() == p1.len(),
        r2.len() == p1.len(),
        1 <= scale_log,
        T::width() + scale_log <= 128,
    ensures
        r.len() == p1.len(),
        forall|j: int|
            0 <= j < r.len() ==> #[trigger] r[j].val() == rescaled_coeff(
                T::modulus(),
                vals(p1@),
                vals(p2@),
                vals(r1@),
                vals(r2@),
                scale_log as nat,
                j,
            ),
{
    proof {
        T::lemma_modulus();
    }
    let d = pow2_u128(scale_log);
    let half = pow2_u128(scale_log - 1);
    let mut out: Vec<T> = Vec::new();
    let mut j: usize = 0;
    while j < p1.len()
        invariant
            p2.len() == p1.len(),
            r1.len() == p1.len(),
            r2.len() == p1.len(),
            1 <= scale_log,
            T::width() + scale_log <= 128,
            T::modulus() == pow2(T::width()),
            T::width() == 32 || T::width() == 64,
            d as nat == pow2(scale_log as nat),
            half as nat == pow2((scale_log - 1) as nat),
            j <= p1.len(),
            out.len() == j,
            forall|j2: int|
                0 <= j2 < j ==> #[trigger] out[j2].val() == rescaled_coeff(
                    T::modulus(),
                    vals(p1@),
                    vals(p2@),
                    vals(r1@),
                    vals(r2@),
                    scale_log as nat,
                    j2,
                ),
        decreases p1.len() - j,
    {
        let a1 = accumulate_product(0, p1, p2, j);
        let a2 = accumulate_product(a1, r1, r2, j);
        let v = wide_mul_acc(a2, half, 1, false);
        proof {
            lemma_pow2_pos(scale_log as nat);
        }
        let w = v / d;
        proof {
            let m = T::modulus();
            let x = poly_mul_coeff(lifted(m, vals(p1@)), lifted(m, vals(p2@)), j as int);
            let y = poly_mul_coeff(lifted(m, vals(r1@)), lifted(m, vals(r2@)), j as int);
            crate::torus::lemma_mod_add(x, y, wide());
            crate::torus::lemma_mod_add(x + y, half as int, wide());
            assert(a2 as int == (x + y) % wide()) by {
                crate::torus::lemma_mod_add(x % wide(), y, wide());
                lemma_small_mod(0, wide() as nat);
            }
            assert(v as int == (x + y + half as int) % wide());
            lemma_wide_rescale(x + y + half as int, scale_log as nat, m, T::width());
            lemma_pow2_adds(T::width(), (64 - T::width()) as nat);
            lemma2_to64();
            lemma_pow2_pos((64 - T::width()) as nat);
            lemma_mod_mod(w as int, m, pow2((64 - T::width()) as nat) as int);
        }
        let t = T::from_u64((w % 0x1_0000_0000_0000_0000) as u64);
        out.push(t);
        j += 1;
    }
    out
}

} // verus!

verus! {

/// The all-zero polynomial of size `n`, as values.
pub open spec fn zeros(n: int) -> Seq<int> {
    Seq::new(n as nat, |c: int| 0int)
}

/// The tensor product of two GLWE ciphertexts of dimension `k`, rescaled: the `k (k + 1) / 2`
/// quadratic polynomials (pair `i <= i + t` at `quadratic[i][t]`), the `k` linear ones and the
/// body, `k (k + 3) / 2 + 1` polynomials in all. Under the key made of the products
/// `s_i * s_j` and the `s_i`, its phase `body - sum_i linear_i * s_i + sum_{i <= j}
/// quadratic_ij * s_i * s_j` is the product of the two phases divided by `2^scale_log`, up to
/// the rounding.
pub struct GlweTensorProduct<T> {
    pub quadratic: Vec<Vec<Vec<T>>>,
    pub linear: Vec<Vec<T>>,
    pub body: Vec<T>,
    pub polynomial_size: usize,
}

impl<T: UnsignedTorus> GlweTensorProduct<T> {
    /// The number of polynomials besides the body, `k (k + 3) / 2`.
    pub open spec fn tensor_dimension(&self) -> int {
        self.linear.len() * (self.linear.len() + 3) / 2
    }
}

/// Whether `r` is the rescaled tensor product of `a` and `b` (each `k` masks and a body).
pub open spec fn is_tensor_product<T: UnsignedTorus>(
    r: GlweTensorProduct<T>,
    a: Seq<Seq<int>>,
    b: Seq<Seq<int>>,
    scale_log: nat,
) -> bool {
    let m = T::modulus();
    let k = a.len() - 1;
    let n = a[0].len() as int;
    &&& r.quadratic.len() == k
    &&& r.linear.len() == k
    &&& r.body.len() == n
    &&& forall|i: int| 0 <= i < k ==> (#[trigger] r.quadratic[i]).len() == k - i
    &&& forall|i: int, t: int|
        0 <= i < k && 0 <= t < k - i ==> (#[trigger] r.quadratic[i][t]).len() == n
    &&& forall|i: int| 0 <= i < k ==> (#[trigger] r.linear[i]).len() == n
    &&& forall|i: int, t: int, c: int|
        0 <= i < k && 0 <= t < k - i && 0 <= c < n ==> #[trigger] r.quadratic[i][t][c].val()
            == rescaled_coeff(
            m,
            a[i],
            b[i + t],
            if t == 0 { zeros(n) } else { a[i + t] },
            if t == 0 { zeros(n) } else { b[i] },
            scale_log,
            c,
        )
    &&& forall|i: int, c: int|
        0 <= i < k && 0 <= c < n ==> #[trigger] r.linear[i][c].val() == rescaled_coeff(
            m,
            a[i],
            b[k],
            a[k],
            b[i],
            scale_log,
            c,
        )
    &&& forall|c: int|
        0 <= c < n ==> #[trigger] r.body[c].val() == rescaled_coeff(m, a[k], b[k], zeros(n), zeros(n), scale_log, c)
}

/// The tensor product of `a` and `b`, rescaled by `2^scale_log`: the two operands must share
/// their polynomial size and GLWE dimension, else the mismatch is reported.
pub fn tensor_product<T: UnsignedTorus>(a: &GlweCiphertext<T>, b: &GlweCiphertext<T>, scale_log: u32) -> (r: Result<
    GlweTensorProduct<T>,
    crate::error::EngineError,
>)
    requires
        a.wf(),
        b.wf(),
        1 <= scale_log,
        T::width() + scale_log <= 128,
    ensures
        r == Err::<GlweTensorProduct<T>, crate::error::EngineError>(
            crate::error::EngineError::PolynomialSizeMismatch,
        ) <==> a.polynomial_size != b.polynomial_size,
        r == Err::<GlweTensorProduct<T>, crate::error::EngineError>(
            crate::error::EngineError::GlweDimensionMismatch,
        ) <==> (a.polynomial_size == b.polynomial_size && a.polys.len() != b.polys.len()),
        r is Ok <==> (a.polynomial_size == b.polynomial_size && a.polys.len() == b.polys.len()),
        r is Ok ==> r->Ok_0.wf() && r->Ok_0.linear.len() == a.polys.len() - 1 && flatten_pairs(
            quadratic_view(r->Ok_0.quadratic@),
        ).len() + r->Ok_0.linear.len() == r->Ok_0.tensor_dimension(),
        r is Ok ==> r->Ok_0.polynomial_size == a.polynomial_size && is_tensor_product(
            r->Ok_0,
            a.view_polys(),
            b.view_polys(),
            scale_log as nat,
        ),
{
    if a.polynomial_size != b.polynomial_size {
        return Err(crate::error::EngineError::PolynomialSizeMismatch);
    }
    if a.polys.len() != b.polys.len() {
        return Err(crate::error::EngineError::GlweDimensionMismatch);
    }
    let n = a.polynomial_size;
    let k = a.polys.len() - 1;
    let ghost m = T::modulus();
    let ghost av = a.view_polys();
    let ghost bv = b.view_polys();
    let zero: Vec<T> = crate::bootstrap::zero_poly(n);
    proof {
        T::lemma_modulus();
        assert(vals(zero@) =~= zeros(n as int));
        assert(av[0].len() == n) by {
            assert(av[0] == vals(a.polys[0]@));
        }
        assert forall|i: int| 0 <= i <= k implies (#[trigger] av[i]) == vals(a.polys[i]@) && bv[i] == vals(
            b.polys[i]@,
        ) by {}
    }
    let mut quadratic: Vec<Vec<Vec<T>>> = Vec::new();
    let mut linear: Vec<Vec<T>> = Vec::new();
    let mut i: usize = 0;
    while i < k
        invariant
            a.wf(),
            b.wf(),
            1 <= scale_log,
            T::width() + scale_log <= 128,
            n == a.polynomial_size,
            n == b.polynomial_size,
            k + 1 == a.polys.len(),
            k + 1 == b.polys.len(),
            m == T::modulus(),
            av == a.view_polys(),
            bv == b.view_polys(),
            av[0].len() == n,
            forall|i2: int| 0 <= i2 <= k ==> (#[trigger] av[i2]) == vals(a.polys[i2]@) && bv[i2] == vals(
                b.polys[i2]@,
            ),
            zero.len() == n,
            vals(zero@) == zeros(n as int),
            i <= k,
            quadratic.len() == i,
            linear.len() == i,
            forall|i2: int| 0 <= i2 < i ==> (#[trigger] quadratic[i2]).len() == k - i2,
            forall|i2: int, t: int|
                0 <= i2 < i && 0 <= t < k - i2 ==> (#[trigger] quadratic[i2][t]).len() == n,
            forall|i2: int| 0 <= i2 < i ==> (#[trigger] linear[i2]).len() == n,
            forall|i2: int, t: int, c: int|
                0 <= i2 < i && 0 <= t < k - i2 && 0 <= c < n ==> #[trigger] quadratic[i2][t][c].val()
                    == rescaled_coeff(
                    m,
                    av[i2],
                    bv[i2 + t],
                    if t == 0 { zeros(n as int) } else { av[i2 + t] },
                    if t == 0 { zeros(n as int) } else { bv[i2] },
                    scale_log as nat,
                    c,
                ),
            forall|i2: int, c: int|
                0 <= i2 < i && 0 <= c < n ==> #[trigger] linear[i2][c].val() == rescaled_coeff(
                    m,
                    av[i2],
                    bv[k as int],
                    av[k as int],
                    bv[i2],
                    scale_log as nat,
                    c,
                ),
        decreases k - i,
    {
        let mut row: Vec<Vec<T>> = Vec::new();
        let mut t: usize = 0;
        while t < k - i
            invariant
                a.wf(),
                b.wf(),
                1 <= scale_log,
                T::width() + scale_log <= 128,
                n == a.polynomial_size,
                n == b.polynomial_size,
                k + 1 == a.polys.len(),
                k + 1 == b.polys.len(),
                m == T::modulus(),
                av == a.view_polys(),
                bv == b.view_polys(),
                forall|i2: int| 0 <= i2 <= k ==> (#[trigger] av[i2]) == vals(a.polys[i2]@) && bv[i2] == vals(
                    b.polys[i2]@,
                ),
                zero.len() == n,
                vals(zero@) == zeros(n as int),
                i < k,
                t <= k - i,
                row.len() == t,
                forall|t2: int| 0 <= t2 < t ==> (#[trigger] row[t2]).len() == n,
                forall|t2: int, c: int|
                    0 <= t2 < t && 0 <= c < n ==> #[trigger] row[t2][c].val() == rescaled_coeff(
                        m,
                        av[i as int],
                        bv[i + t2],
                        if t2 == 0 { zeros(n as int) } else { av[i + t2] },
                        if t2 == 0 { zeros(n as int) } else { bv[i as int] },
                        scale_log as nat,
                        c,
                    ),
            decreases k - i - t,
        {
            let j = i + t;
            assert(a.polys[i as int].len() == n && b.polys[j as int].len() == n);
            assert(a.polys[j as int].len() == n && b.polys[i as int].len() == n);
            let p = if t == 0 {
                rescaled_product(&a.polys[i], &b.polys[j], &zero, &zero, scale_log)
            } else {
                rescaled_product(&a.polys[i], &b.polys[j], &a.polys[j], &b.polys[i], scale_log)
            };
            proof {
                assert(av[i as int] == vals(a.polys[i as int]@));
                assert(bv[j as int] == vals(b.polys[j as int]@));
                assert(av[j as int] == vals(a.polys[j as int]@));
                assert(bv[i as int] == vals(b.polys[i as int]@));
            }
            row.push(p);
            t += 1;
        }
        assert(a.polys[i as int].len() == n && b.polys[k as int].len() == n);
        assert(a.polys[k as int].len() == n && b.polys[i as int].len() == n);
        let l = rescaled_product(&a.polys[i], &b.polys[k], &a.polys[k], &b.polys[i], scale_log);
        proof {
            assert(av[i as int] == vals(a.polys[i as int]@));
            assert(bv[k as int] == vals(b.polys[k as int]@));
            assert(av[k as int] == vals(a.polys[k as int]@));
            assert(bv[i as int] == vals(b.polys[i as int]@));
        }
        quadratic.push(row);
        linear.push(l);
        i += 1;
    }
    assert(a.polys[k as int].len() == n && b.polys[k as int].len() == n);
    let body = rescaled_product(&a.polys[k], &b.polys[k], &zero, &zero, scale_log);
    let r = GlweTensorProduct { quadratic, linear, body, polynomial_size: n };
    proof {
        assert(av[k as int] == vals(a.polys[k as int]@));
        assert(bv[k as int] == vals(b.polys[k as int]@));
        assert forall|i2: int| 0 <= i2 < k implies all_sized(#[trigger] r.quadratic[i2]@, n as int) by {
            assert forall|t: int| 0 <= t < r.quadratic[i2]@.len() implies (#[trigger] r.quadratic[i2]@[t]).len()
                == n by {
                assert(r.quadratic[i2][t].len() == n);
            }
        }
        assert forall|i2: int| 0 <= i2 < k implies (#[trigger] quadratic_view(r.quadratic@)[i2]).len() == k - i2 by {
            assert(quadratic_view(r.quadratic@)[i2] == poly_vals(r.quadratic[i2]@));
        }
        lemma_tensor_count(quadratic_view(r.quadratic@), k as int);
    }
    Ok(r)
}

} // verus!

verus! {

/// The lists of `q`, one after the other.
pub open spec fn flatten_pairs(q: Seq<Seq<Seq<int>>>) -> Seq<Seq<int>>
    decreases q.len(),
{
    if q.len() == 0 {
        Seq::empty()
    } else {
        flatten_pairs(q.drop_last()) + q.last()
    }
}

/// The values of the quadratic polynomials of a tensor product.
pub open spec fn quadratic_view<T: UnsignedTorus>(q: Seq<Vec<Vec<T>>>) -> Seq<Seq<Seq<int>>> {
    q.map_values(|r: Vec<Vec<T>>| poly_vals(r@))
}

/// The products `key[i] * key[i + t]` of the key polynomials, modulo `m`.
pub open spec fn key_products(m: int, key: Seq<Seq<int>>) -> Seq<Seq<Seq<int>>> {
    Seq::new(
        key.len(),
        |i: int|
            Seq::new(
                (key.len() - i) as nat,
                |t: int| Seq::new(key[i].len(), |c: int| poly_mul_coeff(key[i], key[i + t], c) % m),
            ),
    )
}

/// The number `k (k + 1) / 2` of pairs `i <= j` below `k`.
pub open spec fn pair_count(k: int) -> int {
    k * (k + 1) / 2
}

impl<T: UnsignedTorus> GlweTensorProduct<T> {
    pub open spec fn wf(&self) -> bool {
        let k = self.linear.len() as int;
        let n = self.polynomial_size as int;
        &&& n >= 1
        &&& self.quadratic.len() == k
        &&& self.body.len() == n
        &&& forall|i: int| 0 <= i < k ==> (#[trigger] self.quadratic[i]).len() == k - i
        &&& forall|i: int| 0 <= i < k ==> all_sized(#[trigger] self.quadratic[i]@, n)
        &&& all_sized(self.linear@, n)
    }
}

/// A relinearization key: for each pair `i <= j` of key polynomials, in the order of
/// `flatten_pairs`, and each level `l`, a GLWE encryption of `-(s_i * s_j) * 2^(W - (l + 1) *
/// base_log)`, at index `pair * level + l`.
pub struct GlweRelinearizationKey<T> {
    pub rows: Vec<GlweCiphertext<T>>,
    pub glwe_dimension: usize,
    pub polynomial_size: usize,
    pub base_log: u32,
    pub level: u32,
}

impl<T: UnsignedTorus> GlweRelinearizationKey<T> {
    pub open spec fn wf(&self) -> bool {
        &&& crate::keyswitch::decomposition_fits(T::width() as int, self.base_log as int, self.level as int)
        &&& self.polynomial_size >= 1
        &&& self.glwe_dimension < usize::MAX
        &&& forall|u: int|
            0 <= u < self.rows.len() ==> {
                &&& (#[trigger] self.rows[u]).wf()
                &&& self.rows[u].polys.len() == self.glwe_dimension + 1
                &&& self.rows[u].polynomial_size == self.polynomial_size
            }
    }
}

/// The relinearized ciphertext: the linear polynomials as masks and the body, minus the
/// gadget product of the quadratic polynomials with the relinearization key.
pub open spec fn relinearize_spec(
    m: int,
    linear: Seq<Seq<int>>,
    body: Seq<int>,
    quadratic: Seq<Seq<int>>,
    rows: Seq<Seq<Seq<int>>>,
    bits: nat,
    base_log: nat,
    level: nat,
) -> Seq<Seq<int>> {
    let init = linear.push(body);
    Seq::new(
        init.len(),
        |q: int|
            Seq::new(
                body.len(),
                |c: int|
                    (init[q][c] - crate::bootstrap::external_sum(
                        m,
                        rows,
                        quadratic,
                        bits,
                        base_log,
                        level,
                        q,
                        c,
                        quadratic.len() * level,
                    )) % m,
            ),
    )
}

/// Folds a tensor product back to a GLWE ciphertext of dimension `k` with the
/// relinearization key. The polynomial sizes must match, and the key must have one block of
/// `level` rows per quadratic polynomial, for the tensor's dimension; otherwise the mismatch is
/// reported.
pub fn relinearize<T: UnsignedTorus>(tensor: &GlweTensorProduct<T>, rlk: &GlweRelinearizationKey<T>) -> (r: Result<
    GlweCiphertext<T>,
    crate::error::EngineError,
>)
    requires
        tensor.wf(),
        rlk.wf(),
    ensures
        r == Err::<GlweCiphertext<T>, crate::error::EngineError>(
            crate::error::EngineError::PolynomialSizeMismatch,
        ) <==> tensor.polynomial_size != rlk.polynomial_size,
        r == Err::<GlweCiphertext<T>, crate::error::EngineError>(
            crate::error::EngineError::GlweDimensionMismatch,
        ) <==> (tensor.polynomial_size == rlk.polynomial_size && (tensor.linear.len() != rlk.glwe_dimension
            || rlk.rows.len() != flatten_pairs(quadratic_view(tensor.quadratic@)).len() * rlk.level)),
        r is Ok <==> (tensor.polynomial_size == rlk.polynomial_size && tensor.linear.len() == rlk.glwe_dimension
            && rlk.rows.len() == flatten_pairs(quadratic_view(tensor.quadratic@)).len() * rlk.level),
        r is Ok ==> ({
            let c = r->Ok_0;
            &&& c.wf()
            &&& c.polys.len() == tensor.linear.len() + 1
            &&& c.polynomial_size == tensor.polynomial_size
            &&& c.view_polys() =~~= relinearize_spec(
                T::modulus(),
                poly_vals(tensor.linear@),
                vals(tensor.body@),
                flatten_pairs(quadratic_view(tensor.quadratic@)),
                crate::bootstrap::rows_view(rlk.rows@),
                T::width(),
                rlk.base_log as nat,
                rlk.level as nat,
            )
        }),
{
    if tensor.polynomial_size != rlk.polynomial_size {
        return Err(crate::error::EngineError::PolynomialSizeMismatch);
    }
    let n = tensor.polynomial_size;
    let k = tensor.linear.len();
    let ghost qv = quadratic_view(tensor.quadratic@);
    let mut flat: Vec<Vec<T>> = Vec::new();
    let mut i: usize = 0;
    while i < k
        invariant
            tensor.wf(),
            k == tensor.linear.len(),
            n == tensor.polynomial_size,
            qv == quadratic_view(tensor.quadratic@),
            i <= k,
            poly_vals(flat@) == flatten_pairs(qv.subrange(0, i as int)),
            all_sized(flat@, n as int),
        decreases k - i,
    {
        let row = &tensor.quadratic[i];
        let ghost before = flat@;
        let mut t: usize = 0;
        while t < row.len()
            invariant
                tensor.wf(),
                k == tensor.linear.len(),
                n == tensor.polynomial_size,
                i < k,
                row == tensor.quadratic[i as int],
                t <= row.len(),
                all_sized(row@, n as int),
                flat.len() == before.len() + t,
                forall|x: int| 0 <= x < before.len() ==> #[trigger] flat@[x] == before[x],
                forall|x: int| 0 <= x < t ==> (#[trigger] flat@[before.len() + x])@ == row@[x]@,
                all_sized(flat@, n as int),
            decreases row.len() - t,
        {
            flat.push(crate::torus::copy_vec(&row[t]));
            t += 1;
        }
        proof {
            let prefix = qv.subrange(0, i as int + 1);
            assert(prefix.drop_last() =~= qv.subrange(0, i as int));
            assert(prefix.last() == poly_vals(row@));
            assert forall|x: int| 0 <= x < flat.len() implies #[trigger] poly_vals(flat@)[x] == (poly_vals(
                before,
            ) + poly_vals(row@))[x] by {
                if x >= before.len() {
                    assert(flat@[before.len() + (x - before.len())]@ == row@[x - before.len()]@);
                }
            }
            assert(poly_vals(flat@) =~= poly_vals(before) + poly_vals(row@));
        }
        i += 1;
    }
    proof {
        assert(qv.subrange(0, k as int) =~= qv);
    }
    let level = rlk.level as usize;
    if k != rlk.glwe_dimension || rlk.rows.len() % level != 0 || rlk.rows.len() / level != flat.len() {
        proof {
            if rlk.rows.len() == flat.len() * rlk.level {
                vstd::arithmetic::div_mod::lemma_fundamental_div_mod_converse(
                    rlk.rows.len() as int,
                    level as int,
                    flat.len() as int,
                    0,
                );
            }
        }
        return Err(crate::error::EngineError::GlweDimensionMismatch);
    }
    proof {
        vstd::arithmetic::div_mod::lemma_fundamental_div_mod(rlk.rows.len() as int, level as int);
        assert(rlk.rows.len() == flat.len() * rlk.level) by (nonlinear_arith)
            requires
                rlk.rows.len() == level * (rlk.rows.len() / level) + rlk.rows.len() % level,
                rlk.rows.len() % level == 0,
                rlk.rows.len() / level == flat.len(),
                level == rlk.level,
        ;
    }
    let ext = crate::bootstrap::gadget_product(&rlk.rows, &flat, k + 1, n, rlk.base_log, rlk.level);
    let mut polys: Vec<Vec<T>> = Vec::new();
    let mut q: usize = 0;
    let ghost spec = relinearize_spec(
        T::modulus(),
        poly_vals(tensor.linear@),
        vals(tensor.body@),
        flatten_pairs(qv),
        crate::bootstrap::rows_view(rlk.rows@),
        T::width(),
        rlk.base_log as nat,
        rlk.level as nat,
    );
    while q <= k
        invariant
            tensor.wf(),
            k == tensor.linear.len(),
            n == tensor.polynomial_size,
            ext.len() == k + 1,
            all_sized(ext@, n as int),
            q <= k + 1,
            polys.len() == q,
            all_sized(polys@, n as int),
            poly_vals(flat@) == flatten_pairs(qv),
            rlk.rows.len() == flat.len() * rlk.level,
            spec == relinearize_spec(
                T::modulus(),
                poly_vals(tensor.linear@),
                vals(tensor.body@),
                flatten_pairs(qv),
                crate::bootstrap::rows_view(rlk.rows@),
                T::width(),
                rlk.base_log as nat,
                rlk.level as nat,
            ),
            forall|q2: int, c: int|
                0 <= c < n ==> 0 <= q2 <= k ==> #[trigger] ext[q2][c].val() == crate::bootstrap::external_sum(
                    T::modulus(),
                    crate::bootstrap::rows_view(rlk.rows@),
                    poly_vals(flat@),
                    T::width(),
                    rlk.base_log as nat,
                    rlk.level as nat,
                    q2,
                    c,
                    (flat.len() * rlk.level) as nat,
                ) % T::modulus(),
            forall|q2: int| 0 <= q2 < q ==> vals((#[trigger] polys[q2])@) =~= spec[q2],
        decreases k + 1 - q,
    {
        let init = if q < k { &tensor.linear[q] } else { &tensor.body };
        assert(init.len() == n);
        assert(ext[q as int].len() == n);
        let p = crate::polynomial::poly_sub(init, &ext[q]);
        proof {
            T::lemma_modulus();
            let lin = poly_vals(tensor.linear@).push(vals(tensor.body@));
            assert(lin[q as int] == vals(init@));
            assert forall|c: int| 0 <= c < n implies #[trigger] vals(p@)[c] == spec[q as int][c] by {
                let s = crate::bootstrap::external_sum(
                    T::modulus(),
                    crate::bootstrap::rows_view(rlk.rows@),
                    poly_vals(flat@),
                    T::width(),
                    rlk.base_log as nat,
                    rlk.level as nat,
                    q as int,
                    c,
                    (flat.len() * rlk.level) as nat,
                );
                assert(ext[q as int][c].val() == s % T::modulus());
                crate::torus::lemma_mod_add(init[c].val(), s, T::modulus());
            }
        }
        polys.push(p);
        q += 1;
    }
    let r = GlweCiphertext { polys, polynomial_size: n };
    proof {
        assert forall|q2: int| 0 <= q2 <= k implies #[trigger] r.view_polys()[q2] =~= spec[q2] by {
            assert(r.view_polys()[q2] == vals(r.polys[q2]@));
        }
    }
    Ok(r)
}

} // verus!

verus! {

proof fn lemma_flatten_len(q: Seq<Seq<Seq<int>>>, k: int, i: int)
    requires
        0 <= i <= q.len(),
        q.len() == k,
        forall|i2: int| 0 <= i2 < k ==> (#[trigger] q[i2]).len() == k - i2,
    ensures
        2 * flatten_pairs(q.subrange(0, i)).len() == i * (2 * k - i + 1),
    decreases i,
{
    if i == 0 {
        assert(q.subrange(0, 0) =~= Seq::<Seq<Seq<int>>>::empty());
    } else {
        lemma_flatten_len(q, k, i - 1);
        assert(q.subrange(0, i).drop_last() =~= q.subrange(0, i - 1));
        assert(q.subrange(0, i).last() == q[i - 1]);
        assert(flatten_pairs(q.subrange(0, i)) == flatten_pairs(q.subrange(0, i - 1)) + q[i - 1]);
        let f = flatten_pairs(q.subrange(0, i - 1)).len();
        assert(2 * (f + (k - (i - 1))) == i * (2 * k - i + 1)) by (nonlinear_arith)
            requires
                2 * f == (i - 1) * (2 * k - (i - 1) + 1),
        ;
    }
}

/// A triangle of `k` rows of `k - i` polynomials, and the `k` linear ones, make `k (k + 3) / 2`.
proof fn lemma_tensor_count(q: Seq<Seq<Seq<int>>>, k: int)
    requires
        q.len() == k,
        forall|i2: int| 0 <= i2 < k ==> (#[trigger] q[i2]).len() == k - i2,
    ensures
        flatten_pairs(q).len() + k == k * (k + 3) / 2,
{
    lemma_flatten_len(q, k, k);
    assert(q.subrange(0, k) =~= q);
    let x = k * (k + 3);
    assert(k * (2 * k - k + 1) + 2 * k == x) by (nonlinear_arith)
        requires
            x == k * (k + 3),
    ;
}

/// There are `k (k + 1) / 2` products of key polynomials.
pub proof fn lemma_key_products_count(m: int, key: Seq<Seq<int>>)
    ensures
        flatten_pairs(key_products(m, key)).len() == pair_count(key.len() as int),
{
    let q = key_products(m, key);
    let k = key.len() as int;
    lemma_flatten_len(q, k, k);
    assert(q.subrange(0, k) =~= q);
    let x = k * (k + 1);
    assert(k * (2 * k - k + 1) == x) by (nonlinear_arith)
        requires
            x == k * (k + 1),
    ;
    assert(2 * flatten_pairs(q).len() == x);
}

/// The plaintext of row `u` of a relinearization key.
pub open spec fn relinearization_plaintext(
    m: int,
    key: Seq<Seq<int>>,
    u: int,
    bits: nat,
    base_log: nat,
    level: nat,
) -> Seq<int> {
    let prod = flatten_pairs(key_products(m, key))[u / level as int];
    Seq::new(
        prod.len(),
        |c: int| (-prod[c] * pow2((bits - (u % level as int + 1) * base_log) as nat) as int) % m,
    )
}

impl<T: UnsignedTorus> crate::glwe::GlweSecretKey<T> {
    /// The relinearization key of `self`: row `u` encrypts
    /// `relinearization_plaintext(u)` with `masks[u]` and `errors[u]`.
    pub fn relinearization_key(
        &self,
        base_log: u32,
        level: u32,
        masks: &Vec<Vec<Vec<T>>>,
        errors: &Vec<Vec<T>>,
    ) -> (r: GlweRelinearizationKey<T>)
        requires
            self.wf(),
            self.polys.len() < usize::MAX,
            crate::keyswitch::decomposition_fits(T::width() as int, base_log as int, level as int),
            masks.len() == pair_count(self.polys.len() as int) * level,
            errors.len() == masks.len(),
            forall|u: int|
                0 <= u < masks.len() ==> (#[trigger] masks[u]).len() == self.polys.len() && all_sized(
                    masks[u]@,
                    self.polynomial_size as int,
                ),
            forall|u: int| 0 <= u < errors.len() ==> (#[trigger] errors[u]).len() == self.polynomial_size,
        ensures
            r.wf(),
            r.glwe_dimension == self.polys.len(),
            r.polynomial_size == self.polynomial_size,
            r.base_log == base_log,
            r.level == level,
            r.rows.len() == masks.len(),
            forall|u: int|
                0 <= u < r.rows.len() ==> #[trigger] r.rows[u].view_polys() =~~= crate::bootstrap::glwe_encryption_spec(
                    T::modulus(),
                    self.key(),
                    poly_vals(masks[u]@),
                    relinearization_plaintext(T::modulus(), self.key(), u, T::width(), base_log as nat, level as nat),
                    vals(errors[u]@),
                ),
    {
        let n = self.polynomial_size;
        let k = self.polys.len();
        let bits = T::bits();
        let ghost m = T::modulus();
        let ghost kp = key_products(m, self.key());
        proof {
            T::lemma_modulus();
            lemma_key_products_count(m, self.key());
        }
        let mut flat: Vec<Vec<T>> = Vec::new();
        let mut i: usize = 0;
        while i < k
            invariant
                self.wf(),
                k == self.polys.len(),
                n == self.polynomial_size,
                m == T::modulus(),
                kp == key_products(m, self.key()),
                i <= k,
                poly_vals(flat@) == flatten_pairs(kp.subrange(0, i as int)),
                all_sized(flat@, n as int),
            decreases k - i,
        {
            let ghost before = flat@;
            let mut t: usize = 0;
            while t < k - i
                invariant
                    self.wf(),
                    k == self.polys.len(),
                    n == self.polynomial_size,
                    m == T::modulus(),
                    kp == key_products(m, self.key()),
                    i < k,
                    t <= k - i,
                    flat.len() == before.len() + t,
                    forall|x: int| 0 <= x < before.len() ==> #[trigger] flat@[x] == before[x],
                    forall|x: int| 0 <= x < t ==> vals((#[trigger] flat@[before.len() + x])@) == kp[i as int][x],
                    all_sized(flat@, n as int),
                decreases k - i - t,
            {
                assert(self.polys[i as int].len() == n && self.polys[(i + t) as int].len() == n);
                let p = crate::polynomial::poly_mul(&self.polys[i], &self.polys[i + t]);
                proof {
                    assert(self.key()[i as int] == vals(self.polys[i as int]@));
                    assert(self.key()[(i + t) as int] == vals(self.polys[(i + t) as int]@));
                    assert(vals(p@) =~= kp[i as int][t as int]);
                }
                flat.push(p);
                t += 1;
            }
            proof {
                let prefix = kp.subrange(0, i as int + 1);
                assert(prefix.drop_last() =~= kp.subrange(0, i as int));
                assert forall|x: int| 0 <= x < flat.len() implies #[trigger] poly_vals(flat@)[x] == (poly_vals(
                    before,
                ) + kp[i as int])[x] by {
                    if x >= before.len() {
                        assert(vals(flat@[before.len() + (x - before.len())]@) == kp[i as int][x - before.len()]);
                    }
                }
                assert(poly_vals(flat@) =~= poly_vals(before) + kp[i as int]);
            }
            i += 1;
        }
        proof {
            assert(kp.subrange(0, k as int) =~= kp);
        }
        let mut rows: Vec<GlweCiphertext<T>> = Vec::new();
        let mut u: usize = 0;
        while u < masks.len()
            invariant
                self.wf(),
                k == self.polys.len(),
                n == self.polynomial_size,
                bits as nat == T::width(),
                bits == 32 || bits == 64,
                m == T::modulus(),
                m == pow2(bits as nat),
                m > 0,
                crate::keyswitch::decomposition_fits(bits as int, base_log as int, level as int),
                kp == key_products(m, self.key()),
                poly_vals(flat@) == flatten_pairs(kp),
                flatten_pairs(kp).len() == pair_count(k as int),
                all_sized(flat@, n as int),
                masks.len() == pair_count(k as int) * level,
                errors.len() == masks.len(),
                forall|u2: int|
                    0 <= u2 < masks.len() ==> (#[trigger] masks[u2]).len() == k && all_sized(masks[u2]@, n as int),
                forall|u2: int| 0 <= u2 < errors.len() ==> (#[trigger] errors[u2]).len() == n,
                u <= masks.len(),
                rows.len() == u,
                forall|u2: int|
                    0 <= u2 < u ==> {
                        &&& (#[trigger] rows[u2]).wf()
                        &&& rows[u2].polys.len() == k + 1
                        &&& rows[u2].polynomial_size == n
                        &&& rows[u2].view_polys() =~~= crate::bootstrap::glwe_encryption_spec(
                            m,
                            self.key(),
                            poly_vals(masks[u2]@),
                            relinearization_plaintext(m, self.key(), u2, bits as nat, base_log as nat, level as nat),
                            vals(errors[u2]@),
                        )
                    },
            decreases masks.len() - u,
        {
            let p = u / (level as usize);
            let j = u % (level as usize);
            proof {
                vstd::arithmetic::div_mod::lemma_fundamental_div_mod(u as int, level as int);
                let pi = p as int;
                let ji = j as int;
                let li = level as int;
                assert(u as int == li * pi + ji);
                assert(pi < pair_count(k as int)) by (nonlinear_arith)
                    requires
                        u as int == li * pi + ji,
                        ji >= 0,
                        (u as int) < pair_count(k as int) * li,
                        li > 0,
                ;
                assert((j + 1) * base_log <= base_log * level) by (nonlinear_arith)
                    requires
                        j < level,
                        base_log >= 1,
                ;
                assert((j + 1) * base_log >= 1) by (nonlinear_arith)
                    requires
                        base_log >= 1,
                        j >= 0,
                ;
            }
            let shift = bits - ((j as u32) + 1) * base_log;
            proof {
                lemma_pow2_strictly_increases(shift as nat, 64);
                lemma_pow2_strictly_increases(shift as nat, bits as nat);
                lemma2_to64();
            }
            let g = T::from_u64(crate::decomposition::pow2_u64(shift));
            let prod = &flat[p];
            assert(prod.len() == n);
            let mut pt: Vec<T> = Vec::new();
            let mut c: usize = 0;
            let ghost want = relinearization_plaintext(m, self.key(), u as int, bits as nat, base_log as nat, level as nat);
            proof {
                assert(poly_vals(flat@)[p as int] == vals(prod@));
                lemma_small_mod(pow2(shift as nat), m as nat);
            }
            while c < n
                invariant
                    m == T::modulus(),
                    m > 0,
                    prod.len() == n,
                    g.val() == pow2(shift as nat) as int,
                    shift == bits - (u as int % level as int + 1) * base_log,
                    want == relinearization_plaintext(m, self.key(), u as int, bits as nat, base_log as nat, level as nat),
                    vals(prod@) == flatten_pairs(kp)[u as int / level as int],
                    kp == key_products(m, self.key()),
                    c <= n,
                    pt.len() == c,
                    forall|c2: int| 0 <= c2 < c ==> #[trigger] pt[c2].val() == want[c2],
                decreases n - c,
            {
                let v = T::zero().torus_sub(prod[c]).torus_mul(g);
                proof {
                    let x = prod[c as int].val();
                    crate::torus::lemma_mod_mul(0 - x, g.val(), m);
                    assert(want[c as int] == (-x * pow2(shift as nat) as int) % m);
                }
                pt.push(v);
                c += 1;
            }
            proof {
                assert(vals(pt@) =~= want);
            }
            let ct = self.encrypt(&pt, &masks[u], &errors[u]);
            proof {
                let enc = crate::bootstrap::glwe_encryption_spec(
                    m,
                    self.key(),
                    poly_vals(masks[u as int]@),
                    want,
                    vals(errors[u as int]@),
                );
                let ctv = ct.view_polys();
                assert forall|q: int| 0 <= q < k + 1 implies #[trigger] ctv[q] =~= enc[q] by {
                    if q == k {
                        assert forall|j2: int| 0 <= j2 < n implies ctv[q][j2] == enc[q][j2] by {
                            assert(ctv[q][j2] == ct.polys[k as int][j2].val());
                        }
                    } else {
                        assert(ctv[q] == poly_vals(ct.polys@).drop_last()[q]);
                    }
                }
            }
            rows.push(ct);
            u += 1;
        }
        GlweRelinearizationKey { rows, glwe_dimension: k, polynomial_size: n, base_log, level }
    }
}

} // verus!
