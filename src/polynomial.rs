//! Polynomials of `Z_q[X] / (X^N + 1)`, coefficients stored lowest degree first.
use crate::torus::{lemma_mod_add, vals, UnsignedTorus};
use vstd::prelude::*;

verus! {

/// The contribution of `a[i]` to coefficient `j` of the negacyclic product `a * b`.
pub open spec fn nega_term(a: Seq<int>, b: Seq<int>, j: int, i: int) -> int {
    if i <= j {
        a[i] * b[j - i]
    } else {
        -(a[i] * b[j - i + b.len()])
    }
}

/// `sum_{i < count} nega_term(a, b, j, i)`.
pub open spec fn nega_sum(a: Seq<int>, b: Seq<int>, j: int, count: nat) -> int
    decreases count,
{
    if count == 0 {
        0
    } else {
        nega_sum(a, b, j, (count - 1) as nat) + nega_term(a, b, j, count - 1)
    }
}

/// Coefficient `j` of the product `a * b` in `Z[X] / (X^N + 1)`, before reduction modulo `q`.
pub open spec fn poly_mul_coeff(a: Seq<int>, b: Seq<int>, j: int) -> int {
    nega_sum(a, b, j, a.len())
}

/// Coefficient `j` of `X^r * a` in `Z[X] / (X^N + 1)`, for `0 <= r < 2N`.
pub open spec fn monomial_mul_coeff(a: Seq<int>, r: int, j: int) -> int {
    let n = a.len() as int;
    let s = j - r;
    if s >= 0 {
        a[s]
    } else if s >= -n {
        -a[s + n]
    } else {
        a[s + 2 * n]
    }
}

/// The negacyclic product of two polynomials of one size.
pub fn poly_mul<T: UnsignedTorus>(a: &Vec<T>, b: &Vec<T>) -> (r: Vec<T>)
    requires
        a.len() == b.len(),
    ensures
        r.len() == a.len(),
        forall|j: int|
            0 <= j < r.len() ==> #[trigger] r[j].val() == poly_mul_coeff(vals(a@), vals(b@), j)
                % T::modulus(),
{
    let n = a.len();
    let ghost m = T::modulus();
    let ghost av = vals(a@);
    let ghost bv = vals(b@);
    proof {
        T::lemma_modulus();
    }
    let mut r: Vec<T> = Vec::new();
    let mut j: usize = 0;
    while j < n
        invariant
            n == a.len(),
            n == b.len(),
            m == T::modulus(),
            m > 0,
            av == vals(a@),
            bv == vals(b@),
            j <= n,
            r.len() == j,
            forall|t: int| 0 <= t < j ==> #[trigger] r[t].val() == poly_mul_coeff(av, bv, t) % m,
        decreases n - j,
    {
        let mut acc = T::zero();
        proof {
            vstd::arithmetic::div_mod::lemma_small_mod(0, m as nat);
        }
        let mut i: usize = 0;
        while i < n
            invariant
                n == a.len(),
                n == b.len(),
                m == T::modulus(),
                m > 0,
                av == vals(a@),
                bv == vals(b@),
                j < n,
                i <= n,
                acc.val() == nega_sum(av, bv, j as int, i as nat) % m,
            decreases n - i,
        {
            let ghost prev = nega_sum(av, bv, j as int, i as nat);
            if i <= j {
                let p = a[i].torus_mul(b[j - i]);
                proof {
                    lemma_mod_add(prev, av[i as int] * bv[j - i], m);
                    lemma_mod_add(acc.val(), av[i as int] * bv[j - i], m);
                }
                acc = acc.torus_add(p);
            } else {
                let p = a[i].torus_mul(b[n - (i - j)]);
                proof {
                    lemma_mod_add(prev, av[i as int] * bv[j + n - i], m);
                    lemma_mod_add(acc.val(), av[i as int] * bv[j + n - i], m);
                    assert(j - i + bv.len() == j + n - i);
                }
                acc = acc.torus_sub(p);
            }
            i += 1;
        }
        r.push(acc);
        j += 1;
    }
    r
}

/// `X^shift * a`, for `0 <= shift < 2N`.
pub fn monomial_mul<T: UnsignedTorus>(a: &Vec<T>, shift: usize) -> (r: Vec<T>)
    requires
        shift < 2 * a.len(),
    ensures
        r.len() == a.len(),
        forall|j: int|
            0 <= j < r.len() ==> #[trigger] r[j].val() == monomial_mul_coeff(vals(a@), shift as int, j)
                % T::modulus(),
{
    let n = a.len();
    proof {
        T::lemma_modulus();
    }
    let mut r: Vec<T> = Vec::new();
    let mut j: usize = 0;
    while j < n
        invariant
            n == a.len(),
            shift < 2 * n,
            T::modulus() > 0,
            j <= n,
            r.len() == j,
            forall|t: int|
                0 <= t < j ==> #[trigger] r[t].val() == monomial_mul_coeff(vals(a@), shift as int, t)
                    % T::modulus(),
        decreases n - j,
    {
        let v = if j >= shift {
            a[j - shift]
        } else if shift - j <= n {
            T::zero().torus_sub(a[n - (shift - j)])
        } else {
            a[n - (shift - j - n)]
        };
        proof {
            T::lemma_val_bounds(v);
            let av = vals(a@);
            if j >= shift {
                vstd::arithmetic::div_mod::lemma_small_mod(v.val() as nat, T::modulus() as nat);
            } else if shift - j <= n {
                assert(j - shift + n == n - (shift - j));
                lemma_mod_add(0, av[j + n - shift], T::modulus());
            } else {
                vstd::arithmetic::div_mod::lemma_small_mod(v.val() as nat, T::modulus() as nat);
            }
        }
        r.push(v);
        j += 1;
    }
    r
}

/// The entry-wise sum of two polynomials of one size.
pub fn poly_add<T: UnsignedTorus>(a: &Vec<T>, b: &Vec<T>) -> (r: Vec<T>)
    requires
        a.len() == b.len(),
    ensures
        r.len() == a.len(),
        forall|j: int|
            0 <= j < r.len() ==> #[trigger] r[j].val() == (a[j].val() + b[j].val()) % T::modulus(),
{
    let mut r: Vec<T> = Vec::new();
    let mut j: usize = 0;
    while j < a.len()
        invariant
            a.len() == b.len(),
            j <= a.len(),
            r.len() == j,
            forall|t: int|
                0 <= t < j ==> #[trigger] r[t].val() == (a[t].val() + b[t].val()) % T::modulus(),
        decreases a.len() - j,
    {
        r.push(a[j].torus_add(b[j]));
        j += 1;
    }
    r
}

/// The entry-wise difference of two polynomials of one size.
pub fn poly_sub<T: UnsignedTorus>(a: &Vec<T>, b: &Vec<T>) -> (r: Vec<T>)
    requires
        a.len() == b.len(),
    ensures
        r.len() == a.len(),
        forall|j: int|
            0 <= j < r.len() ==> #[trigger] r[j].val() == (a[j].val() - b[j].val()) % T::modulus(),
{
    let mut r: Vec<T> = Vec::new();
    let mut j: usize = 0;
    while j < a.len()
        invariant
            a.len() == b.len(),
            j <= a.len(),
            r.len() == j,
            forall|t: int|
                0 <= t < j ==> #[trigger] r[t].val() == (a[t].val() - b[t].val()) % T::modulus(),
        decreases a.len() - j,
    {
        r.push(a[j].torus_sub(b[j]));
        j += 1;
    }
    r
}

} // verus!
