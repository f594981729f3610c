//! Torus elements: fixed-width unsigned integers read modulo `2^W`.
use vstd::arithmetic::div_mod::*;
use vstd::arithmetic::power2::*;
use vstd::prelude::*;

verus! {

/// An unsigned integer type whose values stand for elements of the discretized torus
/// `Z / 2^W Z`, with wrapping arithmetic.
pub trait UnsignedTorus: Copy + Sized {
    /// The modulus `2^W`.
    spec fn modulus() -> int;

    /// The bit width `W`.
    spec fn width() -> nat;

    /// The value of the element, in `[0, modulus())`.
    spec fn val(&self) -> int;

    proof fn lemma_val_bounds(x: Self)
        ensures
            Self::modulus() >= 0x1_0000_0000,
            0 <= x.val() < Self::modulus(),
    ;

    proof fn lemma_modulus()
        ensures
            Self::modulus() >= 0x1_0000_0000,
            Self::width() == 32 || Self::width() == 64,
            Self::modulus() == pow2(Self::width()),
    ;

    /// The bit width `W`.
    fn bits() -> (r: u32)
        ensures
            r == 32 || r == 64,
            r as nat == Self::width(),
            Self::modulus() == pow2(r as nat),
    ;

    fn zero() -> (r: Self)
        ensures
            r.val() == 0,
    ;

    fn torus_add(self, o: Self) -> (r: Self)
        ensures
            r.val() == (self.val() + o.val()) % Self::modulus(),
    ;

    fn torus_sub(self, o: Self) -> (r: Self)
        ensures
            r.val() == (self.val() - o.val()) % Self::modulus(),
    ;

    fn torus_mul(self, o: Self) -> (r: Self)
        ensures
            r.val() == (self.val() * o.val()) % Self::modulus(),
    ;

    /// The element congruent to a signed integer.
    fn from_signed(d: i64) -> (r: Self)
        ensures
            r.val() == d as int % Self::modulus(),
    ;

    /// The element congruent to an unsigned 64-bit integer.
    fn from_u64(x: u64) -> (r: Self)
        ensures
            r.val() == x as int % Self::modulus(),
    ;

    fn to_u64(self) -> (r: u64)
        ensures
            r as int == self.val(),
    ;
}

impl UnsignedTorus for u32 {
    open spec fn modulus() -> int {
        0x1_0000_0000
    }

    open spec fn width() -> nat {
        32
    }

    open spec fn val(&self) -> int {
        *self as int
    }

    proof fn lemma_val_bounds(x: u32) {
    }

    proof fn lemma_modulus() {
        lemma2_to64();
    }

    fn bits() -> (r: u32) {
        proof {
            lemma2_to64();
        }
        32
    }

    fn zero() -> (r: u32) {
        0
    }

    fn torus_add(self, o: u32) -> (r: u32) {
        let r = self.wrapping_add(o);
        proof {
            lemma_wrap_add(self as int, o as int, 0x1_0000_0000);
        }
        r
    }

    fn torus_sub(self, o: u32) -> (r: u32) {
        let r = self.wrapping_sub(o);
        proof {
            lemma_wrap_sub(self as int, o as int, 0x1_0000_0000);
        }
        r
    }

    fn torus_mul(self, o: u32) -> (r: u32) {
        self.wrapping_mul(o)
    }

    fn from_signed(d: i64) -> (r: u32) {
        let u = <u64 as UnsignedTorus>::from_signed(d);
        let r = (u % 0x1_0000_0000) as u32;
        proof {
            lemma_mod_of_mod_power(d as int);
        }
        r
    }

    fn from_u64(x: u64) -> (r: u32) {
        (x % 0x1_0000_0000) as u32
    }

    fn to_u64(self) -> (r: u64) {
        self as u64
    }
}

impl UnsignedTorus for u64 {
    open spec fn modulus() -> int {
        0x1_0000_0000_0000_0000
    }

    open spec fn width() -> nat {
        64
    }

    open spec fn val(&self) -> int {
        *self as int
    }

    proof fn lemma_val_bounds(x: u64) {
    }

    proof fn lemma_modulus() {
        lemma2_to64();
    }

    fn bits() -> (r: u32) {
        proof {
            lemma2_to64();
        }
        64
    }

    fn zero() -> (r: u64) {
        0
    }

    fn torus_add(self, o: u64) -> (r: u64) {
        let r = self.wrapping_add(o);
        proof {
            lemma_wrap_add(self as int, o as int, 0x1_0000_0000_0000_0000);
        }
        r
    }

    fn torus_sub(self, o: u64) -> (r: u64) {
        let r = self.wrapping_sub(o);
        proof {
            lemma_wrap_sub(self as int, o as int, 0x1_0000_0000_0000_0000);
        }
        r
    }

    fn torus_mul(self, o: u64) -> (r: u64) {
        self.wrapping_mul(o)
    }

    fn from_signed(d: i64) -> (r: u64) {
        if d >= 0 {
            proof {
                lemma_small_mod(d as nat, 0x1_0000_0000_0000_0000);
            }
            d as u64
        } else {
            let m = (-(d as i128)) as u64;
            let r = 0u64.wrapping_sub(m);
            proof {
                lemma_wrap_sub(0, m as int, 0x1_0000_0000_0000_0000);
            }
            r
        }
    }

    fn from_u64(x: u64) -> (r: u64) {
        proof {
            lemma_small_mod(x as nat, 0x1_0000_0000_0000_0000);
        }
        x
    }

    fn to_u64(self) -> (r: u64) {
        self
    }
}

proof fn lemma_wrap_add(x: int, y: int, m: int)
    requires
        0 <= x < m,
        0 <= y < m,
    ensures
        (if x + y >= m { x + y - m } else { x + y }) == (x + y) % m,
{
    if x + y >= m {
        lemma_mod_sub_multiples_vanish(x + y, m);
        lemma_small_mod((x + y - m) as nat, m as nat);
    } else {
        lemma_small_mod((x + y) as nat, m as nat);
    }
}

proof fn lemma_wrap_sub(x: int, y: int, m: int)
    requires
        0 <= x < m,
        0 <= y < m,
    ensures
        (if x - y < 0 { x - y + m } else { x - y }) == (x - y) % m,
{
    if x - y < 0 {
        lemma_mod_add_multiples_vanish(x - y, m);
        lemma_small_mod((x - y + m) as nat, m as nat);
    } else {
        lemma_small_mod((x - y) as nat, m as nat);
    }
}

proof fn lemma_mod_of_mod_power(x: int)
    ensures
        (x % 0x1_0000_0000_0000_0000) % 0x1_0000_0000 == x % 0x1_0000_0000,
{
    lemma_mod_mod(x, 0x1_0000_0000, 0x1_0000_0000);
}

} // verus!

verus! {

/// A copy of `v`.
pub fn copy_vec<T: Copy>(v: &Vec<T>) -> (r: Vec<T>)
    ensures
        r@ == v@,
{
    let mut r: Vec<T> = Vec::new();
    let mut i: usize = 0;
    while i < v.len()
        invariant
            i <= v.len(),
            r@ == v@.subrange(0, i as int),
        decreases v.len() - i,
    {
        r.push(v[i]);
        i += 1;
    }
    assert(r@ =~= v@);
    r
}

/// The values of a sequence of torus elements.
pub open spec fn vals<T: UnsignedTorus>(s: Seq<T>) -> Seq<int> {
    s.map_values(|x: T| x.val())
}

/// The integer inner product of the first `a.len()` entries of `a` and `b`.
pub open spec fn dot(a: Seq<int>, b: Seq<int>) -> int
    decreases a.len(),
{
    if a.len() == 0 {
        0
    } else {
        dot(a.drop_last(), b) + a.last() * b[a.len() - 1]
    }
}

pub proof fn lemma_mod_add(x: int, y: int, m: int)
    requires
        m > 0,
    ensures
        (x % m + y) % m == (x + y) % m,
        (x + y % m) % m == (x + y) % m,
        (x % m - y) % m == (x - y) % m,
        (x - y % m) % m == (x - y) % m,
{
    lemma_add_mod_noop(x, y, m);
    lemma_mod_twice(x, m);
    lemma_mod_twice(y, m);
    lemma_add_mod_noop(x % m, y, m);
    lemma_add_mod_noop(x, y % m, m);
    lemma_sub_mod_noop(x, y, m);
    lemma_sub_mod_noop(x % m, y, m);
    lemma_sub_mod_noop(x, y % m, m);
}

pub proof fn lemma_mod_mul(x: int, y: int, m: int)
    requires
        m > 0,
    ensures
        ((x % m) * y) % m == (x * y) % m,
        (x * (y % m)) % m == (x * y) % m,
{
    lemma_mul_mod_noop_left(x, y, m);
    lemma_mul_mod_noop_right(x, y, m);
}

/// Entry-wise linear combinations carry over to inner products, modulo `m`.
pub proof fn lemma_dot_linear(x: Seq<int>, y: Seq<int>, z: Seq<int>, k: Seq<int>, a: int, b: int, m: int)
    requires
        m > 0,
        x.len() == z.len(),
        y.len() == z.len(),
        k.len() >= z.len(),
        forall|i: int| 0 <= i < z.len() ==> #[trigger] z[i] == (a * x[i] + b * y[i]) % m,
    ensures
        dot(z, k) % m == (a * dot(x, k) + b * dot(y, k)) % m,
    decreases z.len(),
{
    if z.len() > 0 {
        let n = z.len() - 1;
        lemma_dot_linear(x.drop_last(), y.drop_last(), z.drop_last(), k, a, b, m);
        let dz = dot(z.drop_last(), k);
        let dx = dot(x.drop_last(), k);
        let dy = dot(y.drop_last(), k);
        let kn = k[n];
        assert(z[n] == (a * x[n] + b * y[n]) % m);
        lemma_mod_mul(a * x[n] + b * y[n], kn, m);
        lemma_mod_add(dz, z[n] * kn, m);
        lemma_mod_add(a * dx + b * dy, z[n] * kn, m);
        lemma_mod_add(a * dx + b * dy, (a * x[n] + b * y[n]) * kn, m);
        lemma_mod_add(z[n] * kn, a * dx + b * dy, m);
        let xn = x[n];
        let yn = y[n];
        assert((a * xn + b * yn) * kn == a * (xn * kn) + b * (yn * kn)) by (nonlinear_arith);
        assert(a * (dx + xn * kn) == a * dx + a * (xn * kn)) by (nonlinear_arith);
        assert(b * (dy + yn * kn) == b * dy + b * (yn * kn)) by (nonlinear_arith);
        assert(dot(x, k) == dx + x[n] * kn);
        assert(dot(y, k) == dy + y[n] * kn);
        assert(dot(z, k) == dz + z[n] * kn);
        assert((dz + z[n] * kn) % m == ((a * dx + b * dy) + z[n] * kn) % m) by {
            lemma_mod_add(dz, z[n] * kn, m);
            lemma_mod_add(a * dx + b * dy, z[n] * kn, m);
        }
        assert(((a * dx + b * dy) + z[n] * kn) % m == ((a * dx + b * dy) + (z[n] * kn) % m) % m);
        assert(((a * dx + b * dy) + (a * x[n] + b * y[n]) * kn) % m == ((a * dx + b * dy) + ((a
            * x[n] + b * y[n]) * kn) % m) % m);
    }
}

} // verus!
