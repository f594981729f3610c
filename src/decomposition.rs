//! Signed gadget decomposition of torus elements in base `B = 2^base_log`.
use vstd::arithmetic::power2::*;
use vstd::prelude::*;

verus! {

/// `a` (of `bits` bits) rounded to its `base_log * level` most significant bits, ties rounded
/// up, and read as an integer in `[0, 2^(base_log * level))`.
pub open spec fn closest_representable(a: int, bits: nat, base_log: nat, level: nat) -> int {
    let s = (bits - base_log * level) as nat;
    if s == 0 {
        a
    } else {
        ((a / pow2((s - 1) as nat) as int + 1) / 2) % pow2(base_log * level) as int
    }
}

/// The value `sum_j d[j] * B^(d.len() - 1 - j)` of a sequence of digits, most significant first.
pub open spec fn digits_value(d: Seq<int>, base_log: nat) -> int
    decreases d.len(),
{
    if d.len() == 0 {
        0
    } else {
        digits_value(d.drop_last(), base_log) * pow2(base_log) + d.last()
    }
}

/// The `count` balanced digits of `v` in base `b`, most significant first: the lowest digit is
/// `v % b`, moved into `[-b/2, b/2)` by a carry into the digits above it.
pub open spec fn balanced_digits(v: int, b: int, count: nat) -> Seq<int>
    decreases count,
{
    if count == 0 {
        Seq::empty()
    } else {
        let r = v % b;
        if r >= b / 2 {
            balanced_digits(v / b + 1, b, (count - 1) as nat).push(r - b)
        } else {
            balanced_digits(v / b, b, (count - 1) as nat).push(r)
        }
    }
}

/// The digits that `decompose` gives for `a`.
pub open spec fn gadget_digits(a: int, bits: nat, base_log: nat, level: nat) -> Seq<int> {
    balanced_digits(closest_representable(a, bits, base_log, level), pow2(base_log) as int, level)
}

/// Whether `d` is a balanced decomposition of `a` over `level` digits in base `2^base_log`:
/// each digit in `[-B/2, B/2)` and the digits recompose to the closest representable value.
pub open spec fn is_decomposition(d: Seq<int>, a: int, bits: nat, base_log: nat, level: nat) -> bool {
    &&& d.len() == level
    &&& forall|j: int|
        0 <= j < level ==> -(pow2((base_log - 1) as nat) as int) <= #[trigger] d[j] < pow2(
            (base_log - 1) as nat,
        )
    &&& (closest_representable(a, bits, base_log, level) - digits_value(d, base_log)) % pow2(
        base_log * level,
    ) as int == 0
}

/// The values of a sequence of signed digits.
pub open spec fn ints(d: Seq<i64>) -> Seq<int> {
    d.map_values(|x: i64| x as int)
}

/// `2^e`.
pub fn pow2_u64(e: u32) -> (r: u64)
    requires
        e < 64,
    ensures
        r as nat == pow2(e as nat),
{
    let mut r: u64 = 1;
    let mut i: u32 = 0;
    proof {
        lemma2_to64();
    }
    while i < e
        invariant
            i <= e,
            e < 64,
            r as nat == pow2(i as nat),
        decreases e - i,
    {
        proof {
            lemma_pow2_unfold((i + 1) as nat);
            lemma_pow2_strictly_increases((i + 1) as nat, 64);
            lemma2_to64();
        }
        r = r * 2;
        i += 1;
    }
    r
}

proof fn lemma_digits_value_prepend(x: int, s: Seq<int>, base_log: nat)
    ensures
        digits_value(seq![x] + s, base_log) == x * pow2(base_log * s.len()) + digits_value(s, base_log),
    decreases s.len(),
{
    let t = seq![x] + s;
    let b = pow2(base_log) as int;
    if s.len() == 0 {
        assert(t.drop_last() =~= Seq::<int>::empty());
        assert(t.last() == x);
        assert(digits_value(t, base_log) == digits_value(t.drop_last(), base_log) * b + t.last());
        assert(digits_value(Seq::<int>::empty(), base_log) == 0);
        assert(pow2(0) == 1) by {
            lemma2_to64();
        }
        assert(base_log * s.len() == 0) by (nonlinear_arith)
            requires
                s.len() == 0,
        ;
    } else {
        assert(t.drop_last() =~= seq![x] + s.drop_last());
        assert(t.last() == s.last());
        assert(digits_value(t, base_log) == digits_value(t.drop_last(), base_log) * b + t.last());
        assert(digits_value(s, base_log) == digits_value(s.drop_last(), base_log) * b + s.last());
        lemma_digits_value_prepend(x, s.drop_last(), base_log);
        let k = (s.len() - 1) as nat;
        assert(s.drop_last().len() == k);
        lemma_pow2_adds(base_log * k, base_log);
        assert(base_log * k + base_log == base_log * s.len()) by (nonlinear_arith)
            requires
                k == s.len() - 1,
        ;
        let p = pow2(base_log * k) as int;
        let ds = digits_value(s.drop_last(), base_log);
        assert(digits_value(t.drop_last(), base_log) == x * p + ds);
        assert((x * p + ds) * b + s.last() == x * (p * b) + (ds * b + s.last())) by (nonlinear_arith);
        assert(p * b == pow2(base_log * s.len()) as int);
    }
}

/// `a` rounded to its `base_log * level` most significant bits (see `closest_representable`).
pub fn round_to_msb(a: u64, bits: u32, base_log: u32, level: u32) -> (r: u64)
    requires
        bits == 32 || bits == 64,
        (a as nat) < pow2(bits as nat),
        1 <= base_log < 64,
        1 <= level,
        base_log * level <= bits,
    ensures
        r as int == closest_representable(a as int, bits as nat, base_log as nat, level as nat),
        (r as nat) < pow2((base_log * level) as nat),
{
    let total = base_log * level;
    let s = bits - total;
    if s == 0 {
        a
    } else {
        let half = pow2_u64(s - 1);
        proof {
            lemma_pow2_pos((s - 1) as nat);
        }
        let x = a / half;
        let y = x / 2 + x % 2;
        let p = pow2_u64(total);
        proof {
            lemma_pow2_pos(total as nat);
            assert(x / 2 + x % 2 == (x + 1) / 2);
        }
        y % p
    }
}

/// The signed decomposition of `a` (an element of `bits` bits) into `level` digits in base
/// `2^base_log`, most significant first.
pub fn decompose(a: u64, bits: u32, base_log: u32, level: u32) -> (d: Vec<i64>)
    requires
        bits == 32 || bits == 64,
        (a as nat) < pow2(bits as nat),
        1 <= base_log < 64,
        1 <= level,
        base_log * level <= bits,
    ensures
        is_decomposition(ints(d@), a as int, bits as nat, base_log as nat, level as nat),
        ints(d@) == gadget_digits(a as int, bits as nat, base_log as nat, level as nat),
{
    let closest = round_to_msb(a, bits, base_log, level);
    let total = base_log * level;
    let s = bits - total;
    let b = pow2_u64(base_log);
    let half_b = pow2_u64(base_log - 1);
    proof {
        vstd::arithmetic::power2::lemma_pow2_unfold(base_log as nat);
        lemma_pow2_unfold(base_log as nat);
        lemma_pow2_pos((base_log - 1) as nat);
    }
    let mut d: Vec<i64> = Vec::new();
    let mut t: u32 = 0;
    while t < level
        invariant
            t <= level,
            d.len() == t,
            forall|j: int| 0 <= j < t ==> #[trigger] d[j] == 0,
        decreases level - t,
    {
        d.push(0);
        t += 1;
    }
    let mut st: u64 = closest;
    let mut t: u32 = level;
    proof {
        assert(ints(d@).subrange(level as int, level as int) =~= Seq::<int>::empty());
        assert(balanced_digits(closest as int, b as int, level as nat) + ints(d@).subrange(
            level as int,
            level as int,
        ) =~= balanced_digits(closest as int, b as int, level as nat));
        assert(((base_log * (level - level)) as nat) == 0);
        assert(pow2(0) == 1) by {
            lemma2_to64();
        }
        assert(base_log * (level - level) == 0) by (nonlinear_arith);
    }
    while t > 0
        invariant
            t <= level,
            d.len() == level,
            b as nat == pow2(base_log as nat),
            half_b as nat == pow2((base_log - 1) as nat),
            b == 2 * half_b,
            half_b > 0,
            1 <= base_log < 64,
            1 <= level,
            balanced_digits(closest as int, b as int, level as nat) == balanced_digits(
                st as int,
                b as int,
                t as nat,
            ) + ints(d@).subrange(t as int, level as int),
            closest as int == st as int * pow2((base_log * (level - t)) as nat) + digits_value(
                ints(d@).subrange(t as int, level as int),
                base_log as nat,
            ),
            forall|j: int|
                t <= j < level ==> -(half_b as int) <= #[trigger] d[j] < half_b as int,
        decreases t,
    {
        let r = st % b;
        let q = st / b;
        proof {
            vstd::arithmetic::div_mod::lemma_fundamental_div_mod(st as int, b as int);
            assert(st as int == b as int * q as int + r as int);
            assert(q as int * 2 <= b as int * q as int) by (nonlinear_arith)
                requires
                    b >= 2,
                    q >= 0,
            ;
            lemma_pow2_strictly_increases((base_log - 1) as nat, 63);
            lemma2_to64();
            lemma_pow2_unfold(64);
        }
        let digit: i64;
        let next: u64;
        if r >= half_b {
            digit = -((b - r) as i64);
            next = q + 1;
        } else {
            digit = r as i64;
            next = q;
        }
        proof {
            assert(st as int == next as int * b as int + digit as int) by (nonlinear_arith)
                requires
                    st as int == b as int * q as int + r as int,
                    (next == q && digit == r) || (next == q + 1 && digit == r - b),
            ;
        }
        let ghost old_d = d@;
        d.set((t - 1) as usize, digit);
        proof {
            assert(half_b == b / 2);
            assert(balanced_digits(st as int, b as int, t as nat) == balanced_digits(
                next as int,
                b as int,
                (t - 1) as nat,
            ).push(digit as int));
            assert(balanced_digits(closest as int, b as int, level as nat) =~= balanced_digits(
                next as int,
                b as int,
                (t - 1) as nat,
            ) + ints(d@).subrange(t - 1, level as int));
            let lo = ints(d@).subrange(t as int - 1, level as int);
            assert(lo =~= seq![digit as int] + ints(old_d).subrange(t as int, level as int));
            lemma_digits_value_prepend(digit as int, ints(old_d).subrange(t as int, level as int), base_log as nat);
            let e = (base_log * (level - t)) as nat;
            assert(base_log * (level - t) + base_log == base_log * (level - (t - 1))) by (nonlinear_arith)
                requires t >= 1, t <= level;
            lemma_pow2_adds(e, base_log as nat);
            let p = pow2(e) as int;
            assert((next as int * b as int + digit as int) * p == next as int * (b as int * p)
                + digit as int * p) by (nonlinear_arith);
        }
        st = next;
        t -= 1;
    }
    proof {
        assert(ints(d@).subrange(0, level as int) =~= ints(d@));
        assert(balanced_digits(st as int, b as int, 0) + ints(d@) =~= ints(d@));
        let p = pow2((base_log * level) as nat) as int;
        assert(base_log * (level - 0) == base_log * level);
        vstd::arithmetic::div_mod::lemma_mod_multiples_basic(st as int, p);
        lemma_pow2_pos((base_log * level) as nat);
        assert(st as int * p == p * st as int) by (nonlinear_arith);
    }
    d
}

} // verus!
