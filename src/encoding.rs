//! Encoding cleartext messages into the most significant bits of a torus element.
use crate::decomposition::{closest_representable, pow2_u64, round_to_msb};
use crate::torus::UnsignedTorus;
use vstd::arithmetic::power2::pow2;
use vstd::prelude::*;

verus! {

/// The number of most significant bits of a plaintext that carry the message.
pub struct MessageBitCount(pub usize);

/// The plaintext `message * 2^(W - bits)`: the message in the `bits` most significant bits.
pub fn encode_message<T: UnsignedTorus>(message: u64, bits: &MessageBitCount) -> (r: T)
    requires
        1 <= bits.0 < T::width(),
    ensures
        r.val() == (message as int % pow2(bits.0 as nat) as int) * pow2((T::width() - bits.0) as nat) as int,
{
    proof {
        T::lemma_modulus();
    }
    let w = T::bits();
    let b = bits.0 as u32;
    let p = pow2_u64(b);
    let s = pow2_u64(w - b);
    proof {
        vstd::arithmetic::power2::lemma_pow2_pos(b as nat);
    }
    let low = message % p;
    proof {
        vstd::arithmetic::power2::lemma_pow2_adds(b as nat, (w - b) as nat);
        assert(low as int * s as int <= (p as int - 1) * s as int) by (nonlinear_arith)
            requires
                low < p,
                s >= 0,
        ;
        assert((p as int - 1) * s as int == p as int * s as int - s as int) by (nonlinear_arith);
        vstd::arithmetic::power2::lemma_pow2_pos((w - b) as nat);
        if w == 64 {
            vstd::arithmetic::power2::lemma2_to64();
        } else {
            vstd::arithmetic::power2::lemma2_to64();
            vstd::arithmetic::power2::lemma_pow2_strictly_increases(32, 64);
        }
    }
    let v = low * s;
    proof {
        vstd::arithmetic::div_mod::lemma_small_mod(v as nat, T::modulus() as nat);
    }
    T::from_u64(v)
}

/// The message that a plaintext carries: the plaintext rounded to its `bits` most significant
/// bits.
pub fn decode_plaintext<T: UnsignedTorus>(plaintext: T, bits: &MessageBitCount) -> (r: u64)
    requires
        1 <= bits.0 < T::width(),
    ensures
        r as int == closest_representable(plaintext.val(), T::width(), bits.0 as nat, 1),
        (r as nat) < pow2(bits.0 as nat),
{
    proof {
        T::lemma_modulus();
        T::lemma_val_bounds(plaintext);
    }
    round_to_msb(plaintext.to_u64(), T::bits(), bits.0 as u32, 1)
}

} // verus!
