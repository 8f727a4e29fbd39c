//! The 64-bit Goldilocks prime field `Z/pZ`, `p = 2^64 - 2^32 + 1`, the base
//! field of the proof system. An element is held by its canonical
//! representative, a `u64` below `p`.
use vstd::prelude::*;
use vstd::arithmetic::power::pow;
use vstd::arithmetic::power::lemma_pow_mod_noop;
use vstd::arithmetic::power::lemma_pow_multiplies;
use vstd::arithmetic::power::lemma_pow1;
use vstd::arithmetic::div_mod::lemma_mul_mod_noop_general;
use vstd::arithmetic::div_mod::lemma_add_mod_noop;
use vstd::arithmetic::div_mod::lemma_small_mod;

verus! {

/// Extension-field degree used by the FRI-based proof system.
pub const D: usize = 2;

/// The field order `2^64 - 2^32 + 1`.
pub const ORDER: u64 = 0xFFFF_FFFF_0000_0001;

/// The canonical representative of the integer `v` in the field.
pub open spec fn reduce(v: int) -> int {
    v % (ORDER as int)
}

/// `a + b` in the field.
pub fn field_add(a: u64, b: u64) -> (r: u64)
    requires
        a < ORDER,
        b < ORDER,
    ensures
        r == reduce(a + b),
        r < ORDER,
{
    let s: u128 = (a as u128) + (b as u128);
    (s % (ORDER as u128)) as u64
}

/// `a * b` in the field.
pub fn field_mul(a: u64, b: u64) -> (r: u64)
    requires
        a < ORDER,
        b < ORDER,
    ensures
        r == reduce(a * b),
        r < ORDER,
{
    assert((a as u128) * (b as u128) <= 0xFFFF_FFFF_FFFF_FFFFu128 * 0xFFFF_FFFF_FFFF_FFFFu128)
        by (nonlinear_arith)
        requires a <= 0xFFFF_FFFF_FFFF_FFFFu64, b <= 0xFFFF_FFFF_FFFF_FFFFu64;
    let m: u128 = (a as u128) * (b as u128);
    (m % (ORDER as u128)) as u64
}

/// The field element for a canonical `u64` (one below the order).
pub fn from_canonical_u64(v: u64) -> (r: u64)
    requires
        v < ORDER,
    ensures
        r == v,
        r == reduce(v as int),
{
    proof {
        lemma_small_mod(v as nat, ORDER as nat);
    }
    v
}

/// Reduction is compatible with addition.
pub proof fn lemma_reduce_add(a: int, b: int)
    ensures
        reduce(reduce(a) + reduce(b)) == reduce(a + b),
{
    lemma_add_mod_noop(a, b, ORDER as int);
}

/// Reduction is compatible with multiplication.
pub proof fn lemma_reduce_mul(a: int, b: int)
    ensures
        reduce(reduce(a) * reduce(b)) == reduce(a * b),
{
    lemma_mul_mod_noop_general(a, b, ORDER as int);
}

/// Reduction is compatible with powers.
pub proof fn lemma_reduce_pow(a: int, e: nat)
    ensures
        reduce(pow(reduce(a), e)) == reduce(pow(a, e)),
{
    lemma_pow_mod_noop(a, e, ORDER as int);
}

/// Splitting off the low bit of an exponent.
pub proof fn lemma_pow_split(b: int, h: nat)
    ensures
        pow(b, 2 * h) == pow(b * b, h),
        pow(b, 2 * h + 1) == b * pow(b * b, h),
{
    lemma_pow_multiplies(b, 2, h);
    reveal(pow);
    assert(pow(b, 0) == 1);
    assert(pow(b, 1) == b * pow(b, 0));
    assert(pow(b, 2) == b * pow(b, 1));
    assert(pow(b, 2) == b * b);
    assert(pow(b, 2 * h + 1) == b * pow(b, 2 * h));
}

/// Reducing a factor and the base of a power does not change the reduced
/// product.
pub proof fn lemma_reduce_step(r: int, bb: int, h: nat)
    ensures
        reduce(reduce(r) * pow(reduce(bb), h)) == reduce(r * pow(bb, h)),
{
    let o = ORDER as int;
    lemma_reduce_mul(reduce(r), pow(reduce(bb), h));
    vstd::arithmetic::div_mod::lemma_mod_twice(r, o);
    lemma_reduce_pow(bb, h);
    lemma_reduce_mul(r, pow(bb, h));
}

/// `x^k` in the field, by binary exponentiation (square and multiply).
pub fn field_pow(x: u64, k: u64) -> (r: u64)
    requires
        x < ORDER,
    ensures
        r == reduce(pow(x as int, k as nat)),
        r < ORDER,
{
    let mut result: u64 = 1;
    let mut base: u64 = x;
    let mut e: u64 = k;
    proof {
        reveal(pow);
        assert(pow(x as int, k as nat) == 1 * pow(x as int, k as nat));
    }
    while e > 0
        invariant
            result < ORDER,
            base < ORDER,
            reduce(result * pow(base as int, e as nat)) == reduce(pow(x as int, k as nat)),
        decreases e,
    {
        let ghost r0 = result as int;
        let ghost b0 = base as int;
        let half: u64 = e / 2;
        proof {
            lemma_pow_split(b0, half as nat);
        }
        if e % 2 == 1 {
            result = field_mul(result, base);
            proof {
                let q = pow(b0 * b0, half as nat);
                assert(r0 * (b0 * q) == (r0 * b0) * q) by (nonlinear_arith);
                assert(reduce((r0 * b0) * q) == reduce(pow(x as int, k as nat)));
            }
        }
        proof {
            // `result` (reduced) times (b0*b0)^half now carries the target.
            let q = pow(b0 * b0, half as nat);
            let rr = if e % 2 == 1 { r0 * b0 } else { r0 };
            assert(reduce(rr * q) == reduce(pow(x as int, k as nat)));
            assert(result as int == reduce(rr)) by {
                if e % 2 != 1 {
                    lemma_small_mod(r0 as nat, ORDER as nat);
                }
            }
            lemma_reduce_step(rr, b0 * b0, half as nat);
            if half == 0 {
                reveal(pow);
                assert(pow(b0 * b0, 0) == 1);
                assert(pow(reduce(b0 * b0), 0) == 1);
                assert(pow(b0, 0) == 1);
            }
        }
        e = half;
        if e > 0 {
            base = field_mul(base, base);
        }
        proof {
            if e == 0 {
                reveal(pow);
                assert(pow(base as int, 0) == 1);
                assert(reduce(result as int) == result as int) by {
                    lemma_small_mod(result as nat, ORDER as nat);
                }
                assert(reduce(result * pow(base as int, e as nat)) == reduce(result as int));
                assert(pow(reduce(b0 * b0), 0) == 1);
            }
        }
    }
    proof {
        reveal(pow);
        assert(pow(base as int, 0) == 1);
        lemma_small_mod(result as nat, ORDER as nat);
    }
    result
}

} // verus!
