//! Low-order bits of hashes and directory slots, as remainders modulo powers of two.

use vstd::arithmetic::div_mod::{
    lemma_fundamental_div_mod, lemma_mod_breakdown, lemma_mod_mod, lemma_small_mod,
};
use vstd::arithmetic::power2::{
    lemma2_to64, lemma_pow2_adds, lemma_pow2_pos, lemma_pow2_strictly_increases, lemma_pow2_unfold,
    pow2,
};
use vstd::bits::{
    lemma_u32_shr_is_div, lemma_u64_low_bits_mask_is_mod, lemma_u64_shl_is_mul, low_bits_mask,
};
use vstd::prelude::*;

verus! {

/// The `depth` low-order bits of `x`, read as a number below `2^depth`.
#[verifier::opaque]
pub open spec fn low_bits(x: int, depth: nat) -> int {
    x % (pow2(depth) as int)
}

/// Whether bit number `position` of `x` is set, counted from the low end.
pub open spec fn bit_is_set(x: int, position: nat) -> bool {
    low_bits(x, position + 1) != low_bits(x, position)
}

/// The low-order bits of a number form a number below `2^depth`, and a number below `2^depth` is
/// its own low-order bits.
pub proof fn lemma_low_bits_bound(x: int, depth: nat)
    requires
        0 <= x,
    ensures
        0 <= low_bits(x, depth) < pow2(depth),
        low_bits(x, depth) <= x,
        x < pow2(depth) ==> low_bits(x, depth) == x,
        pow2(depth) <= x < 2 * pow2(depth) ==> low_bits(x, depth) == x - pow2(depth),
{
    reveal(low_bits);
    lemma_pow2_pos(depth);
    let m = pow2(depth) as int;
    if x < m {
        lemma_small_mod(x as nat, m as nat);
    } else if x < 2 * m {
        vstd::arithmetic::div_mod::lemma_mod_add_multiples_vanish(x - m, m);
        lemma_small_mod((x - m) as nat, m as nat);
    }
}

/// Cutting to `fine` bits first does not change the `coarse` low-order bits.
pub proof fn lemma_low_bits_nested(x: int, coarse: nat, fine: nat)
    requires
        0 <= x,
        coarse <= fine,
    ensures
        low_bits(low_bits(x, fine), coarse) == low_bits(x, coarse),
{
    reveal(low_bits);
    lemma_pow2_pos(coarse);
    lemma_pow2_pos((fine - coarse) as nat);
    lemma_pow2_adds(coarse, (fine - coarse) as nat);
    lemma_mod_mod(x, pow2(coarse) as int, pow2((fine - coarse) as nat) as int);
}

/// Numbers that agree on `fine` low-order bits agree on fewer.
pub proof fn lemma_low_bits_coarser(x: int, y: int, coarse: nat, fine: nat)
    requires
        0 <= x,
        0 <= y,
        coarse <= fine,
        low_bits(x, fine) == low_bits(y, fine),
    ensures
        low_bits(x, coarse) == low_bits(y, coarse),
{
    lemma_low_bits_nested(x, coarse, fine);
    lemma_low_bits_nested(y, coarse, fine);
}

/// One more bit either leaves the number alone or adds `2^depth`.
pub proof fn lemma_low_bits_next(x: int, depth: nat)
    requires
        0 <= x,
    ensures
        pow2(depth + 1) == 2 * pow2(depth),
        low_bits(x, depth + 1) == low_bits(x, depth) + (if bit_is_set(x, depth) {
            pow2(depth) as int
        } else {
            0
        }),
{
    lemma_pow2_unfold(depth + 1);
    lemma_pow2_pos(depth);
    lemma_low_bits_bound(x, depth);
    lemma_low_bits_bound(x, depth + 1);
    lemma_low_bits_nested(x, depth, depth + 1);
    lemma_low_bits_bound(low_bits(x, depth + 1), depth);
}

/// Two numbers closer than `2^depth` with the same low-order bits are equal.
pub proof fn lemma_low_bits_close(x: int, y: int, depth: nat)
    requires
        0 <= x <= y < x + pow2(depth),
        low_bits(x, depth) == low_bits(y, depth),
    ensures
        x == y,
{
    reveal(low_bits);
    lemma_pow2_pos(depth);
    let m = pow2(depth) as int;
    lemma_fundamental_div_mod(x, m);
    lemma_fundamental_div_mod(y, m);
    let a = x / m;
    let b = y / m;
    assert(y - x == m * (b - a)) by (nonlinear_arith)
        requires
            x == m * a + x % m,
            y == m * b + y % m,
            x % m == y % m,
    ;
    assert(b == a) by (nonlinear_arith)
        requires
            0 <= y - x < m,
            y - x == m * (b - a),
    ;
}

/// Adding `2^depth` keeps the low-order bits.
pub proof fn lemma_low_bits_step(x: int, depth: nat)
    requires
        0 <= x,
    ensures
        low_bits(x + pow2(depth), depth) == low_bits(x, depth),
{
    reveal(low_bits);
    lemma_pow2_pos(depth);
    vstd::arithmetic::div_mod::lemma_mod_add_multiples_vanish(x, pow2(depth) as int);
}

/// Powers of two are positive, and at most `2^32` for exponents up to 32.
pub proof fn lemma_pow2_range(depth: nat)
    requires
        depth <= 32,
    ensures
        0 < pow2(depth) <= 0x1_0000_0000,
        depth < 32 ==> pow2(depth) <= 0x8000_0000,
        pow2(0) == 1,
        pow2(32) == 0x1_0000_0000,
{
    lemma2_to64();
    lemma_pow2_pos(depth);
    if depth < 32 {
        lemma_pow2_strictly_increases(depth, 32);
        if depth < 31 {
            lemma_pow2_strictly_increases(depth, 31);
        }
    }
}

/// `2^depth` for the depths a directory can have.
pub fn exp2(depth: u8) -> (power: u64)
    requires
        depth <= 32,
    ensures
        power == pow2(depth as nat),
        0 < power <= 0x1_0000_0000,
{
    proof {
        lemma_pow2_range(depth as nat);
        lemma_u64_shl_is_mul(1, depth as u64);
    }
    1u64 << depth
}

/// The `depth` low-order bits of a hash.
pub fn mask_low_bits(x: u64, depth: u8) -> (low: u64)
    requires
        depth <= 32,
    ensures
        low == low_bits(x as int, depth as nat),
        low < pow2(depth as nat),
{
    let power: u64 = exp2(depth);
    proof {
        lemma_mask_is_low_bits(x, depth as nat);
        lemma_low_bits_bound(x as int, depth as nat);
    }
    x & (power - 1) as u64
}

/// Masking with one less than a power of two gives the remainder modulo that power.
pub proof fn lemma_mask_is_low_bits(x: u64, depth: nat)
    requires
        depth <= 32,
    ensures
        x & ((pow2(depth) - 1) as u64) == low_bits(x as int, depth),
{
    reveal(low_bits);
    lemma_pow2_range(depth);
    assert(low_bits_mask(depth) == pow2(depth) - 1);
    lemma_u64_low_bits_mask_is_mod(x, depth);
}

/// Tests one bit of a stored hash.
pub fn test_bit(x: u32, position: u8) -> (set: bool)
    requires
        position < 32,
    ensures
        set == bit_is_set(x as int, position as nat),
{
    proof {
        let d = position as nat;
        let p = position as u32;
        let q: u32 = x >> p;
        lemma_u32_shr_is_div(x, p);
        assert((x & (1u32 << p) != 0) <==> (x >> p) % 2 == 1) by (bit_vector)
            requires
                p < 32,
        ;
        lemma_pow2_pos(d);
        lemma_pow2_unfold(d + 1);
        lemma_mod_breakdown(x as int, pow2(d) as int, 2);
        assert(pow2(d) * (q as int % 2) == if q as int % 2 == 1 {
            pow2(d) as int
        } else {
            0
        }) by (nonlinear_arith)
            requires
                q >= 0,
        ;
        reveal(low_bits);
    }
    x & (1u32 << position) != 0
}

} // verus!
