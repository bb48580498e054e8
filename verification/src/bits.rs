//! Bitwise companions of the logic toolkit: addition and multiplication by
//! carry propagation, the Gray code that orders the truth grid, and the
//! bit-interleaving behind the Z-order curve.

use vstd::prelude::*;
use vstd::arithmetic::power2::pow2;
use vstd::arithmetic::power2::lemma_pow2_pos;
use vstd::arithmetic::power2::lemma_pow2_unfold;
use vstd::arithmetic::power2::lemma_pow2_adds;
use vstd::arithmetic::power2::lemma2_to64;
use vstd::arithmetic::div_mod::lemma_add_mod_noop;
use vstd::arithmetic::div_mod::lemma_mul_mod_noop_left;
use vstd::arithmetic::div_mod::lemma_fundamental_div_mod;
use vstd::arithmetic::div_mod::lemma_mod_breakdown;
use vstd::arithmetic::div_mod::lemma_mod_multiples_basic;
use vstd::arithmetic::div_mod::lemma_mod_self_0;
use vstd::arithmetic::div_mod::lemma_small_mod;
use vstd::bits::low_bits_mask;
use vstd::bits::lemma_u32_low_bits_mask_is_mod;
use vstd::bits::lemma_u32_pow2_no_overflow;
use vstd::bits::lemma_u32_shr_is_div;
use vstd::bits::lemma_u64_shr_is_div;

use crate::eval::pow2_u64;

verus! {

/// The modulus of 32-bit arithmetic.
pub open spec fn mod32() -> int {
    0x1_0000_0000
}

/// Adds two words with exclusive-or and carry propagation alone, wrapping
/// on overflow exactly as machine addition does.
pub fn adder(a: u32, b: u32) -> (r: u32)
    ensures
        r as int == (a + b) % mod32(),
{
    let mut x = a;
    let mut y = b;
    let ghost mut k: nat = 0;
    proof {
        lemma2_to64();
    }
    while y != 0
        invariant
            (x as int + y as int) % mod32() == (a as int + b as int) % mod32(),
            k <= 32,
            k < 32 ==> (y as int) % (pow2(k) as int) == 0,
            k == 32 ==> y == 0,
        decreases 32 - k,
    {
        proof {
            lemma_carry_step_facts(x, y, k as u32);
        }
        let s = x ^ y;
        let c = x & y;
        let carry = c << 1u32;
        proof {
            lemma_pow2_pos(k);
            assert((s as int + carry as int) % mod32() == (x as int + y as int) % mod32()) by {
                assert((carry as int) % mod32() == (2 * (c as int)) % mod32()) by {
                    vstd::arithmetic::div_mod::lemma_mod_twice(2 * (c as int), mod32());
                }
                lemma_add_mod_noop(s as int, carry as int, mod32());
                lemma_add_mod_noop(s as int, 2 * (c as int), mod32());
            }
            k = k + 1;
        }
        x = s;
        y = carry;
    }
    proof {
        lemma_small_mod(x as nat, mod32() as nat);
    }
    x
}

/// The carry facts one step of [`adder`] relies on: the sum splits exactly
/// into exclusive-or plus twice the carry, the shifted carry wraps, and the
/// carry gains one more low zero bit each round.
proof fn lemma_carry_step_facts(x: u32, y: u32, k: u32)
    requires
        k <= 32,
        k < 32 ==> (y as int) % (pow2(k as nat) as int) == 0,
        k == 32 ==> y == 0,
        y != 0,
    ensures
        k < 32,
        (x as int) + (y as int) == ((x ^ y) as int) + 2 * ((x & y) as int),
        ((x & y) << 1u32) as int == (2 * ((x & y) as int)) % mod32(),
        k + 1 < 32 ==> (((x & y) << 1u32) as int) % (pow2((k + 1) as nat) as int) == 0,
        k + 1 == 32 ==> ((x & y) << 1u32) == 0,
{
    assert((x as int) + (y as int) == ((x ^ y) as int) + 2 * ((x & y) as int)) by (bit_vector);
    let c = x & y;
    assert(((x & y) << 1u32) as int == (2 * ((x & y) as int)) % 0x1_0000_0000) by (bit_vector);
    assert(k < 32);
    let m = low_bits_mask(k as nat) as u32;
    lemma_u32_pow2_no_overflow(k as nat);
    lemma_pow2_pos(k as nat);
    lemma_u32_low_bits_mask_is_mod(y, k as nat);
    assert(y & m == 0);
    assert(c & m == 0) by (bit_vector)
        requires
            y & m == 0,
            c == x & y,
    ;
    lemma_u32_low_bits_mask_is_mod(c, k as nat);
    assert((c as int) % (pow2(k as nat) as int) == 0);
    if k + 1 < 32 {
        let p1 = pow2((k + 1) as nat) as int;
        lemma_pow2_pos((k + 1) as nat);
        lemma_u32_pow2_no_overflow((k + 1) as nat);
        lemma_pow2_unfold((k + 1) as nat);
        let q = (c as int) / (pow2(k as nat) as int);
        lemma_fundamental_div_mod(c as int, pow2(k as nat) as int);
        assert(c as int == q * (pow2(k as nat) as int));
        assert(2 * (c as int) == q * p1) by (nonlinear_arith)
            requires
                c as int == q * (pow2(k as nat) as int),
                p1 == 2 * (pow2(k as nat) as int),
        ;
        // the wrapped carry is still a multiple of the next power of two
        lemma_pow2_adds((k + 1) as nat, (31 - k) as nat);
        let rest = pow2((31 - k) as nat) as int;
        lemma_pow2_pos((31 - k) as nat);
        lemma2_to64();
        assert(mod32() == p1 * rest);
        lemma_mod_breakdown(2 * (c as int), p1, rest);
        lemma_mod_multiples_basic(q, p1);
        assert((2 * (c as int)) % mod32() == p1 * (((2 * (c as int)) / p1) % rest));
        lemma_mod_multiples_basic(((2 * (c as int)) / p1) % rest, p1);
    } else {
        assert(k == 31);
        let p31 = pow2(31) as int;
        lemma2_to64();
        lemma_fundamental_div_mod(c as int, p31);
        let q = (c as int) / p31;
        assert(c as int == q * p31);
        assert(0 <= q && q <= 1) by (nonlinear_arith)
            requires
                c as int == q * p31,
                0 <= c as int,
                (c as int) < 2 * p31,
                p31 > 0,
        ;
        if q == 0 {
            lemma_small_mod(0, mod32() as nat);
        } else {
            assert(2 * (c as int) == mod32());
            lemma_mod_self_0(mod32());
        }
    }
}

/// Multiplies two words by shift-and-add over [`adder`], wrapping on
/// overflow exactly as machine multiplication does.
pub fn multiplier(a: u32, b: u32) -> (r: u32)
    ensures
        r as int == (a as int * b as int) % mod32(),
{
    let mut new_a = a;
    let mut new_b = b;
    let mut res: u32 = 0;
    proof {
        lemma_small_mod(0, mod32() as nat);
    }
    while new_b != 0
        invariant
            (res as int + (new_a as int) * (new_b as int)) % mod32() == (a as int * b as int)
                % mod32(),
        decreases new_b,
    {
        let ghost old_res = res as int;
        let prev_a = new_a;
        let prev_b = new_b;
        let ghost old_a = new_a as int;
        let ghost old_b = new_b as int;
        let odd = new_b & 1;
        proof {
            lemma_mul_step_facts(new_a, new_b);
        }
        if odd != 0 {
            res = adder(res, new_a);
        }
        new_a = new_a << 1u32;
        new_b = new_b >> 1u32;
        proof {
            assert(new_a as int == (2 * (prev_a as int)) % 0x1_0000_0000) by (bit_vector)
                requires
                    new_a == prev_a << 1u32,
            ;
            assert(new_a as int == (2 * old_a) % mod32());
            lemma_u32_shr_is_div(prev_b, 1);
            lemma2_to64();
            assert(new_b as int == old_b / 2);
            // fold the doubled multiplicand and the added term back under the modulus
            lemma_mul_mod_noop_left(2 * old_a, old_b / 2, mod32());
            assert((res as int + (new_a as int) * (new_b as int)) % mod32() == (old_res + old_a
                * old_b) % mod32()) by {
                if odd != 0 {
                    assert(res as int == (old_res + old_a) % mod32());
                    lemma_add_mod_noop(old_res + old_a, (2 * old_a) * (old_b / 2), mod32());
                    lemma_add_mod_noop(
                        (old_res + old_a) % mod32(),
                        ((2 * old_a) % mod32()) * (old_b / 2),
                        mod32(),
                    );
                    vstd::arithmetic::div_mod::lemma_mod_twice(old_res + old_a, mod32());
                    vstd::arithmetic::div_mod::lemma_mod_twice(
                        ((2 * old_a) % mod32()) * (old_b / 2),
                        mod32(),
                    );
                    assert(old_res + old_a + (2 * old_a) * (old_b / 2) == old_res + old_a * old_b);
                } else {
                    lemma_add_mod_noop(old_res, (2 * old_a) * (old_b / 2), mod32());
                    lemma_add_mod_noop(old_res, ((2 * old_a) % mod32()) * (old_b / 2), mod32());
                    vstd::arithmetic::div_mod::lemma_mod_twice(
                        ((2 * old_a) % mod32()) * (old_b / 2),
                        mod32(),
                    );
                    assert(old_res + (2 * old_a) * (old_b / 2) == old_res + old_a * old_b);
                }
            }
        }
    }
    res
}

/// The split one step of [`multiplier`] relies on: the low bit decides
/// whether the multiplicand is added, and the rest doubles and halves.
proof fn lemma_mul_step_facts(a: u32, b: u32)
    ensures
        b & 1 == b % 2,
        (a as int) * (b as int) == ((b as int) % 2) * (a as int) + (2 * (a as int)) * ((b as int)
            / 2),
        b & 1 == 0 ==> (a as int) * (b as int) == (2 * (a as int)) * ((b as int) / 2),
        b & 1 != 0 ==> (a as int) * (b as int) == (a as int) + (2 * (a as int)) * ((b as int) / 2),
{
    assert(b & 1 == b % 2) by (bit_vector);
    assert((a as int) * (b as int) == ((b as int) % 2) * (a as int) + (2 * (a as int)) * ((
    b as int) / 2)) by (nonlinear_arith);
}

/// The Gray code of a word: the word combined with its own right shift, so
/// that consecutive inputs differ in exactly one output bit.
pub fn gray_code(n: u32) -> (r: u32)
    ensures
        r == n ^ (n >> 1u32),
{
    n ^ (n >> 1u32)
}

/// The bit of `v` in position `j`.
pub open spec fn bit_at(v: nat, j: nat) -> nat {
    (v / pow2(j)) % 2
}

/// The interleaving of the low bits of `x` and `y` from position `j`
/// upward: bit `j` of `y` lands in position `2 j`, bit `j` of `x` beside it.
pub open spec fn interleaved_from(x: nat, y: nat, j: nat) -> nat
    decreases 16 - j,
{
    if j >= 16 {
        0
    } else {
        bit_at(y, j) * pow2(2 * j) + bit_at(x, j) * pow2(2 * j + 1) + interleaved_from(x, y, j + 1)
    }
}

/// The Z-order interleaving of two sixteen-bit coordinates.
pub fn calculate_interleaved(x: u16, y: u16) -> (r: u64)
    ensures
        r as nat == interleaved_from(x as nat, y as nat, 0),
{
    let new_x: u64 = x as u64;
    let new_y: u64 = y as u64;
    let mut res: u64 = 0;
    let mut i: usize = 0;
    proof {
        lemma2_to64();
    }
    while i < 16
        invariant
            i <= 16,
            new_x == x as u64,
            new_y == y as u64,
            res as nat + interleaved_from(x as nat, y as nat, i as nat) == interleaved_from(
                x as nat,
                y as nat,
                0,
            ),
            res < pow2(2 * i as nat),
        decreases 16 - i,
    {
        let x_i = (new_x >> (i as u64)) & 1;
        let y_i = (new_y >> (i as u64)) & 1;
        let p = pow2_u64(2 * i);
        proof {
            lemma_u64_shr_is_div(new_x, i as u64);
            lemma_u64_shr_is_div(new_y, i as u64);
            assert((new_x >> (i as u64)) & 1 == (new_x >> (i as u64)) % 2) by (bit_vector);
            assert((new_y >> (i as u64)) & 1 == (new_y >> (i as u64)) % 2) by (bit_vector);
            assert(x_i as nat == bit_at(x as nat, i as nat));
            assert(y_i as nat == bit_at(y as nat, i as nat));
            lemma_pow2_adds(2 * i as nat, 1);
            lemma_pow2_adds(2 * i as nat, 2);
            lemma2_to64();
            assert(pow2(2 * i as nat + 1) == 2 * pow2(2 * i as nat));
            assert(pow2(2 * (i + 1) as nat) == 4 * pow2(2 * i as nat));
            vstd::arithmetic::power2::lemma_pow2_strictly_increases(2 * i as nat, 31);
            assert(x_i <= 1 && y_i <= 1);
            assert(y_i * p <= p) by (nonlinear_arith)
                requires
                    y_i <= 1,
                    0 <= p,
            ;
            assert(x_i * (2 * p) <= 2 * p) by (nonlinear_arith)
                requires
                    x_i <= 1,
                    0 <= p,
            ;
        }
        res = res + y_i * p + x_i * (2 * p);
        i = i + 1;
    }
    res
}

} // verus!
