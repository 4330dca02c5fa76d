//! INTERCAL's arithmetic primitives: mingle, select and the unary
//! reductions AND, OR and XOR, on 16- and 32-bit words.

use vstd::prelude::*;

verus! {

/// Interleaving of `v` (odd bit positions) and `w` (even bit positions),
/// built up two bits at a time from the low end.
pub open spec fn mingle_spec(v: nat, w: nat) -> nat
    decreases v + w,
{
    if v == 0 && w == 0 {
        0
    } else {
        (w % 2) + 2 * (v % 2) + 4 * mingle_spec(v / 2, w / 2)
    }
}

/// The bits of `v` at the positions where `w` has a one, packed together
/// from the low end.
pub open spec fn select_spec(v: nat, w: nat) -> nat
    decreases w,
{
    if w == 0 {
        0
    } else if w % 2 == 1 {
        (v % 2) + 2 * select_spec(v / 2, w / 2)
    } else {
        select_spec(v / 2, w / 2)
    }
}

/// Rotation right by one of a 16-bit word.
pub open spec fn rotr16(v: u16) -> u16 {
    ((v >> 1u16) | ((v & 1u16) << 15u16)) as u16
}

/// Rotation right by one of a 32-bit word.
pub open spec fn rotr32(v: u32) -> u32 {
    ((v >> 1u32) | ((v & 1u32) << 31u32)) as u32
}

pub open spec fn and16_spec(v: u16) -> u16 {
    rotr16(v) & v
}

pub open spec fn or16_spec(v: u16) -> u16 {
    rotr16(v) | v
}

pub open spec fn xor16_spec(v: u16) -> u16 {
    rotr16(v) ^ v
}

pub open spec fn and32_spec(v: u32) -> u32 {
    rotr32(v) & v
}

pub open spec fn or32_spec(v: u32) -> u32 {
    rotr32(v) | v
}

pub open spec fn xor32_spec(v: u32) -> u32 {
    rotr32(v) ^ v
}

/// The mingle unfolding holds also when both operands are zero.
proof fn lemma_mingle_unfold(v: nat, w: nat)
    ensures
        mingle_spec(v, w) == (w % 2) + 2 * (v % 2) + 4 * mingle_spec(v / 2, w / 2),
{
    if v == 0 && w == 0 {
        assert(mingle_spec(0, 0) == 0);
    }
}

proof fn lemma_mingle_bound(v: nat, w: nat, k: nat)
    requires
        v < pow2(k),
        w < pow2(k),
    ensures
        mingle_spec(v, w) < pow2(k) * pow2(k),
    decreases k,
{
    if k == 0 {
        assert(v == 0 && w == 0);
    } else {
        let k1 = (k - 1) as nat;
        assert(pow2(k) == 2 * pow2(k1));
        lemma_mingle_bound(v / 2, w / 2, k1);
        lemma_mingle_unfold(v, w);
        let m = mingle_spec(v / 2, w / 2);
        let p = pow2(k1);
        assert(v / 2 < p && w / 2 < p);
        assert(m + 1 <= p * p);
        assert((w % 2) + 2 * (v % 2) + 4 * m < 4 * (p * p)) by (nonlinear_arith)
            requires
                m + 1 <= p * p,
                w % 2 <= 1,
                v % 2 <= 1,
        ;
        assert((2 * p) * (2 * p) == 4 * (p * p)) by (nonlinear_arith);
    }
}

pub open spec fn pow2(k: nat) -> nat
    decreases k,
{
    if k == 0 {
        1
    } else {
        2 * pow2((k - 1) as nat)
    }
}

proof fn lemma_mingle_zero(v: nat, w: nat)
    ensures
        mingle_spec(v, w) == 0 ==> v == 0 && w == 0,
    decreases v + w,
{
    if v != 0 || w != 0 {
        lemma_mingle_zero(v / 2, w / 2);
    }
}

proof fn lemma_select_le(v: nat, w: nat)
    ensures
        select_spec(v, w) <= w,
    decreases w,
{
    if w != 0 {
        lemma_select_le(v / 2, w / 2);
    }
}

proof fn lemma_select_zero(w: nat)
    ensures
        select_spec(0, w) == 0,
    decreases w,
{
    if w != 0 {
        lemma_select_zero(w / 2);
    }
}

/// The mask with a one at every odd bit position below `2 * k`.
pub open spec fn odd_mask(k: nat) -> nat
    decreases k,
{
    if k == 0 {
        0
    } else {
        2 + 4 * odd_mask((k - 1) as nat)
    }
}

/// The mask with a one at every even bit position below `2 * k`.
pub open spec fn even_mask(k: nat) -> nat
    decreases k,
{
    if k == 0 {
        0
    } else {
        1 + 4 * even_mask((k - 1) as nat)
    }
}

proof fn lemma_half(a: nat, b: nat)
    requires
        a < 2,
    ensures
        (a + 2 * b) % 2 == a,
        (a + 2 * b) / 2 == b,
{
}

proof fn lemma_select_mingle(v: nat, w: nat, k: nat)
    requires
        v < pow2(k),
        w < pow2(k),
    ensures
        select_spec(mingle_spec(v, w), odd_mask(k)) == v,
        select_spec(mingle_spec(v, w), even_mask(k)) == w,
    decreases k,
{
    if k == 0 {
        assert(v == 0 && w == 0);
    } else {
        let k1 = (k - 1) as nat;
        assert(pow2(k) == 2 * pow2(k1));
        lemma_select_mingle(v / 2, w / 2, k1);
        lemma_mingle_unfold(v, w);
        let m = mingle_spec(v, w);
        let m1 = mingle_spec(v / 2, w / 2);
        let h = (v % 2) + 2 * m1;
        let a = odd_mask(k1);
        let e = even_mask(k1);
        assert(m == (w % 2) + 2 * h);
        lemma_half(w % 2, h);
        lemma_half(v % 2, m1);
        lemma_half(0, 1 + 2 * a);
        lemma_half(1, a);
        lemma_half(1, 2 * e);
        lemma_half(0, e);
        assert(2 + 4 * a == 0 + 2 * (1 + 2 * a));
        assert(1 + 4 * e == 1 + 2 * (2 * e));
        assert(select_spec(m, odd_mask(k)) == select_spec(h, 1 + 2 * a));
        assert(select_spec(h, 1 + 2 * a) == (v % 2) + 2 * select_spec(m1, a));
        assert(v == (v % 2) + 2 * (v / 2));
        assert(select_spec(m, even_mask(k)) == (w % 2) + 2 * select_spec(h, 2 * e));
        if e == 0 {
            assert(select_spec(m1, 0) == 0);
        } else {
            assert(select_spec(h, 2 * e) == select_spec(m1, e));
        }
        assert(w == (w % 2) + 2 * (w / 2));
    }
}

/// A mingle of two 16-bit values fits in 32 bits.
pub proof fn lemma_mingle_u32(v: u32, w: u32)
    requires
        v <= 0xFFFF,
        w <= 0xFFFF,
    ensures
        mingle_spec(v as nat, w as nat) < 0x1_0000_0000,
        (mingle_spec(v as nat, w as nat) as u32) as nat == mingle_spec(v as nat, w as nat),
{
    reveal_with_fuel(pow2, 17);
    lemma_mingle_bound(v as nat, w as nat, 16);
    assert(pow2(16) == 0x10000);
}

/// Selecting the odd bits of a mingle gives back its first operand, and
/// selecting the even bits gives back its second.
pub proof fn lemma_select_inverts_mingle(v: u32, w: u32)
    requires
        v <= 0xFFFF,
        w <= 0xFFFF,
    ensures
        select_spec(mingle_spec(v as nat, w as nat), 0xAAAAAAAA) == v,
        select_spec(mingle_spec(v as nat, w as nat), 0x55555555) == w,
{
    reveal_with_fuel(pow2, 17);
    reveal_with_fuel(odd_mask, 17);
    reveal_with_fuel(even_mask, 17);
    assert(pow2(16) == 0x10000);
    assert(odd_mask(16) == 0xAAAAAAAA);
    assert(even_mask(16) == 0x55555555);
    lemma_select_mingle(v as nat, w as nat, 16);
}

/// Mingles two 16-bit values into a 32-bit one.
pub fn mingle(v: u32, w: u32) -> (r: u32)
    requires
        v <= 0xFFFF,
        w <= 0xFFFF,
    ensures
        r as nat == mingle_spec(v as nat, w as nat),
{
    proof {
        reveal_with_fuel(pow2, 17);
        lemma_mingle_bound(v as nat, w as nat, 16);
        assert(pow2(16) == 0x10000);
    }
    let mut x: u64 = v as u64;
    let mut y: u64 = w as u64;
    let mut r: u64 = 0;
    let mut p: u64 = 1;
    while x != 0 || y != 0
        invariant
            r + p * mingle_spec(x as nat, y as nat) == mingle_spec(v as nat, w as nat),
            mingle_spec(v as nat, w as nat) < 0x1_0000_0000,
            1 <= p <= 0x1_0000_0000,
        decreases x + y,
    {
        proof {
            lemma_mingle_unfold(x as nat, y as nat);
            let m1 = mingle_spec((x / 2) as nat, (y / 2) as nat);
            let d = (y % 2) + 2 * (x % 2);
            assert(r + p * (d + 4 * m1) == r + p * d + (4 * p) * m1) by (nonlinear_arith);
            assert(m1 >= 1 ==> 4 * p <= p * (d + 4 * m1)) by (nonlinear_arith)
                requires
                    p >= 1,
                    d >= 0,
            ;
            assert(p * d <= p * (d + 4 * m1)) by (nonlinear_arith)
                requires
                    p >= 1,
                    m1 >= 0,
            ;
            lemma_mingle_zero((x / 2) as nat, (y / 2) as nat);
        }
        r = r + p * ((y % 2) + 2 * (x % 2));
        if x / 2 != 0 || y / 2 != 0 {
            p = 4 * p;
        } else {
            proof {
                assert(mingle_spec(0, 0) == 0);
            }
        }
        x = x / 2;
        y = y / 2;
    }
    proof {
        assert(x == 0 && y == 0);
        assert(mingle_spec(x as nat, y as nat) == 0);
        let m = mingle_spec(x as nat, y as nat);
        assert(p * m == 0) by (nonlinear_arith)
            requires
                m == 0,
        ;
        assert(r == mingle_spec(v as nat, w as nat));
    }
    r as u32
}

/// Gathers the bits of `v` selected by the mask `w`.
pub fn select(v: u32, w: u32) -> (r: u32)
    ensures
        r as nat == select_spec(v as nat, w as nat),
{
    proof {
        lemma_select_le(v as nat, w as nat);
    }
    let mut x: u64 = v as u64;
    let mut y: u64 = w as u64;
    let mut r: u64 = 0;
    let mut p: u64 = 1;
    while y != 0
        invariant
            r + p * select_spec(x as nat, y as nat) == select_spec(v as nat, w as nat),
            select_spec(v as nat, w as nat) <= w,
            p * (y + 1) <= w + 1,
            1 <= p,
            w <= 0xFFFF_FFFF,
        decreases y,
    {
        let bit = x % 2;
        if y % 2 == 1 {
            proof {
                let s1 = select_spec((x / 2) as nat, (y / 2) as nat);
                assert(r + p * (bit + 2 * s1) == r + p * bit + (2 * p) * s1) by (nonlinear_arith);
                assert(p * bit <= p * (bit + 2 * s1)) by (nonlinear_arith)
                    requires
                        p >= 1,
                        s1 >= 0,
                ;
                assert(y + 1 == 2 * (y / 2 + 1));
                assert(p * (y + 1) == (2 * p) * (y / 2 + 1)) by (nonlinear_arith)
                    requires
                        y + 1 == 2 * (y / 2 + 1),
                ;
                assert(2 * p <= p * (y + 1)) by (nonlinear_arith)
                    requires
                        y >= 1,
                ;
            }
            r = r + p * bit;
            p = 2 * p;
        } else {
            proof {
                assert(p * (y / 2 + 1) <= p * (y + 1)) by (nonlinear_arith)
                    requires
                        p >= 1,
                        y / 2 <= y,
                ;
            }
        }
        x = x / 2;
        y = y / 2;
    }
    proof {
        assert(select_spec(x as nat, 0) == 0);
        assert(r == select_spec(v as nat, w as nat));
    }
    r as u32
}

/// Unary AND of a 16-bit word.
pub fn and_16(v: u16) -> (r: u16)
    ensures
        r == and16_spec(v),
{
    (((v >> 1u16) | ((v & 1u16) << 15u16)) as u16) & v
}

/// Unary OR of a 16-bit word.
pub fn or_16(v: u16) -> (r: u16)
    ensures
        r == or16_spec(v),
{
    (((v >> 1u16) | ((v & 1u16) << 15u16)) as u16) | v
}

/// Unary XOR of a 16-bit word.
pub fn xor_16(v: u16) -> (r: u16)
    ensures
        r == xor16_spec(v),
{
    (((v >> 1u16) | ((v & 1u16) << 15u16)) as u16) ^ v
}

/// Unary AND of a 32-bit word.
pub fn and_32(v: u32) -> (r: u32)
    ensures
        r == and32_spec(v),
{
    (((v >> 1u32) | ((v & 1u32) << 31u32)) as u32) & v
}

/// Unary OR of a 32-bit word.
pub fn or_32(v: u32) -> (r: u32)
    ensures
        r == or32_spec(v),
{
    (((v >> 1u32) | ((v & 1u32) << 31u32)) as u32) | v
}

/// Unary XOR of a 32-bit word.
pub fn xor_32(v: u32) -> (r: u32)
    ensures
        r == xor32_spec(v),
{
    (((v >> 1u32) | ((v & 1u32) << 31u32)) as u32) ^ v
}

} // verus!
