//! The canonical number as an IEEE 754 single-precision bit pattern and
//! back, by integer arithmetic alone.

use vstd::prelude::*;
use crate::canonical::x_ok;

verus! {

/// `2^k`.
pub open spec fn two_to(k: nat) -> nat
    decreases k,
{
    if k == 0 {
        1
    } else {
        2 * two_to((k - 1) as nat)
    }
}

/// Number of binary digits of `a`.
pub open spec fn bit_len(a: nat) -> nat
    decreases a,
{
    if a == 0 {
        0
    } else {
        1 + bit_len(a / 2)
    }
}

/// Single-precision bits of the canonical value `v` (that is, of
/// `v / 2^32`), rounded toward zero: sign, biased exponent, 23 stored
/// mantissa bits.
pub open spec fn f32_bits_of(v: int) -> int {
    let a = if v < 0 { -v } else { v };
    if a == 0 {
        0
    } else {
        let k = bit_len(a as nat);
        let m = if k >= 24 { a / two_to((k - 24) as nat) as int } else { a * two_to((24 - k) as nat) };
        let sign = if v < 0 { 0x80000000int } else { 0 };
        sign + (k + 94) * 0x800000 + (m - 0x800000)
    }
}

/// The biased exponent of single-precision bits.
pub open spec fn f32_exponent(b: int) -> int {
    (b / 0x800000) % 256
}

/// Single-precision bits whose value a curve can hold: zero, subnormal, or
/// normal with a magnitude below 2^20.
pub open spec fn f32_ok(b: int) -> bool {
    f32_exponent(b) <= 146
}

/// The canonical value of single-precision bits, rounded toward zero.
pub open spec fn f32_raw(b: int) -> int {
    let e = f32_exponent(b);
    if e == 0 {
        0
    } else {
        let m = b % 0x800000 + 0x800000;
        let mag = if e >= 118 { m * two_to((e - 118) as nat) } else { m / two_to((118 - e) as nat) as int };
        if b / 0x80000000 == 1 {
            -mag
        } else {
            mag
        }
    }
}

proof fn lemma_two_to_pos(k: nat)
    ensures
        two_to(k) >= 1,
    decreases k,
{
    if k > 0 {
        lemma_two_to_pos((k - 1) as nat);
    }
}

proof fn lemma_two_to_add(i: nat, j: nat)
    ensures
        two_to(i + j) == two_to(i) * two_to(j),
    decreases i,
{
    if i > 0 {
        let i1 = (i - 1) as nat;
        lemma_two_to_add(i1, j);
        assert((i + j - 1) as nat == i1 + j);
        assert(two_to(i + j) == 2 * two_to(i1 + j));
        assert(two_to(i) == 2 * two_to(i1));
        assert(two_to(i + j) == two_to(i) * two_to(j)) by (nonlinear_arith)
            requires
                two_to(i + j) == 2 * two_to(i1 + j),
                two_to(i1 + j) == two_to(i1) * two_to(j),
                two_to(i) == 2 * two_to(i1);
    } else {
        assert(two_to(i) == 1);
        assert(i + j == j);
        assert(two_to(i) * two_to(j) == two_to(j));
    }
}

proof fn lemma_two_to_mono(i: nat, j: nat)
    requires
        i <= j,
    ensures
        two_to(i) <= two_to(j),
{
    lemma_two_to_add(i, (j - i) as nat);
    lemma_two_to_pos((j - i) as nat);
    lemma_two_to_pos(i);
    assert(two_to(i) * 1 <= two_to(i) * two_to((j - i) as nat)) by (nonlinear_arith)
        requires two_to((j - i) as nat) >= 1, two_to(i) >= 1;
}

proof fn lemma_bit_len(a: nat)
    requires
        a > 0,
    ensures
        bit_len(a) >= 1,
        two_to((bit_len(a) - 1) as nat) <= a < two_to(bit_len(a)),
    decreases a,
{
    if a > 1 {
        let h = a / 2;
        lemma_bit_len(h);
        let l = bit_len(h);
        assert(bit_len(a) == 1 + l);
        assert(two_to(l) == 2 * two_to((l - 1) as nat));
        assert(two_to(l + 1) == 2 * two_to(l));
    } else {
        assert(bit_len(1) == 1) by {
            assert(bit_len(0) == 0);
        }
        assert(two_to(1) == 2) by {
            reveal_with_fuel(two_to, 2);
        }
    }
}

proof fn lemma_bit_len_bound(a: nat, j: nat)
    requires
        a < two_to(j),
    ensures
        bit_len(a) <= j,
    decreases a,
{
    if a > 0 {
        assert(j > 0) by {
            if j == 0 {
                assert(two_to(0) == 1);
            }
        }
        lemma_bit_len_bound(a / 2, (j - 1) as nat);
    }
}

proof fn lemma_two_to_62()
    ensures
        two_to(62) == 0x4000000000000000,
{
    reveal_with_fuel(two_to, 63);
}

/// `2^j` as a machine integer.
fn pow_of_two(j: u64) -> (r: u64)
    requires
        j <= 62,
    ensures
        r == two_to(j as nat),
{
    let mut r: u64 = 1;
    let mut i: u64 = 0;
    while i < j
        invariant
            i <= j <= 62,
            r == two_to(i as nat),
        decreases j - i,
    {
        proof {
            lemma_two_to_mono((i + 1) as nat, 62);
            lemma_two_to_62();
        }
        r = r * 2;
        i += 1;
    }
    r
}

/// The 24 significant bits of `a`, which has `k` binary digits.
fn mantissa(a: u64, k: u64) -> (m: u64)
    requires
        1 <= k <= 53,
        k == bit_len(a as nat),
        two_to((k - 1) as nat) <= a < two_to(k as nat),
    ensures
        m == (if k >= 24 { a as int / two_to((k - 24) as nat) as int } else { a * two_to((24 - k) as nat) }),
        0x800000 <= m < 0x1000000,
{
    proof {
        assert(two_to(23) == 0x800000) by {
            reveal_with_fuel(two_to, 24);
        }
        assert(two_to(24) == 0x1000000) by {
            reveal_with_fuel(two_to, 25);
        }
    }
    if k >= 24 {
        let p = pow_of_two(k - 24);
        proof {
            lemma_two_to_add(23, (k - 24) as nat);
            lemma_two_to_add(24, (k - 24) as nat);
            assert((23 + (k - 24)) as nat == (k - 1) as nat);
            assert(two_to((k - 1) as nat) == 0x800000 * p);
            assert(two_to(k as nat) == 0x1000000 * p);
            lemma_two_to_pos((k - 24) as nat);
            vstd::arithmetic::div_mod::lemma_div_is_ordered((0x800000 * p) as int, a as int, p as int);
            vstd::arithmetic::div_mod::lemma_div_multiples_vanish(0x800000, p as int);
            assert(p * 0x800000 == 0x800000 * p);
            vstd::arithmetic::div_mod::lemma_div_is_ordered(a as int, (0x1000000 * p - 1) as int, p as int);
            assert(0x1000000 * p - 1 == p * (0x1000000 - 1) + (p - 1)) by (nonlinear_arith);
            vstd::arithmetic::div_mod::lemma_fundamental_div_mod_converse(
                (0x1000000 * p - 1) as int, p as int, 0x1000000 - 1, (p - 1) as int);
        }
        a / p
    } else {
        let p = pow_of_two(24 - k);
        proof {
            lemma_two_to_add((k - 1) as nat, (24 - k) as nat);
            lemma_two_to_add(k as nat, (24 - k) as nat);
            lemma_two_to_pos((24 - k) as nat);
            assert(((k - 1) + (24 - k)) as nat == 23);
            assert((k + (24 - k)) as nat == 24);
            assert(0x800000 <= a * p < 0x1000000) by (nonlinear_arith)
                requires two_to((k - 1) as nat) <= a < two_to(k as nat),
                    two_to((k - 1) as nat) * p == 0x800000, two_to(k as nat) * p == 0x1000000, p >= 1;
        }
        a * p
    }
}

/// Single-precision bits of a canonical value, rounded toward zero.
pub fn f32_bits(v: i64) -> (r: u32)
    requires
        x_ok(v as int),
    ensures
        r == f32_bits_of(v as int),
{
    let neg = v < 0;
    let a: u64 = if neg { (-v) as u64 } else { v as u64 };
    if a == 0 {
        return 0;
    }
    proof {
        assert(two_to(53) == 0x20000000000000) by {
            reveal_with_fuel(two_to, 54);
        }
        lemma_bit_len_bound(a as nat, 53);
        lemma_bit_len(a as nat);
    }
    let mut t: u64 = a;
    let mut k: u64 = 0;
    while t > 0
        invariant
            bit_len(a as nat) == k + bit_len(t as nat),
            bit_len(a as nat) <= 53,
        decreases t,
    {
        t = t / 2;
        k += 1;
    }
    let m = mantissa(a, k);
    let sign: u32 = if neg { 0x80000000 } else { 0 };
    sign + ((k + 94) as u32) * 0x800000 + ((m - 0x800000) as u32)
}

/// The canonical value of single-precision bits, rounded toward zero.
pub fn f32_value(b: u32) -> (r: i64)
    requires
        f32_ok(b as int),
    ensures
        r == f32_raw(b as int),
        x_ok(r as int),
{
    let e: u32 = (b / 0x800000) % 256;
    if e == 0 {
        return 0;
    }
    let m: u64 = (b % 0x800000 + 0x800000) as u64;
    proof {
        assert(two_to(24) == 0x1000000) by {
            reveal_with_fuel(two_to, 25);
        }
        assert(two_to(28) == 0x10000000) by {
            reveal_with_fuel(two_to, 29);
        }
    }
    let mag: u64 = if e >= 118 {
        let p = pow_of_two((e - 118) as u64);
        proof {
            lemma_two_to_mono((e - 118) as nat, 28);
            assert(m * p <= 0xffffff * 0x10000000) by (nonlinear_arith)
                requires m <= 0xffffff, p <= 0x10000000;
        }
        m * p
    } else if 118 - e >= 24 {
        proof {
            lemma_two_to_mono(24, (118 - e) as nat);
            vstd::arithmetic::div_mod::lemma_basic_div(m as int, two_to((118 - e) as nat) as int);
        }
        0
    } else {
        let p = pow_of_two((118 - e) as u64);
        proof {
            lemma_two_to_pos((118 - e) as nat);
        }
        m / p
    };
    assert(mag <= 0xffffff * 0x10000000);
    if b / 0x80000000 == 1 {
        -(mag as i64)
    } else {
        mag as i64
    }
}

} // verus!
