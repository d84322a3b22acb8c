//! Numbers as the bits of doubles: their order and equality, their sign, and the way from
//! a run of decimal digits to the bits of the nearest double.

use vstd::prelude::*;
use vstd::arithmetic::div_mod::lemma_fundamental_div_mod_converse;
use vstd::arithmetic::power2::{
    lemma2_to64, lemma2_to64_rest, lemma_pow2_adds, lemma_pow2_pos, lemma_pow2_strictly_increases,
    lemma_pow2_unfold, pow2,
};
use crate::chars::is_digit;

verus! {

/// The number that a run of decimal digits writes.
pub open spec fn decimal_value(digits: Seq<char>) -> nat
    decreases digits.len(),
{
    if digits.len() == 0 {
        0
    } else {
        10 * decimal_value(digits.drop_last()) + (digits.last() as nat - '0' as nat) as nat
    }
}

/// The sign bit of a double: two to the power 63.
pub const SIGN: u64 = 0x8000_0000_0000_0000;

/// The bits of positive infinity: the largest exponent and no fraction.
pub const INFINITY: u64 = 0x7ff0_0000_0000_0000;

/// Whether the sign bit of the double is set.
pub open spec fn is_negative(bits: u64) -> bool {
    bits >= SIGN
}

/// The double without its sign bit.
pub open spec fn magnitude(bits: u64) -> u64 {
    if bits >= SIGN {
        (bits - SIGN) as u64
    } else {
        bits
    }
}

/// Whether the double is not a number: its exponent is the largest and its fraction is
/// not zero.
pub open spec fn is_nan(bits: u64) -> bool {
    magnitude(bits) > INFINITY
}

/// The place of a double that is a number among all of them, from the most negative
/// upwards. The two zeros share a place.
pub open spec fn rank(bits: u64) -> int {
    if is_negative(bits) {
        -(magnitude(bits) as int)
    } else {
        magnitude(bits) as int
    }
}

/// Whether two doubles are equal as numbers: neither is a NaN and they have the same
/// place.
pub open spec fn number_eq(a: u64, b: u64) -> bool {
    !is_nan(a) && !is_nan(b) && rank(a) == rank(b)
}

/// Whether the first double is less than the second: neither is a NaN and the first has
/// the lower place.
pub open spec fn number_lt(a: u64, b: u64) -> bool {
    !is_nan(a) && !is_nan(b) && rank(a) < rank(b)
}

/// Whether the first double is less than or equal to the second.
pub open spec fn number_le(a: u64, b: u64) -> bool {
    !is_nan(a) && !is_nan(b) && rank(a) <= rank(b)
}

/// The double with its sign changed.
pub open spec fn negated(bits: u64) -> u64 {
    if bits >= SIGN {
        (bits - SIGN) as u64
    } else {
        (bits + SIGN) as u64
    }
}

/// Changes the sign of a double.
pub fn negate(bits: u64) -> (r: u64)
    ensures
        r == negated(bits),
{
    if bits >= SIGN {
        bits - SIGN
    } else {
        bits + SIGN
    }
}

fn magnitude_of(bits: u64) -> (r: u64)
    ensures
        r == magnitude(bits),
{
    if bits >= SIGN {
        bits - SIGN
    } else {
        bits
    }
}

/// Whether neither of two doubles is a NaN.
fn ordered(a: u64, b: u64) -> (r: bool)
    ensures
        r == (!is_nan(a) && !is_nan(b)),
{
    magnitude_of(a) <= INFINITY && magnitude_of(b) <= INFINITY
}

/// Whether the first double has a lower place than the second.
fn below(a: u64, b: u64) -> (r: bool)
    ensures
        r == (rank(a) < rank(b)),
{
    if a >= SIGN {
        if b >= SIGN {
            magnitude_of(a) > magnitude_of(b)
        } else {
            magnitude_of(a) > 0 || magnitude_of(b) > 0
        }
    } else {
        if b >= SIGN {
            false
        } else {
            a < b
        }
    }
}

/// Whether two doubles are equal as numbers.
pub fn numbers_equal(a: u64, b: u64) -> (r: bool)
    ensures
        r == number_eq(a, b),
{
    ordered(a, b) && !below(a, b) && !below(b, a)
}

/// Whether the first double is less than the second.
pub fn number_less(a: u64, b: u64) -> (r: bool)
    ensures
        r == number_lt(a, b),
{
    ordered(a, b) && below(a, b)
}

/// Whether the first double is less than or equal to the second.
pub fn number_less_equal(a: u64, b: u64) -> (r: bool)
    ensures
        r == number_le(a, b),
{
    ordered(a, b) && !below(b, a)
}

/// The number of binary digits of a number: none for zero.
pub open spec fn bit_length(n: nat) -> nat
    decreases n,
{
    if n == 0 {
        0
    } else {
        1 + bit_length(n / 2)
    }
}

/// The bits of the double nearest to a whole number. Of two doubles equally near, it is
/// the one whose last bit is zero; a number too large for any double gives infinity.
///
/// A number of at most 53 binary digits is a double itself. A longer one keeps its first
/// 53 digits, and goes up by one in the last of them where the digits that are lost come to
/// more than half of that place, or to just half with the last kept digit odd. The exponent
/// stands above the 52 bits of the fraction; a carry out of the fraction raises it.
pub open spec fn nearest_binary64(n: nat) -> u64 {
    let len = bit_length(n);
    if len == 0 {
        0
    } else if len <= 53 {
        ((len + 1022) * pow2(52) + n * pow2((53 - len) as nat) - pow2(52)) as u64
    } else if len > 1024 {
        INFINITY
    } else {
        let shift = (len - 53) as nat;
        let kept = n / pow2(shift);
        let lost = n % pow2(shift);
        let half = pow2((shift - 1) as nat);
        let rounded = if lost > half || (lost == half && kept % 2 == 1) {
            kept + 1
        } else {
            kept
        };
        let bits = (len + 1022) * pow2(52) + rounded - pow2(52);
        if bits >= INFINITY {
            INFINITY
        } else {
            bits as u64
        }
    }
}

/// A number has `len` binary digits exactly when it lies between the powers of two.
pub proof fn lemma_bit_length(n: nat, len: nat)
    ensures
        bit_length(n) == len <==> (n < pow2(len) && (len > 0 ==> pow2((len - 1) as nat) <= n)),
    decreases len,
{
    lemma2_to64();
    if len == 0 {
    } else {
        lemma_pow2_unfold(len);
        if n > 0 {
            lemma_bit_length(n / 2, (len - 1) as nat);
            if len > 1 {
                lemma_pow2_unfold((len - 1) as nat);
            }
        }
    }
}

/// The number that limbs of 32 bits stand for, the lowest limb first.
spec fn limbs_value(limbs: Seq<u32>) -> nat
    decreases limbs.len(),
{
    if limbs.len() == 0 {
        0
    } else {
        limbs_value(limbs.drop_last()) + limbs.last() as nat * pow2((32 * (limbs.len() - 1)) as nat)
    }
}

/// Whether the limbs have no zero on top.
spec fn trimmed(limbs: Seq<u32>) -> bool {
    limbs.len() == 0 || limbs.last() != 0
}

/// The value of limbs is below the power of two of their width.
proof fn lemma_limbs_bound(limbs: Seq<u32>)
    ensures
        limbs_value(limbs) < pow2((32 * limbs.len()) as nat),
    decreases limbs.len(),
{
    lemma2_to64();
    if limbs.len() > 0 {
        let below = (32 * (limbs.len() - 1)) as nat;
        lemma_limbs_bound(limbs.drop_last());
        lemma_pow2_adds(32, below);
        lemma_pow2_pos(below);
        let w = pow2(below) as int;
        let top = limbs.last() as int;
        let low = limbs_value(limbs.drop_last()) as int;
        assert(low + top * w < 0x1_0000_0000 * w) by (nonlinear_arith)
            requires
                0 <= low < w,
                0 <= top < 0x1_0000_0000,
        ;
    }
}

/// Multiplies the number that the limbs stand for by ten and adds a digit.
fn times_ten_plus(limbs: &mut Vec<u32>, digit: u32)
    requires
        digit <= 9,
        trimmed(old(limbs)@),
    ensures
        trimmed(final(limbs)@),
        limbs_value(final(limbs)@) == 10 * limbs_value(old(limbs)@) + digit,
        old(limbs)@.len() <= final(limbs)@.len() <= old(limbs)@.len() + 1,
{
    let mut carry: u64 = digit as u64;
    let mut i: usize = 0;
    proof {
        lemma2_to64();
        assert(limbs_value(limbs@.take(0)) == 0);
        assert(limbs_value(old(limbs)@.take(0)) == 0);
        assert(carry * pow2(0) == digit);
    }
    while i < limbs.len()
        invariant
            i <= limbs@.len(),
            limbs@.len() == old(limbs)@.len(),
            carry <= 9,
            forall|j: int| i <= j < limbs@.len() ==> limbs@[j] == old(limbs)@[j],
            limbs_value(limbs@.take(i as int)) + carry * pow2((32 * i) as nat) == 10 * limbs_value(
                old(limbs)@.take(i as int),
            ) + digit,
            i > 0 && carry == 0 && old(limbs)@[i - 1] != 0 ==> limbs@[i - 1] != 0,
        decreases limbs@.len() - i,
    {
        let ghost before = limbs@;
        let limb = limbs[i];
        let total: u64 = limb as u64 * 10 + carry;
        let low: u32 = (total % 0x1_0000_0000) as u32;
        let high: u64 = total / 0x1_0000_0000;
        limbs.set(i, low);
        proof {
            lemma2_to64();
            let w = pow2((32 * i) as nat) as int;
            lemma_pow2_adds(32, (32 * i) as nat);
            assert(pow2((32 * (i + 1)) as nat) == 0x1_0000_0000 * w);
            assert(limbs@.take(i + 1).drop_last() =~= before.take(i as int));
            assert(old(limbs)@.take(i + 1).drop_last() =~= old(limbs)@.take(i as int));
            assert(limbs@.take(i as int) =~= before.take(i as int));
            let done = limbs_value(before.take(i as int)) as int;
            let source = limbs_value(old(limbs)@.take(i as int)) as int;
            assert(limbs_value(limbs@.take(i + 1)) == done + low * w);
            assert(limbs_value(old(limbs)@.take(i + 1)) == source + limb * w);
            assert(done + low * w + high * (0x1_0000_0000 * w) == 10 * (source + limb * w) + digit)
                by (nonlinear_arith)
                requires
                    done + carry * w == 10 * source + digit,
                    low + high * 0x1_0000_0000 == limb * 10 + carry,
            ;
        }
        carry = high;
        i = i + 1;
    }
    proof {
        assert(limbs@.take(i as int) =~= limbs@);
        assert(old(limbs)@.take(i as int) =~= old(limbs)@);
    }
    if carry != 0 {
        let ghost before = limbs@;
        limbs.push(carry as u32);
        proof {
            assert(limbs@.drop_last() =~= before);
        }
    }
}


/// The limbs from `from` on stand above the limbs below it.
proof fn lemma_limbs_split(limbs: Seq<u32>, from: int)
    requires
        0 <= from <= limbs.len(),
    ensures
        limbs_value(limbs) == limbs_value(limbs.take(from)) + limbs_value(limbs.skip(from)) * pow2(
            (32 * from) as nat,
        ),
    decreases limbs.len(),
{
    lemma2_to64();
    let w = pow2((32 * from) as nat) as int;
    let low = limbs_value(limbs.take(from)) as int;
    let above = limbs.skip(from);
    if from == limbs.len() {
        assert(limbs.take(from) =~= limbs);
        assert(above.len() == 0);
        assert(limbs_value(above) == 0);
        assert(limbs_value(above) * w == 0) by (nonlinear_arith)
            requires
                limbs_value(above) == 0,
        ;
    } else {
        let shorter = limbs.drop_last();
        lemma_limbs_split(shorter, from);
        assert(shorter.take(from) =~= limbs.take(from));
        assert(shorter.skip(from) =~= above.drop_last());
        let v = pow2((32 * (above.len() - 1)) as nat) as int;
        let whole = pow2((32 * (limbs.len() - 1)) as nat) as int;
        lemma_pow2_adds((32 * (above.len() - 1)) as nat, (32 * from) as nat);
        assert((32 * (above.len() - 1)) as nat + (32 * from) as nat == (32 * (limbs.len() - 1)) as nat);
        assert(whole == v * w);
        let top = limbs.last() as int;
        let a = limbs_value(above.drop_last()) as int;
        let upper = limbs_value(above) as int;
        let short = limbs_value(shorter) as int;
        let all = limbs_value(limbs) as int;
        assert(above.len() > 0 && above.last() == limbs.last());
        assert(upper == a + top * v);
        assert(short == low + a * w);
        assert(all == short + top * whole);
        assert(all == low + upper * w) by (nonlinear_arith)
            requires
                all == short + top * whole,
                short == low + a * w,
                upper == a + top * v,
                whole == v * w,
        ;
    }
}

/// Limbs that are all zero stand for zero, and no others do.
proof fn lemma_limbs_zero(limbs: Seq<u32>)
    ensures
        limbs_value(limbs) == 0 <==> forall|j: int| 0 <= j < limbs.len() ==> limbs[j] == 0,
    decreases limbs.len(),
{
    if limbs.len() > 0 {
        lemma_limbs_zero(limbs.drop_last());
        let w = pow2((32 * (limbs.len() - 1)) as nat) as int;
        lemma_pow2_pos((32 * (limbs.len() - 1)) as nat);
        let top = limbs.last() as int;
        assert(top * w == 0 <==> top == 0) by (nonlinear_arith)
            requires
                w > 0,
                top >= 0,
        ;
        assert(top * w >= 0) by (nonlinear_arith)
            requires
                w > 0,
                top >= 0,
        ;
        if limbs_value(limbs) == 0 {
            assert forall|j: int| 0 <= j < limbs.len() implies limbs[j] == 0 by {
                if j < limbs.len() - 1 {
                    assert(limbs.drop_last()[j] == 0);
                }
            }
        } else if forall|j: int| 0 <= j < limbs.len() ==> limbs[j] == 0 {
            assert forall|j: int| 0 <= j < limbs.drop_last().len() implies limbs.drop_last()[j]
                == 0 by {
                assert(limbs[j] == 0);
            }
        }
    }
}

/// The number of binary digits of trimmed limbs: those of the top limb above 32 for each
/// limb below it.
proof fn lemma_limbs_bit_length(limbs: Seq<u32>)
    requires
        limbs.len() > 0,
        limbs.last() != 0,
    ensures
        bit_length(limbs_value(limbs)) == 32 * (limbs.len() - 1) + bit_length(limbs.last() as nat),
{
    let below = (32 * (limbs.len() - 1)) as nat;
    let w = pow2(below) as int;
    let top = limbs.last() as int;
    let low = limbs_value(limbs.drop_last()) as int;
    let k = bit_length(top as nat);
    lemma_limbs_bound(limbs.drop_last());
    lemma_bit_length(top as nat, k);
    lemma_pow2_pos(below);
    lemma_pow2_adds(k, below);
    lemma_pow2_adds((k - 1) as nat, below);
    let hi = pow2(k) as int;
    let lo = pow2((k - 1) as nat) as int;
    assert(lo * w <= low + top * w < hi * w) by (nonlinear_arith)
        requires
            0 <= low < w,
            lo <= top < hi,
    ;
    lemma_bit_length(limbs_value(limbs), k + below);
}

/// The number of binary digits of a limb.
fn bits_of(limb: u32) -> (r: u32)
    ensures
        r == bit_length(limb as nat),
        r <= 32,
{
    let mut left: u32 = limb;
    let mut count: u32 = 0;
    proof {
        lemma2_to64();
        lemma_bit_length(limb as nat, bit_length(limb as nat));
        if bit_length(limb as nat) > 32 {
            lemma_pow2_strictly_increases(32, (bit_length(limb as nat) - 1) as nat);
        }
    }
    while left > 0
        invariant
            bit_length(limb as nat) == count + bit_length(left as nat),
            bit_length(limb as nat) <= 32,
        decreases left,
    {
        left = left / 2;
        count = count + 1;
    }
    count
}

/// Two to the power `e`.
fn power_of_two(e: u32) -> (r: u128)
    requires
        e <= 64,
    ensures
        r == pow2(e as nat),
{
    let mut r: u128 = 1;
    let mut i: u32 = 0;
    proof {
        lemma2_to64();
    }
    while i < e
        invariant
            i <= e <= 64,
            r == pow2(i as nat),
            r <= pow2(64),
        decreases e - i,
    {
        proof {
            lemma_pow2_unfold((i + 1) as nat);
            lemma2_to64_rest();
            if i + 1 < 64 {
                lemma_pow2_strictly_increases((i + 1) as nat, 64);
            }
        }
        r = r * 2;
        i = i + 1;
    }
    r
}

/// The number that the limbs from `from` on stand for. There are at most three of them.
fn upper_value(limbs: &Vec<u32>, from: usize) -> (r: u128)
    requires
        from <= limbs@.len() <= from + 3,
    ensures
        r == limbs_value(limbs@.skip(from as int)),
        r < pow2(96),
{
    let ghost above = limbs@.skip(from as int);
    proof {
        lemma2_to64();
        lemma2_to64_rest();
        lemma_limbs_bound(above);
        lemma_pow2_adds(32, 32);
        lemma_pow2_adds(64, 32);
        if above.len() < 3 {
            lemma_pow2_strictly_increases((32 * above.len()) as nat, 96);
        }
        let a = above.drop_last();
        let b = a.drop_last();
        if above.len() == 1 {
            assert(limbs_value(a) == 0);
            assert(limbs_value(above) == above[0] * pow2(0));
        } else if above.len() == 2 {
            assert(limbs_value(b) == 0);
            assert(limbs_value(a) == a[0] * pow2(0));
            assert(limbs_value(above) == limbs_value(a) + above[1] * pow2(32));
        } else if above.len() == 3 {
            assert(limbs_value(b.drop_last()) == 0);
            assert(limbs_value(b) == b[0] * pow2(0));
            assert(limbs_value(a) == limbs_value(b) + a[1] * pow2(32));
            assert(limbs_value(above) == limbs_value(a) + above[2] * pow2(64));
        }
    }
    let count = limbs.len() - from;
    let mut r: u128 = 0;
    if count >= 1 {
        r = r + limbs[from] as u128;
    }
    if count >= 2 {
        r = r + limbs[from + 1] as u128 * 0x1_0000_0000u128;
    }
    if count >= 3 {
        r = r + limbs[from + 2] as u128 * 0x1_0000_0000_0000_0000u128;
    }
    r
}

/// Whether one of the limbs below `to` is not zero.
fn any_below(limbs: &Vec<u32>, to: usize) -> (r: bool)
    requires
        to <= limbs@.len(),
    ensures
        r == (limbs_value(limbs@.take(to as int)) != 0),
{
    let mut i: usize = 0;
    while i < to
        invariant
            i <= to <= limbs@.len(),
            forall|j: int| 0 <= j < i ==> limbs@[j] == 0,
        decreases to - i,
    {
        if limbs[i] != 0 {
            proof {
                lemma_limbs_zero(limbs@.take(to as int));
                assert(limbs@.take(to as int)[i as int] != 0);
            }
            return true;
        }
        i = i + 1;
    }
    proof {
        lemma_limbs_zero(limbs@.take(to as int));
    }
    false
}

/// The bits of a number of at most 53 binary digits, which is a double itself.
fn exact_bits(value: u64, len: u32) -> (r: u64)
    requires
        1 <= len <= 53,
        bit_length(value as nat) == len,
    ensures
        r == nearest_binary64(value as nat),
{
    let ghost n = value as nat;
    let mut mantissa: u64 = value;
    let mut width: u32 = len;
    proof {
        lemma2_to64();
        lemma_bit_length(n, len as nat);
        assert(mantissa == n * pow2(0));
    }
    while width < 53
        invariant
            len <= width <= 53,
            mantissa == n * pow2((width - len) as nat),
            mantissa < pow2(width as nat),
        decreases 53 - width,
    {
        proof {
            lemma_pow2_unfold((width + 1 - len) as nat);
            lemma_pow2_unfold((width + 1) as nat);
            lemma_pow2_strictly_increases((width + 1) as nat, 64);
            lemma2_to64();
            let p = pow2((width - len) as nat) as int;
            assert(2 * (n * p) == n * (2 * p)) by (nonlinear_arith);
        }
        mantissa = mantissa * 2;
        width = width + 1;
    }
    proof {
        lemma2_to64_rest();
        lemma_pow2_pos((53 - len) as nat);
        let p = pow2((53 - len) as nat) as int;
        let lo = pow2((len - 1) as nat) as int;
        lemma_pow2_adds((len - 1) as nat, (53 - len) as nat);
        assert(n * p >= lo * p) by (nonlinear_arith)
            requires
                n >= lo,
                p > 0,
        ;
        assert(mantissa >= 0x10_0000_0000_0000);
        assert(mantissa < 0x20_0000_0000_0000);
    }
    (len as u64 + 1022) * 0x10_0000_0000_0000u64 + mantissa - 0x10_0000_0000_0000u64
}

/// What a number keeps and loses when the digits below `shift` are cut off, told from
/// its upper part alone: the number is `low` below `upper` times two to the power
/// `32 * below`, and `shift` is `width` above that power.
proof fn lemma_cut(n: nat, upper: nat, low: nat, below: nat, width: nat)
    requires
        width >= 1,
        low < pow2(32 * below),
        n == low + upper * pow2(32 * below),
    ensures
        n / pow2(width + 32 * below) == upper / pow2(width),
        n % pow2(width + 32 * below) > pow2((width + 32 * below - 1) as nat) <==> upper % pow2(width)
            > pow2((width - 1) as nat) || (upper % pow2(width) == pow2((width - 1) as nat) && low
            > 0),
        n % pow2(width + 32 * below) == pow2((width + 32 * below - 1) as nat) <==> upper % pow2(
            width,
        ) == pow2((width - 1) as nat) && low == 0,
{
    let w = pow2(32 * below) as int;
    let d = pow2(width) as int;
    let half = pow2((width - 1) as nat) as int;
    let u = upper as int;
    let kept = u / d;
    let part = u % d;
    lemma_pow2_pos(32 * below);
    lemma_pow2_pos(width);
    lemma_pow2_pos((width - 1) as nat);
    lemma_pow2_adds(width, 32 * below);
    lemma_pow2_adds((width - 1) as nat, 32 * below);
    assert((width - 1) as nat + 32 * below == (width + 32 * below - 1) as nat);
    assert(pow2(width + 32 * below) == d * w);
    assert(pow2((width + 32 * below - 1) as nat) == half * w);
    vstd::arithmetic::div_mod::lemma_fundamental_div_mod(u, d);
    vstd::arithmetic::div_mod::lemma_mod_bound(u, d);
    assert(u == kept * d + part) by (nonlinear_arith)
        requires
            u == d * kept + part,
    ;
    let lost = part * w + low;
    assert(n == kept * (d * w) + lost && 0 <= lost < d * w) by (nonlinear_arith)
        requires
            n == low + u * w,
            u == kept * d + part,
            0 <= part < d,
            0 <= low < w,
            lost == part * w + low,
    ;
    lemma_fundamental_div_mod_converse(n as int, d * w, kept, lost);
    assert(lost > half * w <==> part > half || (part == half && low > 0)) by (nonlinear_arith)
        requires
            0 <= low < w,
            part >= 0,
            half >= 0,
            lost == part * w + low,
    ;
    assert(lost == half * w <==> part == half && low == 0) by (nonlinear_arith)
        requires
            0 <= low < w,
            part >= 0,
            half >= 0,
            lost == part * w + low,
    ;
}

/// A number of `len` binary digits keeps 53 of them when the others are cut off.
proof fn lemma_kept(n: nat, len: nat)
    requires
        len > 53,
        bit_length(n) == len,
    ensures
        n / pow2((len - 53) as nat) < pow2(53),
{
    let shift = (len - 53) as nat;
    let d = pow2(shift) as int;
    lemma_bit_length(n, len);
    lemma_pow2_pos(shift);
    lemma_pow2_adds(53, shift);
    vstd::arithmetic::div_mod::lemma_fundamental_div_mod(n as int, d);
    vstd::arithmetic::div_mod::lemma_mod_bound(n as int, d);
    let q = n as int / d;
    let high = pow2(53) as int;
    assert(q < high) by (nonlinear_arith)
        requires
            n == d * q + (n as int % d),
            0 <= n as int % d,
            n < high * d,
            d > 0,
    ;
}

/// The bits of a number of more than 53 binary digits, from the 53 that it keeps and
/// from whether it goes up in the last of them.
fn rounded_bits(kept: u64, up: bool, len: u32) -> (r: u64)
    requires
        53 < len <= 1024,
        kept < 0x20_0000_0000_0000,
    ensures
        r == ({
            let rounded = if up {
                kept + 1
            } else {
                kept as int
            };
            let bits = (len + 1022) * pow2(52) + rounded - pow2(52);
            if bits >= INFINITY {
                INFINITY
            } else {
                bits as u64
            }
        }),
{
    proof {
        lemma2_to64_rest();
    }
    let rounded: u64 = if up {
        kept + 1
    } else {
        kept
    };
    let bits: u64 = (len as u64 + 1022) * 0x10_0000_0000_0000u64 + rounded - 0x10_0000_0000_0000u64;
    if bits >= INFINITY {
        INFINITY
    } else {
        bits
    }
}

/// The bits of the double nearest to the number that the limbs stand for.
fn limbs_to_bits(limbs: &Vec<u32>) -> (r: u64)
    requires
        trimmed(limbs@),
        limbs@.len() <= 33,
    ensures
        r == nearest_binary64(limbs_value(limbs@)),
{
    if limbs.len() == 0 {
        return 0;
    }
    let ghost n = limbs_value(limbs@);
    let top_bits = bits_of(limbs[limbs.len() - 1]);
    let len: u32 = 32 * (limbs.len() - 1) as u32 + top_bits;
    proof {
        lemma_limbs_bit_length(limbs@);
        lemma_bit_length(limbs@.last() as nat, 0);
    }
    assert(len == bit_length(n) && len >= 1);
    if len <= 53 {
        proof {
            lemma2_to64();
            lemma_limbs_split(limbs@, 0);
            assert(limbs@.take(0).len() == 0);
            assert(limbs@.skip(0) =~= limbs@);
            lemma_bit_length(n, len as nat);
            lemma_pow2_strictly_increases(len as nat, 64);
        }
        let exact = upper_value(limbs, 0);
        return exact_bits(exact as u64, len);
    }
    if len > 1024 {
        return INFINITY;
    }
    let shift: u32 = len - 53;
    let below: u32 = (shift - 1) / 32;
    let width: u32 = shift - 32 * below;
    let low_set = any_below(limbs, below as usize);
    let upper = upper_value(limbs, below as usize);
    let divisor = power_of_two(width);
    proof {
        lemma_pow2_pos(width as nat);
    }
    let kept: u128 = upper / divisor;
    let part: u128 = upper % divisor;
    let half: u128 = divisor / 2;
    proof {
        lemma2_to64_rest();
        lemma_limbs_split(limbs@, below as int);
        lemma_limbs_bound(limbs@.take(below as int));
        lemma_pow2_unfold(width as nat);
        lemma_cut(
            n,
            upper as nat,
            limbs_value(limbs@.take(below as int)),
            below as nat,
            width as nat,
        );
        lemma_kept(n, len as nat);
        assert((width + 32 * below) as nat == (len - 53) as nat);
    }
    let up = part > half || (part == half && (low_set || kept % 2 == 1));
    rounded_bits(kept as u64, up, len)
}

/// A number of at least 1056 binary digits is too large for a double.
proof fn lemma_huge(n: nat)
    requires
        n >= pow2(1056),
    ensures
        nearest_binary64(n) == INFINITY,
{
    let len = bit_length(n);
    lemma_bit_length(n, len);
    if len <= 1024 {
        lemma_pow2_strictly_increases(len, 1056);
    }
}

/// The bits of the double nearest to the number that the digits `source[from..to]` write.
pub fn digits_to_bits(source: &Vec<char>, from: usize, to: usize) -> (r: u64)
    requires
        from <= to <= source.len(),
        forall|i: int| from <= i < to ==> is_digit(#[trigger] source@[i]),
    ensures
        r == nearest_binary64(decimal_value(source@.subrange(from as int, to as int))),
{
    let ghost digits = source@.subrange(from as int, to as int);
    let mut limbs: Vec<u32> = Vec::new();
    let mut huge = false;
    let mut i: usize = from;
    proof {
        assert(decimal_value(digits.take(0)) == 0);
    }
    while i < to && !huge
        invariant
            from <= i <= to <= source.len(),
            digits == source@.subrange(from as int, to as int),
            forall|j: int| from <= j < to ==> is_digit(#[trigger] source@[j]),
            trimmed(limbs@),
            !huge ==> limbs@.len() <= 33 && limbs_value(limbs@) == decimal_value(
                digits.take(i - from),
            ),
            huge ==> decimal_value(digits) >= pow2(1056),
        decreases to - i,
    {
        let c = source[i];
        let digit: u32 = (c as u32) - ('0' as u32);
        times_ten_plus(&mut limbs, digit);
        proof {
            assert(digits.take(i + 1 - from).drop_last() =~= digits.take(i - from));
            assert(digits.take(i + 1 - from).last() == c);
        }
        i = i + 1;
        if limbs.len() > 33 {
            huge = true;
            proof {
                let w = pow2((32 * (limbs@.len() - 1)) as nat) as int;
                let top = limbs@.last() as int;
                assert(top * w >= w) by (nonlinear_arith)
                    requires
                        top >= 1,
                        w >= 0,
                ;
                lemma_decimal_grows(digits, i - from);
            }
        }
    }
    if huge {
        proof {
            lemma_huge(decimal_value(digits));
        }
        return INFINITY;
    }
    proof {
        assert(digits.take(to - from) =~= digits);
    }
    limbs_to_bits(&limbs)
}

/// The number that digits write is at least the number that the first of them write.
proof fn lemma_decimal_grows(digits: Seq<char>, count: int)
    requires
        0 <= count <= digits.len(),
        forall|j: int| 0 <= j < digits.len() ==> is_digit(#[trigger] digits[j]),
    ensures
        decimal_value(digits.take(count)) <= decimal_value(digits),
    decreases digits.len(),
{
    if count == digits.len() {
        assert(digits.take(count) =~= digits);
    } else {
        lemma_decimal_grows(digits.drop_last(), count);
        assert(digits.drop_last().take(count) =~= digits.take(count));
    }
}

/// The doubles of the first whole numbers: one, two and three.
pub proof fn lemma_small_numbers()
    ensures
        nearest_binary64(0) == 0,
        nearest_binary64(1) == 0x3ff0_0000_0000_0000,
        nearest_binary64(2) == 0x4000_0000_0000_0000,
        nearest_binary64(3) == 0x4008_0000_0000_0000,
{
    lemma2_to64();
    lemma2_to64_rest();
    lemma_bit_length(0, 0);
    lemma_bit_length(1, 1);
    lemma_bit_length(2, 2);
    lemma_bit_length(3, 2);
}

/// The number that a single digit writes.
pub proof fn lemma_one_digit(digit: char)
    requires
        is_digit(digit),
    ensures
        decimal_value(seq![digit]) == digit as nat - '0' as nat,
{
    assert(seq![digit].drop_last() =~= Seq::<char>::empty());
    assert(decimal_value(seq![digit].drop_last()) == 0);
}

/// The digits `123` write the number whose double is 123.
pub proof fn lemma_one_two_three()
    ensures
        decimal_value(seq!['1', '2', '3']) == 123,
        nearest_binary64(123) == 0x405e_c000_0000_0000,
{
    let digits = seq!['1', '2', '3'];
    assert(digits.drop_last() =~= seq!['1', '2']);
    assert(seq!['1', '2'].drop_last() =~= seq!['1']);
    lemma_one_digit('1');
    assert(decimal_value(seq!['1', '2']) == 12);
    lemma2_to64();
    lemma2_to64_rest();
    lemma_bit_length(123, 7);
}

} // verus!
