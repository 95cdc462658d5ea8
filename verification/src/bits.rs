//! Bit strings as sequences of booleans, most significant bit first, and the
//! two ways of reading them: as one number, or as a row of fixed-width digits.

use vstd::arithmetic::div_mod::lemma_fundamental_div_mod_converse;
use vstd::arithmetic::power2::{lemma2_to64, lemma_pow2_pos, lemma_pow2_unfold, pow2};
use vstd::prelude::*;

verus! {

/// The number that a bit string spells, most significant bit first.
pub open spec fn value_of(bits: Seq<bool>) -> nat
    decreases bits.len(),
{
    if bits.len() == 0 {
        0
    } else {
        2 * value_of(bits.drop_last()) + if bits.last() { 1nat } else { 0nat }
    }
}

/// The low `width` bits of `value`, most significant bit first.
pub open spec fn bits_of(value: nat, width: nat) -> Seq<bool>
    decreases width,
{
    if width == 0 {
        Seq::empty()
    } else {
        bits_of(value / 2, (width - 1) as nat).push(value % 2 == 1)
    }
}

/// A run of `n` zero bits.
pub open spec fn zeros(n: nat) -> Seq<bool> {
    Seq::new(n, |i: int| false)
}

/// A number written in `width` bits has `width` bits.
pub proof fn lemma_bits_of_len(value: nat, width: nat)
    ensures
        bits_of(value, width).len() == width,
    decreases width,
{
    if width > 0 {
        lemma_bits_of_len(value / 2, (width - 1) as nat);
    }
}

/// A string of `n` bits spells a number below `2^n`.
pub proof fn lemma_value_of_bound(bits: Seq<bool>)
    ensures
        value_of(bits) < pow2(bits.len()),
    decreases bits.len(),
{
    if bits.len() == 0 {
        lemma_pow2_pos(0);
    } else {
        lemma_value_of_bound(bits.drop_last());
        lemma_pow2_unfold(bits.len());
    }
}

/// Writing a number out in as many bits as the string had that spelled it
/// gives the string back.
pub proof fn lemma_bits_of_value_of(bits: Seq<bool>)
    ensures
        bits_of(value_of(bits), bits.len()) == bits,
    decreases bits.len(),
{
    if bits.len() > 0 {
        lemma_bits_of_value_of(bits.drop_last());
        assert(bits.drop_last().push(bits.last()) =~= bits);
    }
}

/// Reading back the `width` bits of a number that fits in them gives the number.
pub proof fn lemma_value_of_bits_of(value: nat, width: nat)
    requires
        value < pow2(width),
    ensures
        value_of(bits_of(value, width)) == value,
    decreases width,
{
    if width == 0 {
        lemma_pow2_pos(0);
        assert(pow2(0) == 1) by {
            lemma2_to64();
        }
    } else {
        lemma_pow2_unfold(width);
        lemma_value_of_bits_of(value / 2, (width - 1) as nat);
        let rest = bits_of(value / 2, (width - 1) as nat);
        assert(rest.push(value % 2 == 1).drop_last() =~= rest);
    }
}

/// A number written in `high + low` bits is its upper part in `high` bits
/// followed by its lower part in `low` bits.
pub proof fn lemma_bits_of_concat(upper: nat, lower: nat, high: nat, low: nat)
    requires
        lower < pow2(low),
    ensures
        bits_of(upper * pow2(low) + lower, high + low) == bits_of(upper, high) + bits_of(
            lower,
            low,
        ),
    decreases low,
{
    if low == 0 {
        assert(pow2(0) == 1) by {
            lemma2_to64();
        }
        assert(upper * pow2(low) + lower == upper) by (nonlinear_arith)
            requires
                pow2(low) == 1,
                lower < 1,
        ;
        assert(bits_of(upper, high) + bits_of(lower, 0) =~= bits_of(upper, high));
    } else {
        let less = (low - 1) as nat;
        let scaled = upper * pow2(less);
        let whole = upper * pow2(low) + lower;
        lemma_pow2_unfold(low);
        assert(upper * pow2(low) == 2 * scaled) by (nonlinear_arith)
            requires
                pow2(low) == 2 * pow2(less),
                scaled == upper * pow2(less),
        ;
        assert(whole / 2 == scaled + lower / 2);
        assert(whole % 2 == lower % 2);
        lemma_bits_of_concat(upper, lower / 2, high, less);
        assert(((high + low) - 1) as nat == high + less);
        assert(bits_of(whole, high + low) == bits_of(whole / 2, high + less).push(whole % 2 == 1));
        assert(bits_of(whole / 2, high + less) == bits_of(upper, high) + bits_of(lower / 2, less));
        assert(bits_of(lower, low) == bits_of(lower / 2, less).push(lower % 2 == 1));
        assert((bits_of(upper, high) + bits_of(lower / 2, less)).push(lower % 2 == 1)
            =~= bits_of(upper, high) + bits_of(lower / 2, less).push(lower % 2 == 1));
    }
}

/// Zero is written in zeros.
pub proof fn lemma_bits_of_zero(width: nat)
    ensures
        bits_of(0, width) == zeros(width),
    decreases width,
{
    if width > 0 {
        lemma_bits_of_zero((width - 1) as nat);
    }
    assert(bits_of(0, width) =~= zeros(width));
}

/// The digits one after another, each written in `width` bits.
pub open spec fn digits_to_bits(digits: Seq<u8>, width: nat) -> Seq<bool>
    decreases digits.len(),
{
    if digits.len() == 0 {
        Seq::empty()
    } else {
        digits_to_bits(digits.drop_last(), width) + bits_of(digits.last() as nat, width)
    }
}

/// The bit string cut into groups of `width` bits from the start, each group
/// read as a number. Bits after the last whole group are left out.
pub open spec fn bits_to_digits(bits: Seq<bool>, width: nat) -> Seq<u8>
    recommends
        0 < width <= 8,
{
    Seq::new(
        bits.len() / width,
        |k: int| value_of(bits.subrange(k * width, (k + 1) * width)) as u8,
    )
}

/// Every digit can be written in `width` bits.
pub open spec fn digits_fit(digits: Seq<u8>, width: nat) -> bool {
    forall|i: int| 0 <= i < digits.len() ==> (#[trigger] digits[i] as nat) < pow2(width)
}

/// A row of digits has `width` bits to the digit.
pub proof fn lemma_digits_to_bits_len(digits: Seq<u8>, width: nat)
    ensures
        digits_to_bits(digits, width).len() == digits.len() * width,
    decreases digits.len(),
{
    if digits.len() > 0 {
        lemma_digits_to_bits_len(digits.drop_last(), width);
        lemma_bits_of_len(digits.last() as nat, width);
        assert((digits.len() - 1) * width + width == digits.len() * width) by (nonlinear_arith);
    }
}

/// One more digit at the end adds its bits at the end.
pub proof fn lemma_digits_to_bits_push(digits: Seq<u8>, digit: u8, width: nat)
    ensures
        digits_to_bits(digits.push(digit), width) == digits_to_bits(digits, width) + bits_of(
            digit as nat,
            width,
        ),
{
    assert(digits.push(digit).drop_last() =~= digits);
}

/// The `k`-th group of `width` bits is the `k`-th digit.
pub proof fn lemma_digit_bits(digits: Seq<u8>, width: nat, k: int)
    requires
        0 <= k < digits.len(),
    ensures
        0 <= k * width <= (k + 1) * width <= digits_to_bits(digits, width).len(),
        digits_to_bits(digits, width).subrange(k * width, (k + 1) * width) == bits_of(
            digits[k] as nat,
            width,
        ),
    decreases digits.len(),
{
    let front = digits_to_bits(digits.drop_last(), width);
    let back = bits_of(digits.last() as nat, width);
    lemma_digits_to_bits_len(digits, width);
    lemma_digits_to_bits_len(digits.drop_last(), width);
    lemma_bits_of_len(digits.last() as nat, width);
    assert(0 <= k * width <= (k + 1) * width <= digits.len() * width) by (nonlinear_arith)
        requires
            0 <= k < digits.len(),
    ;
    if k == digits.len() - 1 {
        assert((front + back).subrange(k * width, (k + 1) * width) =~= back);
    } else {
        lemma_digit_bits(digits.drop_last(), width, k);
        assert((front + back).subrange(k * width, (k + 1) * width) =~= front.subrange(
            k * width,
            (k + 1) * width,
        ));
    }
}

/// Cutting the bits of a row of digits into groups gives the digits back,
/// whatever follows them, as long as it is shorter than a digit.
pub proof fn lemma_bits_to_digits_inverts(digits: Seq<u8>, width: nat, tail: Seq<bool>)
    requires
        0 < width <= 8,
        digits_fit(digits, width),
        tail.len() < width,
    ensures
        bits_to_digits(digits_to_bits(digits, width) + tail, width) == digits,
{
    let bits = digits_to_bits(digits, width) + tail;
    lemma_digits_to_bits_len(digits, width);
    lemma_fundamental_div_mod_converse(
        bits.len() as int,
        width as int,
        digits.len() as int,
        tail.len() as int,
    );
    assert forall|k: int| 0 <= k < digits.len() implies #[trigger] bits_to_digits(bits, width)[k]
        == digits[k] by {
        lemma_digit_bits(digits, width, k);
        assert(bits.subrange(k * width, (k + 1) * width) =~= digits_to_bits(
            digits,
            width,
        ).subrange(k * width, (k + 1) * width));
        lemma_value_of_bits_of(digits[k] as nat, width);
    }
    assert(bits_to_digits(bits, width) =~= digits);
}

/// The first `width` bits of `pending`, read as a digit and put behind
/// `digits`, leave the bit string as a whole unchanged.
pub proof fn lemma_digit_from_front(digits: Seq<u8>, width: nat, pending: Seq<bool>)
    requires
        width <= 8,
        width <= pending.len(),
    ensures
        value_of(pending.take(width as int)) < pow2(width),
        digits_to_bits(digits.push(value_of(pending.take(width as int)) as u8), width)
            + pending.skip(width as int) == digits_to_bits(digits, width) + pending,
{
    let front = pending.take(width as int);
    lemma_group_fits(front);
    lemma_bits_of_value_of(front);
    lemma_digits_to_bits_push(digits, value_of(front) as u8, width);
    assert((digits_to_bits(digits, width) + front) + pending.skip(width as int)
        =~= digits_to_bits(digits, width) + pending);
}

/// A group of at most eight bits is a digit that fits in a byte.
pub proof fn lemma_group_fits(bits: Seq<bool>)
    requires
        bits.len() <= 8,
    ensures
        value_of(bits) < pow2(bits.len()) <= 256,
{
    lemma_value_of_bound(bits);
    lemma2_to64();
}

/// The digits read from groups of `width` bits can be written in `width`
/// bits.
pub proof fn lemma_bits_to_digits_fit(bits: Seq<bool>, width: nat)
    requires
        0 < width <= 8,
    ensures
        digits_fit(bits_to_digits(bits, width), width),
{
    assert forall|k: int| 0 <= k < bits_to_digits(bits, width).len() implies (
    #[trigger] bits_to_digits(bits, width)[k] as nat) < pow2(width) by {
        lemma_group_bounds(bits.len(), width, k);
        lemma_group_fits(bits.subrange(k * width, (k + 1) * width));
    }
}

/// Where the `k`-th group of `width` bits lies in a string of `len` bits.
pub proof fn lemma_group_bounds(len: nat, width: nat, k: int)
    requires
        0 < width,
        0 <= k < len / width,
    ensures
        0 <= k * width <= (k + 1) * width <= len,
        (k + 1) * width - k * width == width,
{
    assert(0 <= k * width <= (k + 1) * width <= (len / width) * width && (k + 1) * width - k
        * width == width) by (nonlinear_arith)
        requires
            0 < width,
            0 <= k < len / width,
    ;
    assert((len / width) * width <= len) by (nonlinear_arith)
        requires
            0 < width,
    ;
}

/// Writing out the digits read from a bit string of whole groups gives the
/// bit string back.
pub proof fn lemma_digits_to_bits_inverts(bits: Seq<bool>, width: nat)
    requires
        0 < width <= 8,
        bits.len() % width == 0,
    ensures
        digits_to_bits(bits_to_digits(bits, width), width) == bits,
    decreases bits.len(),
{
    let digits = bits_to_digits(bits, width);
    if bits.len() == 0 {
        assert(bits.len() / width == 0) by (nonlinear_arith)
            requires
                bits.len() == 0,
                0 < width,
        ;
        assert(digits_to_bits(digits, width) =~= bits);
    } else {
        let n = bits.len() / width;
        assert(bits.len() == n * width && n >= 1) by (nonlinear_arith)
            requires
                n == bits.len() / width,
                bits.len() % width == 0,
                bits.len() > 0,
                0 < width,
        ;
        assert((n - 1) * width + width == n * width) by (nonlinear_arith);
        let cut = bits.len() - width;
        let front = bits.subrange(0, cut);
        let back = bits.subrange(cut, bits.len() as int);
        lemma_fundamental_div_mod_converse(cut, width as int, n - 1, 0);
        assert forall|k: int| 0 <= k < n - 1 implies #[trigger] digits[k] == bits_to_digits(
            front,
            width,
        )[k] by {
            lemma_group_bounds(front.len(), width, k);
            assert(bits.subrange(k * width, (k + 1) * width) =~= front.subrange(
                k * width,
                (k + 1) * width,
            ));
        }
        assert(digits.drop_last() =~= bits_to_digits(front, width));
        assert(bits.subrange((n - 1) * width, (n - 1 + 1) * width) =~= back);
        lemma_group_fits(back);
        lemma_bits_of_value_of(back);
        lemma_digits_to_bits_inverts(front, width);
        assert(front + back =~= bits);
    }
}

/// The bits behind the last whole group add no digit.
pub proof fn lemma_digits_of_whole_groups(bits: Seq<bool>, width: nat)
    requires
        0 < width,
    ensures
        bits.len() % width <= bits.len(),
        (bits.len() - bits.len() % width) % (width as int) == 0,
        bits_to_digits(bits.take(bits.len() - bits.len() % width), width) == bits_to_digits(
            bits,
            width,
        ),
{
    let n = bits.len() / width;
    let whole = bits.take(bits.len() - bits.len() % width);
    assert(bits.len() == n * width + bits.len() % width && 0 <= bits.len() % width < width)
        by (nonlinear_arith)
        requires
            n == bits.len() / width,
            0 < width,
    ;
    lemma_fundamental_div_mod_converse((n * width) as int, width as int, n as int, 0);
    assert forall|k: int| 0 <= k < n implies #[trigger] bits_to_digits(whole, width)[k]
        == bits_to_digits(bits, width)[k] by {
        lemma_group_bounds(whole.len(), width, k);
        assert(whole.subrange(k * width, (k + 1) * width) =~= bits.subrange(
            k * width,
            (k + 1) * width,
        ));
    }
    assert(bits_to_digits(whole, width) =~= bits_to_digits(bits, width));
}

} // verus!
