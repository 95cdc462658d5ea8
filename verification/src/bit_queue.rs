//! A shift register with a counter: bits go in at the back in chunks of any
//! width up to a byte and come out at the front in chunks of any width up to
//! a byte, oldest bit first.

use crate::bits::{
    bits_of, lemma_bits_of_concat, lemma_bits_of_len, lemma_value_of_bits_of, value_of,
};
use vstd::arithmetic::div_mod::{
    lemma_fundamental_div_mod, lemma_mod_bound, lemma_multiply_divide_lt,
};
use vstd::arithmetic::power2::{
    lemma2_to64, lemma_pow2_adds, lemma_pow2_pos, lemma_pow2_strictly_increases, pow2,
};
use vstd::bits::{
    lemma_u32_low_bits_mask_is_mod, lemma_u32_pow2_no_overflow, lemma_u32_shl_is_mul,
    lemma_u32_shr_is_div, low_bits_mask,
};
use vstd::prelude::*;

verus! {

/// The most bits that a queue holds at one time.
pub const CAPACITY: u32 = 16;

/// A queue of bits. Its view is the bits that wait in it, oldest first.
pub struct BitQueue {
    register: u32,
    count: u32,
}

impl View for BitQueue {
    type V = Seq<bool>;

    closed spec fn view(&self) -> Seq<bool> {
        bits_of(self.register as nat, self.count as nat)
    }
}

/// `2^shift` as a machine word.
fn power_of_two(shift: u32) -> (power: u32)
    requires
        shift <= CAPACITY,
    ensures
        power == pow2(shift as nat),
        power > 0,
{
    proof {
        lemma_pow2_pos(shift as nat);
        lemma_u32_pow2_no_overflow(shift as nat);
        lemma_u32_shl_is_mul(1, shift);
    }
    1u32 << shift
}

/// The powers of two up to the capacity grow and stay below the word size.
proof fn lemma_pow2_within_capacity(small: nat, large: nat)
    requires
        small <= large <= CAPACITY,
    ensures
        0 < pow2(small) <= pow2(large) <= 0x1_0000,
{
    lemma2_to64();
    lemma_pow2_pos(small);
    if small < large {
        lemma_pow2_strictly_increases(small, large);
    }
    if large < 16 {
        lemma_pow2_strictly_increases(large, 16);
    }
}

/// The bits of a number are those of its remainder by `2^width`.
proof fn lemma_bits_of_low_part(value: nat, width: nat)
    ensures
        bits_of(value, width) == bits_of(value % pow2(width), width),
{
    let modulus = pow2(width);
    lemma_pow2_pos(width);
    lemma_fundamental_div_mod(value as int, modulus as int);
    lemma_mod_bound(value as int, modulus as int);
    assert((value / modulus) * modulus == modulus * (value / modulus)) by (nonlinear_arith);
    lemma_bits_of_concat(value / modulus, value % modulus, 0, width);
    lemma_bits_of_concat(0, value % modulus, 0, width);
    assert(0 * modulus == 0) by (nonlinear_arith);
}

impl BitQueue {
    #[verifier::type_invariant]
    spec fn well_formed(self) -> bool {
        &&& self.count <= CAPACITY
        &&& self.register < pow2(self.count as nat)
    }

    /// A queue with no bits in it.
    pub fn new() -> (queue: Self)
        ensures
            queue@ == Seq::<bool>::empty(),
    {
        proof {
            lemma2_to64();
        }
        BitQueue { register: 0, count: 0 }
    }

    /// How many bits wait in the queue.
    pub fn len(&self) -> (n: u32)
        ensures
            n == self@.len(),
            n <= CAPACITY,
    {
        proof {
            use_type_invariant(self);
            lemma_bits_of_len(self.register as nat, self.count as nat);
        }
        self.count
    }

    /// Puts the low `width` bits of `value` at the back of the queue, the most
    /// significant of them first.
    pub fn push(&mut self, value: u8, width: u32)
        requires
            width <= 8,
            old(self)@.len() + width <= CAPACITY,
        ensures
            final(self)@ == old(self)@ + bits_of(value as nat, width as nat),
    {
        proof {
            use_type_invariant(&*self);
            lemma_bits_of_len(self.register as nat, self.count as nat);
        }
        let ghost waiting = self.count as nat;
        let ghost held = self.register as nat;
        let mask: u32 = power_of_two(width) - 1;
        let low: u32 = (value as u32) & mask;
        proof {
            lemma_pow2_within_capacity(width as nat, (waiting + width) as nat);
            lemma_pow2_within_capacity(waiting, (waiting + width) as nat);
            lemma_pow2_adds(waiting, width as nat);
            assert(mask == low_bits_mask(width as nat) as u32);
            lemma_u32_low_bits_mask_is_mod(value as u32, width as nat);
            lemma_mod_bound(value as int, pow2(width as nat) as int);
            assert(held * pow2(width as nat) + low < pow2(waiting + width as nat))
                by (nonlinear_arith)
                requires
                    held < pow2(waiting),
                    low < pow2(width as nat),
                    pow2(waiting + width as nat) == pow2(waiting) * pow2(width as nat),
            ;
            lemma_u32_shl_is_mul(self.register, width);
            lemma_bits_of_concat(held, low as nat, waiting, width as nat);
            lemma_bits_of_low_part(value as nat, width as nat);
        }
        *self = BitQueue { register: (self.register << width) + low, count: self.count + width };
    }

    /// Takes `width` bits from the front of the queue and returns the number
    /// that they spell.
    pub fn pop(&mut self, width: u32) -> (value: u8)
        requires
            width <= 8,
            width <= old(self)@.len(),
        ensures
            value == value_of(old(self)@.take(width as int)),
            final(self)@ == old(self)@.skip(width as int),
    {
        proof {
            use_type_invariant(&*self);
            lemma_bits_of_len(self.register as nat, self.count as nat);
        }
        let ghost held = self.register as nat;
        let rest: u32 = self.count - width;
        let front: u32 = self.register >> rest;
        proof {
            let unit = pow2(rest as nat);
            lemma_pow2_within_capacity(rest as nat, self.count as nat);
            lemma_pow2_within_capacity(width as nat, 8);
            lemma2_to64();
            lemma_pow2_adds(rest as nat, width as nat);
            lemma_u32_shr_is_div(self.register, rest);
            lemma_fundamental_div_mod(held as int, unit as int);
            lemma_mod_bound(held as int, unit as int);
            lemma_multiply_divide_lt(held as int, unit as int, pow2(width as nat) as int);
            assert(front * unit == unit * front) by (nonlinear_arith);
            lemma_u32_shl_is_mul(front, rest);
            lemma_bits_of_concat(front as nat, held % unit, width as nat, rest as nat);
            lemma_value_of_bits_of(front as nat, width as nat);
            lemma_bits_of_len(front as nat, width as nat);
            let upper = bits_of(front as nat, width as nat);
            let lower = bits_of(held % unit, rest as nat);
            assert((upper + lower).take(width as int) =~= upper);
            assert((upper + lower).skip(width as int) =~= lower);
        }
        *self = BitQueue { register: self.register - (front << rest), count: rest };
        front as u8
    }
}

} // verus!
