//! Integers of any length, with an optional size in bits.
use vstd::arithmetic::power2::{lemma_pow2_unfold, pow2};
use vstd::prelude::*;

use crate::bits::{
    bit_length, bit_of, bit_value, lemma_bit_length_exact, lemma_signed_value_bit,
    lemma_signed_value_fill, lemma_signed_value_flip, lemma_signed_value_range,
    lemma_signed_value_split, lemma_unsigned_is_reversed, min_size, sign_of, signed_value,
    unsigned_value,
};

verus! {

/// A number and, where one was given to it, its size in bits.
pub struct IntegerView {
    pub value: int,
    pub size: Option<usize>,
}

/// An integer of any length.
///
/// `bits` holds it in two's complement, least significant bit first; the last of
/// the bits is repeated without end. No bits at all are zero.
#[derive(Debug)]
pub struct BigInt {
    pub bits: Vec<bool>,
    pub size: Option<usize>,
}

/// The bit that follows the last one of `bits` without end.
pub open spec fn fill_of(bits: Seq<bool>) -> bool {
    bits.len() > 0 && bits.last()
}

/// The bits of `bytes`, most significant bit first.
pub open spec fn byte_bits(bytes: Seq<u8>) -> Seq<bool>
    decreases bytes.len(),
{
    if bytes.len() == 0 {
        Seq::empty()
    } else {
        byte_bits(bytes.drop_last()) + crate::bits::low_bits(bytes.last() as int, 8)
    }
}

/// An integer without a size.
pub open spec fn plain_integer(value: int) -> IntegerView {
    IntegerView { value, size: None }
}

/// The integer that `bits` spell, most significant bit first, as long as they are.
pub open spec fn sized_integer(bits: Seq<bool>) -> IntegerView {
    IntegerView { value: unsigned_value(bits) as int, size: Some(bits.len() as usize) }
}

impl View for BigInt {
    type V = IntegerView;

    open spec fn view(&self) -> IntegerView {
        IntegerView { value: signed_value(self.bits@, fill_of(self.bits@)), size: self.size }
    }
}

impl Clone for BigInt {
    fn clone(&self) -> (r: BigInt)
        ensures
            r@ == self@,
    {
        let bits = self.bits.clone();
        assert(bits@ =~= self.bits@);
        BigInt { bits, size: self.size }
    }
}

impl BigInt {
    /// The integer `n`, without a size.
    pub fn from_usize(n: usize) -> (r: BigInt)
        ensures
            r@ == plain_integer(n as int),
    {
        let mut bits: Vec<bool> = Vec::new();
        let mut rest: usize = n;
        assert(pow2(0) * rest == rest) by {
            vstd::arithmetic::power2::lemma2_to64();
            assert(1 * rest == rest);
        }
        while rest > 0
            invariant
                n == signed_value(bits@, false) + pow2(bits@.len()) * rest,
            decreases rest,
        {
            let ghost before = bits@;
            let bit = rest % 2 == 1;
            bits.push(bit);
            proof {
                lemma_push(before, bit);
                lemma_pow2_unfold(bits@.len());
                let p = pow2(before.len()) as int;
                assert(p * rest == p * bit_value(bit) + (2 * p) * (rest as int / 2)) by (nonlinear_arith)
                    requires
                        rest as int == 2 * (rest as int / 2) + bit_value(bit),
                ;
            }
            rest = rest / 2;
        }
        let ghost before = bits@;
        bits.push(false);
        proof {
            lemma_push(before, false);
        }
        BigInt { bits, size: None }
    }

    /// The natural number that `bits` spell, most significant bit first; its size
    /// is the number of bits.
    pub fn from_bits_be(bits: &Vec<bool>) -> (r: BigInt)
        ensures
            r@ == sized_integer(bits@),
    {
        let mut out: Vec<bool> = Vec::new();
        let len = bits.len();
        let mut i: usize = len;
        while i > 0
            invariant
                i <= len,
                len == bits@.len(),
                out@ =~= bits@.skip(i as int).reverse(),
            decreases i,
        {
            i -= 1;
            out.push(bits[i]);
        }
        assert(bits@.skip(0) =~= bits@);
        let ghost before = out@;
        out.push(false);
        proof {
            lemma_push(before, false);
            lemma_unsigned_is_reversed(bits@);
        }
        BigInt { bits: out, size: Some(len) }
    }

    /// The natural number that `bytes` spell, most significant byte first; its
    /// size is the number of their bits.
    pub fn from_bytes_be(bytes: &Vec<u8>) -> (r: BigInt)
        ensures
            r@ == sized_integer(byte_bits(bytes@)),
            r@.size matches Some(size) && size == 8 * bytes@.len(),
    {
        let mut bits: Vec<bool> = Vec::new();
        let mut i: usize = 0;
        while i < bytes.len()
            invariant
                i <= bytes@.len(),
                bits@ == byte_bits(bytes@.take(i as int)),
                bits@.len() == 8 * i,
            decreases bytes@.len() - i,
        {
            let byte = bytes[i];
            let ghost before = bits@;
            let mut j: usize = 0;
            while j < 8
                invariant
                    j <= 8,
                    bits@ =~= before + crate::bits::low_bits(byte as int, 8).take(j as int),
                decreases 8 - j,
            {
                bits.push(byte_bit(byte, 7 - j));
                j += 1;
            }
            proof {
                let all = crate::bits::low_bits(byte as int, 8);
                assert(all.take(8) =~= all);
                assert(bytes@.take(i + 1).drop_last() =~= bytes@.take(i as int));
            }
            i += 1;
        }
        assert(bytes@.take(i as int) =~= bytes@);
        let len = bits.len();
        assert(len == 8 * bytes@.len());
        BigInt::from_bits_be(&bits)
    }

    /// The sum of two integers, without a size.
    pub fn plus(&self, other: &BigInt) -> (r: BigInt)
        ensures
            r@ == plain_integer(self@.value + other@.value),
    {
        let len = if self.bits.len() < other.bits.len() {
            other.bits.len()
        } else {
            self.bits.len()
        };
        let mut bits: Vec<bool> = Vec::new();
        let mut carry = false;
        let mut i: usize = 0;
        let ghost fa = fill_of(self.bits@);
        let ghost fb = fill_of(other.bits@);
        proof {
            assert(pow2(0) == 1) by {
                vstd::arithmetic::power2::lemma2_to64();
            }
            assert(from_bit(self.bits@, 0) =~= self.bits@);
            assert(from_bit(other.bits@, 0) =~= other.bits@);
        }
        while i < len
            invariant
                i <= len,
                self.bits@.len() <= len,
                other.bits@.len() <= len,
                bits@.len() == i,
                fa == fill_of(self.bits@),
                fb == fill_of(other.bits@),
                self@.value + other@.value == signed_value(bits@, false) + pow2(i as nat) * (
                signed_value(from_bit(self.bits@, i as int), fa) + signed_value(
                    from_bit(other.bits@, i as int),
                    fb,
                ) + bit_value(carry)),
            decreases len - i,
        {
            let a = self.get_bit(i);
            let b = other.get_bit(i);
            let bit = a ^ b ^ carry;
            let next = (a && b) || (a && carry) || (b && carry);
            let ghost before = bits@;
            proof {
                lemma_from_bit(self.bits@, i as int);
                lemma_from_bit(other.bits@, i as int);
                lemma_push(before, bit);
                lemma_pow2_unfold((i + 1) as nat);
                let p = pow2(i as nat) as int;
                let ra = signed_value(from_bit(self.bits@, i + 1), fa);
                let rb = signed_value(from_bit(other.bits@, i + 1), fb);
                assert(bit_value(a) + bit_value(b) + bit_value(carry) == bit_value(bit) + 2
                    * bit_value(next));
                assert(p * (bit_value(a) + 2 * ra + (bit_value(b) + 2 * rb) + bit_value(carry))
                    == p * bit_value(bit) + (2 * p) * (ra + rb + bit_value(next)))
                    by (nonlinear_arith)
                    requires
                        bit_value(a) + bit_value(b) + bit_value(carry) == bit_value(bit) + 2
                            * bit_value(next),
                ;
            }
            bits.push(bit);
            carry = next;
            i += 1;
        }
        let a = self.get_bit(len);
        let b = other.get_bit(len);
        let low = a ^ b ^ carry;
        let high = (a && b) || ((a || b) && !carry);
        let ghost before = bits@;
        bits.push(low);
        bits.push(high);
        proof {
            let p = pow2(len as nat) as int;
            assert(from_bit(self.bits@, len as int) =~= Seq::<bool>::empty());
            assert(from_bit(other.bits@, len as int) =~= Seq::<bool>::empty());
            lemma_signed_value_bit(self.bits@, fa, len as nat);
            lemma_signed_value_bit(other.bits@, fb, len as nat);
            let top = seq![low, high];
            assert(bits@ =~= before + top);
            lemma_signed_value_split(before, top, high);
            assert(top.drop_first() =~= seq![high]);
            assert(seq![high].drop_first() =~= Seq::<bool>::empty());
            assert(signed_value(seq![high], high) == -bit_value(high));
            assert(signed_value(top, high) == bit_value(low) - 2 * bit_value(high));
            assert(-bit_value(a) - bit_value(b) + bit_value(carry) == bit_value(low) - 2
                * bit_value(high));
        }
        BigInt { bits, size: None }
    }

    /// Bit `position` of the integer in two's complement.
    pub fn get_bit(&self, position: usize) -> (r: bool)
        ensures
            r == bit_of(self@.value, position as nat),
            r == (if position < self.bits@.len() {
                self.bits@[position as int]
            } else {
                fill_of(self.bits@)
            }),
    {
        proof {
            lemma_signed_value_bit(self.bits@, fill_of(self.bits@), position as nat);
        }
        if position < self.bits.len() {
            self.bits[position]
        } else if self.bits.len() > 0 {
            self.bits[self.bits.len() - 1]
        } else {
            false
        }
    }

    /// How many of the bits come before those that only repeat the last one.
    fn used_bits(&self) -> (n: usize)
        ensures
            n <= self.bits@.len(),
            fill_of(self.bits@) ==> n < self.bits@.len(),
            n > 0 ==> self.bits@[n - 1] != fill_of(self.bits@),
            self@.value == signed_value(self.bits@.take(n as int), fill_of(self.bits@)),
    {
        let mut n: usize = self.bits.len();
        let ghost fill = fill_of(self.bits@);
        if n == 0 {
            assert(self.bits@.take(0) =~= self.bits@);
            return 0;
        }
        let sign = self.bits[n - 1];
        while n > 0 && self.bits[n - 1] == sign
            invariant
                n <= self.bits@.len(),
                self.bits@.len() > 0,
                sign == self.bits@.last(),
                n == self.bits@.len() || n < self.bits@.len(),
                forall|i: int| n <= i < self.bits@.len() ==> self.bits@[i] == sign,
            decreases n,
        {
            n -= 1;
        }
        proof {
            let low = self.bits@.take(n as int);
            let high = self.bits@.skip(n as int);
            assert(low + high =~= self.bits@);
            lemma_signed_value_split(low, high, fill);
            lemma_signed_value_fill(high, fill);
            lemma_signed_value_split(low, Seq::<bool>::empty(), fill);
            assert(low + Seq::<bool>::empty() =~= low);
        }
        n
    }

    /// The sign of the integer: -1, 0 or 1.
    pub fn sign(&self) -> (r: i32)
        ensures
            r == sign_of(self@.value),
    {
        let n = self.used_bits();
        proof {
            lemma_used(self.bits@.take(n as int), fill_of(self.bits@));
        }
        if self.bits.len() > 0 && self.bits[self.bits.len() - 1] {
            -1
        } else if n == 0 {
            0
        } else {
            1
        }
    }

    /// The smallest number of bits that holds the integer.
    pub fn min_size(&self) -> (r: usize)
        ensures
            r == min_size(self@.value),
    {
        let n = self.used_bits();
        proof {
            lemma_used(self.bits@.take(n as int), fill_of(self.bits@));
        }
        if self.bits.len() > 0 && self.bits[self.bits.len() - 1] {
            n + 1
        } else if n == 0 {
            1
        } else {
            n
        }
    }
}

/// Bit `position` of a byte.
pub(crate) fn byte_bit(byte: u8, position: usize) -> (r: bool)
    requires
        position < 8,
    ensures
        r == bit_of(byte as int, position as nat),
{
    let mut rest: u8 = byte;
    let mut i: usize = 0;
    while i < position
        invariant
            i <= position,
            position < 8,
            bit_of(byte as int, position as nat) == bit_of(rest as int, (position - i) as nat),
        decreases position - i,
    {
        proof {
            crate::bits::lemma_bit_of_step(rest as int, (position - i - 1) as nat);
        }
        rest = rest / 2;
        i += 1;
    }
    proof {
        crate::bits::lemma_bit_of_step(rest as int, 0);
    }
    rest % 2 == 1
}

/// The bits from position `i` on.
spec fn from_bit(bits: Seq<bool>, i: int) -> Seq<bool> {
    if i < bits.len() {
        bits.skip(i)
    } else {
        Seq::empty()
    }
}

/// One more bit at the top is worth its power of two.
proof fn lemma_push(bits: Seq<bool>, bit: bool)
    ensures
        signed_value(bits.push(bit), false) == signed_value(bits, false) + pow2(bits.len())
            * bit_value(bit),
{
    assert(bits.push(bit) =~= bits + seq![bit]);
    lemma_signed_value_split(bits, seq![bit], false);
    assert(seq![bit].drop_first() =~= Seq::<bool>::empty());
    assert(signed_value(Seq::<bool>::empty(), false) == 0);
    assert(signed_value(seq![bit], false) == bit_value(bit));
}

/// The bits from one position on start with the bit at that position.
proof fn lemma_from_bit(bits: Seq<bool>, i: int)
    requires
        0 <= i,
    ensures
        signed_value(from_bit(bits, i), fill_of(bits)) == bit_value(
            if i < bits.len() {
                bits[i]
            } else {
                fill_of(bits)
            },
        ) + 2 * signed_value(from_bit(bits, i + 1), fill_of(bits)),
{
    if i < bits.len() {
        assert(from_bit(bits, i).drop_first() =~= from_bit(bits, i + 1));
    }
}

/// The sign and the size of a number can be read off the bits that it uses.
proof fn lemma_used(bits: Seq<bool>, fill: bool)
    requires
        bits.len() > 0 ==> bits.last() != fill,
    ensures
        fill ==> signed_value(bits, fill) < 0 && min_size(signed_value(bits, fill)) == bits.len() + 1,
        !fill && bits.len() == 0 ==> signed_value(bits, fill) == 0,
        !fill && bits.len() > 0 ==> signed_value(bits, fill) > 0 && min_size(
            signed_value(bits, fill),
        ) == bits.len(),
{
    if fill {
        let flipped = bits.map_values(|b: bool| !b);
        lemma_signed_value_flip(bits, fill);
        lemma_signed_value_range(flipped);
        if bits.len() > 0 {
            lemma_bit_length_exact(flipped);
        } else {
            assert(flipped =~= Seq::<bool>::empty());
            assert(bit_length(0) == 0);
        }
    } else if bits.len() > 0 {
        lemma_bit_length_exact(bits);
    }
}

} // verus!
