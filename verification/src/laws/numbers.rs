//! What bits, bytes and digits spell.
use vstd::arithmetic::power2::{lemma2_to64, lemma_pow2_pos, lemma_pow2_unfold, pow2};
use vstd::prelude::*;

use crate::bigint::{byte_bits, plain_integer, sized_integer, BigInt};
use crate::bits::{
    lemma_low_bits_value, lemma_signed_value_bit, low_bits, min_size, sign_of, unsigned_value,
};
use crate::constrain::lemma_min_size;
use crate::eval::digit_bits;
use crate::text::decimal;

verus! {

/// One more bit doubles the number that bits spell, and adds the bit. No bits are zero.
pub proof fn law_bits_are_binary(bits: Seq<bool>, bit: bool)
    ensures
        unsigned_value(Seq::empty()) == 0,
        unsigned_value(bits.push(bit)) == 2 * unsigned_value(bits) + (if bit {
            1int
        } else {
            0
        }),
{
    assert(bits.push(bit).drop_last() =~= bits);
}

/// Two rows of bits, one after the other, spell the first number moved up by the length
/// of the second row, plus the second number.
pub proof fn law_rows_of_bits_join(a: Seq<bool>, b: Seq<bool>)
    ensures
        unsigned_value(a + b) == unsigned_value(a) * pow2(b.len()) + unsigned_value(b),
    decreases b.len(),
{
    if b.len() == 0 {
        assert(a + b =~= a);
        lemma2_to64();
    } else {
        assert((a + b).drop_last() =~= a + b.drop_last());
        assert((a + b).last() == b.last());
        law_rows_of_bits_join(a, b.drop_last());
        lemma_pow2_unfold(b.len());
        let v = unsigned_value(a) as int;
        let p = pow2((b.len() - 1) as nat) as int;
        assert(2 * (v * p) == v * (2 * p)) by (nonlinear_arith);
    }
}

/// The low bits of a number are its binary digits, most significant one first, and
/// spell what is left of it when a power of two is divided out.
pub proof fn law_low_bits_are_binary_digits(value: int, size: nat)
    ensures
        low_bits(value, size).len() == size,
        forall|i: int|
            0 <= i < size ==> #[trigger] low_bits(value, size)[i] == ((value / (pow2(
                (size - 1 - i) as nat,
            ) as int)) % 2 == 1),
        unsigned_value(low_bits(value, size)) == value % (pow2(size) as int),
{
    lemma_low_bits_value(value, size);
}

/// The smallest size of a number is the smallest one that holds it, either as a natural
/// number or with a sign bit, and at least one bit.
pub proof fn law_min_size_is_minimal(value: int, size: nat)
    requires
        size > 0,
    ensures
        min_size(value) >= 1,
        min_size(value) <= size <==> -pow2((size - 1) as nat) <= value < pow2(size),
{
    lemma_min_size(value, size);
    lemma_pow2_pos(size);
    lemma_pow2_pos((size - 1) as nat);
}

/// The sign of a number makes it positive, and only zero has the sign zero.
pub proof fn law_sign_makes_positive(value: int)
    ensures
        -1 <= sign_of(value) <= 1,
        sign_of(value) == 0 <==> value == 0,
        value != 0 ==> sign_of(value) * value > 0,
{
    assert((-1) * value == -value && 1 * value == value);
}

/// The bits of an integer are its binary digits in two's complement; the last one goes
/// on without end. Its size is the one that was given to it.
pub proof fn law_integer_is_twos_complement(n: BigInt, i: nat)
    ensures
        n@.size == n.size,
        i < n.bits@.len() ==> n.bits@[i as int] == ((n@.value / (pow2(i) as int)) % 2 == 1),
        i >= n.bits@.len() && n.bits@.len() > 0 ==> n.bits@.last() == ((n@.value / (pow2(
            i,
        ) as int)) % 2 == 1),
        n.bits@.len() == 0 ==> n@.value == 0,
        n.bits@.len() > 0 ==> (n@.value < 0 <==> n.bits@.last()),
{
    let fill = crate::bigint::fill_of(n.bits@);
    lemma_signed_value_bit(n.bits@, fill, i);
    if n.bits@.len() > 0 {
        let low = n.bits@;
        crate::bits::lemma_signed_value_split(low, Seq::<bool>::empty(), fill);
        assert(low + Seq::<bool>::empty() =~= low);
        crate::bits::lemma_signed_value_range(low);
        let p = pow2(low.len()) as int;
        assert(p * (-1) == -p && p * 0 == 0);
    }
}

/// A number that is given no size has none, and one that is made of bits is as long
/// as they are.
pub proof fn law_numbers_and_their_sizes(value: int, bits: Seq<bool>)
    requires
        bits.len() <= usize::MAX,
    ensures
        plain_integer(value).value == value,
        plain_integer(value).size is None,
        sized_integer(bits).value == unsigned_value(bits),
        sized_integer(bits).size matches Some(size) && size == bits.len(),
{
}

/// Every byte of a file is found in its bits, at eight times its position, most
/// significant bit first.
pub proof fn law_bytes_give_their_bits(bytes: Seq<u8>, k: int, j: int)
    requires
        0 <= k < bytes.len(),
        0 <= j < 8,
    ensures
        byte_bits(bytes).len() == 8 * bytes.len(),
        byte_bits(bytes)[8 * k + j] == ((bytes[k] as int / (pow2((7 - j) as nat) as int)) % 2
            == 1),
    decreases bytes.len(),
{
    lemma_byte_bits_len(bytes);
    let front = bytes.drop_last();
    lemma_byte_bits_len(front);
    if k < front.len() {
        law_bytes_give_their_bits(front, k, j);
    }
}

/// There are eight bits to a byte.
proof fn lemma_byte_bits_len(bytes: Seq<u8>)
    ensures
        byte_bits(bytes).len() == 8 * bytes.len(),
    decreases bytes.len(),
{
    if bytes.len() > 0 {
        lemma_byte_bits_len(bytes.drop_last());
    }
}

/// Bytes are digits to the base 256: one more byte multiplies the number that they
/// spell, and adds the byte. No bytes are zero.
pub proof fn law_bytes_are_base_256(bytes: Seq<u8>, byte: u8)
    ensures
        sized_integer(byte_bits(Seq::empty())).value == 0,
        sized_integer(byte_bits(bytes.push(byte))).value == 256 * sized_integer(
            byte_bits(bytes),
        ).value + byte,
{
    assert(bytes.push(byte).drop_last() =~= bytes);
    let low = low_bits(byte as int, 8);
    law_rows_of_bits_join(byte_bits(bytes), low);
    lemma_low_bits_value(byte as int, 8);
    lemma2_to64();
    let v = unsigned_value(byte_bits(bytes)) as int;
    assert(low.len() == 8);
    assert(v * pow2(8) == 256 * v) by (nonlinear_arith)
        requires
            pow2(8) == 256,
    ;
    assert(byte as int % 256 == byte as int);
}

/// The number that decimal digits spell.
pub open spec fn numeral(text: Seq<char>) -> int
    decreases text.len(),
{
    if text.len() == 0 {
        0
    } else {
        10 * numeral(text.drop_last()) + (text.last() as int - '0' as int)
    }
}

/// A number in decimal consists of digits, spells the number, and has no zero in front
/// unless it is zero.
pub proof fn law_decimal_spells_the_number(n: nat)
    ensures
        decimal(n).len() > 0,
        forall|i: int| 0 <= i < decimal(n).len() ==> '0' <= #[trigger] decimal(n)[i] <= '9',
        numeral(decimal(n)) == n,
        decimal(n)[0] == '0' ==> n == 0 && decimal(n).len() == 1,
    decreases n,
{
    let text = decimal(n);
    if n < 10 {
        assert(text.drop_last() =~= Seq::empty());
        assert(numeral(Seq::empty()) == 0);
    } else {
        law_decimal_spells_the_number(n / 10);
        let front = decimal(n / 10);
        assert(text.drop_last() =~= front);
        assert forall|i: int| 0 <= i < text.len() implies '0' <= #[trigger] text[i] <= '9' by {
            if i < front.len() {
                assert(text[i] == front[i]);
            }
        }
        assert(text[0] == front[0]);
    }
}

/// Whether `c` is the digit `d` of a base up to sixteen, in either case.
pub open spec fn is_digit(c: char, d: int) -> bool {
    &&& 0 <= d < 16
    &&& c == "0123456789abcdef"@[d] || c == "0123456789ABCDEF"@[d]
}

/// Whether `c` may stand between digits.
pub open spec fn is_filler(c: char) -> bool {
    exists|i: int| 0 <= i < 5 && c == #[trigger] " \t_\r\n"@[i]
}

/// One more digit in a file multiplies the number so far by the base, and adds the digit;
/// all bits so far stay in front.
pub proof fn law_digit_adds_its_value(chars: Seq<char>, bits_per_char: nat, c: char, d: int)
    requires
        bits_per_char == 1 || bits_per_char == 4,
        is_digit(c, d),
        d < pow2(bits_per_char),
        digit_bits(chars, bits_per_char) is Some,
    ensures
        digit_bits(Seq::empty(), bits_per_char) == Some(Seq::<bool>::empty()),
        digit_bits(chars.push(c), bits_per_char) matches Some(bits) && {
            let before = digit_bits(chars, bits_per_char)->Some_0;
            &&& bits.len() == before.len() + bits_per_char
            &&& bits.take(before.len() as int) == before
            &&& unsigned_value(bits) == pow2(bits_per_char) * unsigned_value(before) + d
        },
{
    reveal_strlit("0123456789abcdef");
    reveal_strlit("0123456789ABCDEF");
    lemma2_to64();
    assert(chars.push(c).drop_last() =~= chars);
    let before = digit_bits(chars, bits_per_char)->Some_0;
    let low = low_bits(d, bits_per_char);
    assert(crate::eval::digit_value(c, bits_per_char) == Some(d));
    assert(digit_bits(chars.push(c), bits_per_char) == Some(before + low));
    assert((before + low).take(before.len() as int) =~= before);
    law_rows_of_bits_join(before, low);
    lemma_low_bits_value(d, bits_per_char);
    let p = pow2(bits_per_char) as int;
    assert(d % p == d) by (nonlinear_arith)
        requires
            0 <= d < p,
    ;
    assert(unsigned_value(before) * p == p * unsigned_value(before)) by (nonlinear_arith);
}

/// Spaces, tabs, line ends and underscores in a file of digits make no difference.
pub proof fn law_filler_adds_nothing(chars: Seq<char>, bits_per_char: nat, c: char)
    requires
        is_filler(c),
    ensures
        digit_bits(chars.push(c), bits_per_char) == digit_bits(chars, bits_per_char),
{
    reveal_strlit(" \t_\r\n");
    assert(chars.push(c).drop_last() =~= chars);
}

/// Anything else in a file of digits spoils it, and nothing that follows mends it.
pub proof fn law_other_characters_spoil(chars: Seq<char>, bits_per_char: nat, i: int)
    requires
        bits_per_char == 1 || bits_per_char == 4,
        0 <= i < chars.len(),
        !is_filler(chars[i]),
        forall|d: int| 0 <= d < pow2(bits_per_char) ==> !#[trigger] is_digit(chars[i], d),
    ensures
        digit_bits(chars, bits_per_char) is None,
    decreases chars.len(),
{
    if i < chars.len() - 1 {
        law_other_characters_spoil(chars.drop_last(), bits_per_char, i);
    } else {
        let c = chars[i];
        reveal_strlit("0123456789abcdef");
        reveal_strlit("0123456789ABCDEF");
        reveal_strlit(" \t_\r\n");
        lemma2_to64();
        assert(c != " \t_\r\n"@[0] && c != " \t_\r\n"@[1] && c != " \t_\r\n"@[2] && c
            != " \t_\r\n"@[3] && c != " \t_\r\n"@[4]);
        if let Some(d) = crate::eval::digit_value(c, bits_per_char) {
            assert(is_digit(c, d));
        }
    }
}

} // verus!
