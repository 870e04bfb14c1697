//! Integers as sequences of bits.
//!
//! A number of any sign is an endless row of two's complement bits: from some
//! position on, all of them are equal. The functions here relate the first bits
//! of that row to the number itself.
use vstd::arithmetic::div_mod::{lemma_fundamental_div_mod, lemma_fundamental_div_mod_converse};
use vstd::arithmetic::power2::{lemma_pow2_pos, lemma_pow2_unfold, pow2};
use vstd::prelude::*;

verus! {

/// One bit as a number.
pub open spec fn bit_value(bit: bool) -> int {
    if bit {
        1
    } else {
        0
    }
}

/// The number whose lowest bits are `bits`, least significant first, and whose
/// further bits are all equal to `fill`.
pub open spec fn signed_value(bits: Seq<bool>, fill: bool) -> int
    decreases bits.len(),
{
    if bits.len() == 0 {
        -bit_value(fill)
    } else {
        bit_value(bits[0]) + 2 * signed_value(bits.drop_first(), fill)
    }
}

/// The number that `bits` spell, most significant bit first.
pub open spec fn unsigned_value(bits: Seq<bool>) -> nat
    decreases bits.len(),
{
    if bits.len() == 0 {
        0
    } else {
        (2 * unsigned_value(bits.drop_last()) + bit_value(bits.last())) as nat
    }
}

/// Bit `position` of `value` in two's complement.
pub open spec fn bit_of(value: int, position: nat) -> bool {
    (value / pow2(position) as int) % 2 == 1
}

/// The lowest `size` bits of `value`, most significant bit first.
pub open spec fn low_bits(value: int, size: nat) -> Seq<bool> {
    Seq::new(size, |i: int| bit_of(value, (size - 1 - i) as nat))
}

/// How many bits `value` takes without leading zeros.
pub open spec fn bit_length(value: nat) -> nat
    decreases value,
{
    if value == 0 {
        0
    } else {
        1 + bit_length(value / 2)
    }
}

/// The smallest number of bits that holds `value`. A negative number is held in
/// two's complement, sign bit included; zero takes one bit.
pub open spec fn min_size(value: int) -> nat {
    if value < 0 {
        bit_length((-1 - value) as nat) + 1
    } else if value == 0 {
        1
    } else {
        bit_length(value as nat)
    }
}

/// The sign of `value`: -1, 0 or 1.
pub open spec fn sign_of(value: int) -> int {
    if value < 0 {
        -1
    } else if value == 0 {
        0
    } else {
        1
    }
}

/// Dividing by twice a number is dividing by two and then by the number.
proof fn lemma_halves(value: int, p: int)
    requires
        p > 0,
    ensures
        value / (2 * p) == (value / 2) / p,
        value % (2 * p) == 2 * ((value / 2) % p) + value % 2,
{
    let q = (value / 2) / p;
    let c = (value / 2) % p;
    lemma_fundamental_div_mod(value / 2, p);
    assert(0 <= c < p) by (nonlinear_arith)
        requires
            p > 0,
            c == (value / 2) % p,
    ;
    let r = 2 * c + value % 2;
    assert(value == q * (2 * p) + r) by (nonlinear_arith)
        requires
            value == 2 * (value / 2) + value % 2,
            value / 2 == p * q + c,
            r == 2 * c + value % 2,
    ;
    lemma_fundamental_div_mod_converse(value, 2 * p, q, r);
}

/// What is above the lowest bit of a number, in terms of its bits.
pub proof fn lemma_bit_of_step(value: int, position: nat)
    ensures
        bit_of(value, 0) == (value % 2 == 1),
        bit_of(value, position + 1) == bit_of(value / 2, position),
{
    lemma_pow2_pos(position);
    lemma_pow2_unfold(position + 1);
    assert(pow2(0) == 1) by {
        vstd::arithmetic::power2::lemma2_to64();
    }
    let p = pow2(position) as int;
    assert(value / (2 * p) == (value / 2) / p) by {
        lemma_halves(value, p);
    }
    assert(pow2(position + 1) as int == 2 * p);
}

/// The bits of a number are the bits it was made from.
pub proof fn lemma_signed_value_bit(bits: Seq<bool>, fill: bool, position: nat)
    ensures
        bit_of(signed_value(bits, fill), position) == (if position < bits.len() {
            bits[position as int]
        } else {
            fill
        }),
    decreases bits.len(), position,
{
    let value = signed_value(bits, fill);
    if bits.len() == 0 {
        lemma_pow2_pos(position);
        let p = pow2(position) as int;
        if fill {
            assert((-1int) / p == -1) by (nonlinear_arith)
                requires
                    p >= 1,
            ;
        } else {
            assert(0int / p == 0) by (nonlinear_arith)
                requires
                    p >= 1,
            ;
        }
    } else {
        let rest = signed_value(bits.drop_first(), fill);
        assert(value / 2 == rest);
        if position == 0 {
            lemma_bit_of_step(value, 0);
        } else {
            lemma_bit_of_step(value, (position - 1) as nat);
            lemma_signed_value_bit(bits.drop_first(), fill, (position - 1) as nat);
        }
    }
}

/// A row of bits that all equal the fill says no more than the fill.
pub proof fn lemma_signed_value_fill(bits: Seq<bool>, fill: bool)
    requires
        forall|i: int| 0 <= i < bits.len() ==> bits[i] == fill,
    ensures
        signed_value(bits, fill) == -bit_value(fill),
    decreases bits.len(),
{
    if bits.len() > 0 {
        assert(bits[0] == fill);
        assert forall|i: int| 0 <= i < bits.drop_first().len() implies bits.drop_first()[i] == fill by {
            assert(bits.drop_first()[i] == bits[i + 1]);
        }
        lemma_signed_value_fill(bits.drop_first(), fill);
    }
}

/// Bits may be taken apart at any position.
pub proof fn lemma_signed_value_split(low: Seq<bool>, high: Seq<bool>, fill: bool)
    ensures
        signed_value(low + high, fill) == signed_value(low, false) + pow2(low.len())
            * signed_value(high, fill),
    decreases low.len(),
{
    if low.len() == 0 {
        assert(low + high =~= high);
        assert(pow2(0) == 1) by {
            vstd::arithmetic::power2::lemma2_to64();
        }
    } else {
        assert((low + high).drop_first() =~= low.drop_first() + high);
        lemma_signed_value_split(low.drop_first(), high, fill);
        lemma_pow2_unfold(low.len());
        let p = pow2(low.drop_first().len()) as int;
        let h = signed_value(high, fill);
        assert(2 * (p * h) == (2 * p) * h) by (nonlinear_arith);
    }
}

/// The bits of a number without fill lie between zero and a power of two.
pub proof fn lemma_signed_value_range(bits: Seq<bool>)
    ensures
        0 <= signed_value(bits, false) < pow2(bits.len()),
    decreases bits.len(),
{
    if bits.len() == 0 {
        assert(pow2(0) == 1) by {
            vstd::arithmetic::power2::lemma2_to64();
        }
    } else {
        lemma_signed_value_range(bits.drop_first());
        lemma_pow2_unfold(bits.len());
    }
}

/// A number fits below a power of two just when it has at most that many bits.
pub proof fn lemma_bit_length_bound(value: nat, size: nat)
    ensures
        bit_length(value) <= size <==> value < pow2(size),
    decreases size,
{
    if size == 0 {
        assert(pow2(0) == 1) by {
            vstd::arithmetic::power2::lemma2_to64();
        }
    } else {
        lemma_pow2_unfold(size);
        if value > 0 {
            lemma_bit_length_bound(value / 2, (size - 1) as nat);
        } else {
            lemma_pow2_pos(size);
        }
    }
}

/// A row of bits whose last one is set has as many bits as its number.
pub proof fn lemma_bit_length_exact(bits: Seq<bool>)
    requires
        bits.len() > 0,
        bits.last(),
    ensures
        signed_value(bits, false) > 0,
        bit_length(signed_value(bits, false) as nat) == bits.len(),
    decreases bits.len(),
{
    let rest = bits.drop_first();
    lemma_signed_value_range(rest);
    if bits.len() == 1 {
        assert(rest =~= Seq::<bool>::empty());
        assert(signed_value(bits, false) == 1);
        assert(bit_length(1) == 1) by {
            assert(bit_length(0) == 0);
        }
    } else {
        assert(rest.last() == bits.last());
        lemma_bit_length_exact(rest);
        assert(signed_value(bits, false) / 2 == signed_value(rest, false));
    }
}

/// Flipping every bit and the fill turns a number into minus one minus it.
pub proof fn lemma_signed_value_flip(bits: Seq<bool>, fill: bool)
    ensures
        signed_value(bits.map_values(|b: bool| !b), !fill) == -1 - signed_value(bits, fill),
    decreases bits.len(),
{
    let flipped = bits.map_values(|b: bool| !b);
    if bits.len() > 0 {
        assert(flipped.drop_first() =~= bits.drop_first().map_values(|b: bool| !b));
        lemma_signed_value_flip(bits.drop_first(), fill);
    }
}

/// Most significant bit first, the number is that of the reversed row.
pub proof fn lemma_unsigned_is_reversed(bits: Seq<bool>)
    ensures
        unsigned_value(bits) == signed_value(bits.reverse(), false),
    decreases bits.len(),
{
    if bits.len() > 0 {
        assert(bits.reverse().drop_first() =~= bits.drop_last().reverse());
        lemma_unsigned_is_reversed(bits.drop_last());
        lemma_signed_value_range(bits.drop_last().reverse());
    }
}

/// The low bits of a number spell its remainder.
pub proof fn lemma_low_bits_value(value: int, size: nat)
    ensures
        unsigned_value(low_bits(value, size)) == value % (pow2(size) as int),
    decreases size,
{
    lemma_pow2_pos(size);
    if size == 0 {
        assert(pow2(0) == 1) by {
            vstd::arithmetic::power2::lemma2_to64();
        }
    } else {
        let n = (size - 1) as nat;
        lemma_low_bits_value(value / 2, n);
        lemma_pow2_unfold(size);
        lemma_pow2_pos(n);
        let p = pow2(n) as int;
        assert(low_bits(value, size).drop_last() =~= low_bits(value / 2, n)) by {
            assert forall|i: int| 0 <= i < n implies low_bits(value, size)[i] == low_bits(
                value / 2,
                n,
            )[i] by {
                lemma_bit_of_step(value, (n - 1 - i) as nat);
                assert((size - 1 - i) as nat == (n - 1 - i) as nat + 1);
            }
        }
        lemma_bit_of_step(value, 0);
        assert(low_bits(value, size).last() == bit_of(value, 0));
        lemma_halves(value, p);
    }
}

} // verus!
