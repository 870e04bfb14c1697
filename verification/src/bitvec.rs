//! Assembled bits, and where in the source they come from.
use vstd::prelude::*;

use crate::bigint::{sized_integer, BigInt, IntegerView};
use crate::bits::low_bits;
use crate::diagn::Span;

verus! {

/// A run of bits that comes from one place of the source.
#[derive(Debug)]
pub struct BitSpan {
    /// The position of the first bit, if the bits are part of the output.
    pub offset: Option<usize>,
    pub size: usize,
    pub addr: BigInt,
    pub span: Span,
}

/// A row of bits that grows as it is written.
#[derive(Debug)]
pub struct BitVec {
    pub bits: Vec<bool>,
    pub spans: Vec<BitSpan>,
}

pub struct BitSpanView {
    pub offset: Option<usize>,
    pub size: usize,
    pub addr: IntegerView,
    pub span: Span,
}

#[verifier::ext_equal]
pub struct BitVecView {
    pub bits: Seq<bool>,
    pub spans: Seq<BitSpanView>,
}

impl View for BitSpan {
    type V = BitSpanView;

    open spec fn view(&self) -> BitSpanView {
        BitSpanView { offset: self.offset, size: self.size, addr: self.addr@, span: self.span }
    }
}

impl View for BitVec {
    type V = BitVecView;

    open spec fn view(&self) -> BitVecView {
        BitVecView { bits: self.bits@, spans: bit_spans(self.spans@) }
    }
}

pub open spec fn bit_spans(spans: Seq<BitSpan>) -> Seq<BitSpanView> {
    spans.map_values(|s: BitSpan| s@)
}

/// `bits` with `new` written over them from position `index` on. The gap that
/// this may leave holds zeros.
pub open spec fn written(bits: Seq<bool>, index: int, new: Seq<bool>) -> Seq<bool> {
    let len = if new.len() > 0 && bits.len() < index + new.len() {
        index + new.len()
    } else {
        bits.len() as int
    };
    Seq::new(
        len as nat,
        |i: int|
            if index <= i < index + new.len() {
                new[i - index]
            } else if i < bits.len() {
                bits[i]
            } else {
                false
            },
    )
}

/// `spans` moved by `offset` positions.
pub open spec fn shifted(offset: usize, spans: Seq<BitSpanView>) -> Seq<BitSpanView> {
    spans.map_values(
        |s: BitSpanView|
            BitSpanView {
                offset: match s.offset {
                    Some(o) => Some((o + offset) as usize),
                    None => None,
                },
                ..s
            },
    )
}

impl BitVecView {
    pub open spec fn empty() -> BitVecView {
        BitVecView { bits: Seq::empty(), spans: Seq::empty() }
    }

    /// These bits with `new` written from position `index` on.
    pub open spec fn write(self, index: int, new: Seq<bool>) -> BitVecView {
        BitVecView { bits: written(self.bits, index, new), ..self }
    }

    /// These bits with one more marked run.
    pub open spec fn mark(self, span: BitSpanView) -> BitVecView {
        BitVecView { spans: self.spans.push(span), ..self }
    }

    /// These bits with the marks of `other`, moved by `offset`.
    pub open spec fn mark_from(self, offset: usize, other: BitVecView) -> BitVecView {
        BitVecView { spans: self.spans + shifted(offset, other.spans), ..self }
    }

    /// Whether the marked runs, moved by `offset`, are at positions that a machine
    /// word can hold.
    pub open spec fn can_shift(self, offset: usize) -> bool {
        forall|i: int|
            #![trigger self.spans[i]]
            0 <= i < self.spans.len() ==> (self.spans[i].offset matches Some(o) ==> o + offset
                <= usize::MAX)
    }
}

impl BitVec {
    /// No bits.
    pub fn new() -> (r: BitVec)
        ensures
            r@ == BitVecView::empty(),
    {
        let r = BitVec { bits: Vec::new(), spans: Vec::new() };
        assert(r@ =~= BitVecView::empty());
        r
    }

    /// The number of bits.
    pub fn len(&self) -> (r: usize)
        ensures
            r == self@.bits.len(),
    {
        self.bits.len()
    }

    /// Writes one bit.
    pub fn write(&mut self, index: usize, bit: bool)
        requires
            index < usize::MAX,
        ensures
            final(self)@ == old(self)@.write(index as int, seq![bit]),
    {
        while self.bits.len() <= index
            invariant
                index < usize::MAX,
                self.spans == old(self).spans,
                self.bits@.len() <= old(self).bits@.len() || self.bits@.len() <= index + 1,
                self.bits@ =~= old(self).bits@ + Seq::new(
                    (self.bits@.len() - old(self).bits@.len()) as nat,
                    |i: int| false,
                ),
                self.bits@.len() >= old(self).bits@.len(),
            decreases index + 1 - self.bits@.len(),
        {
            self.bits.push(false);
        }
        self.bits.set(index, bit);
        assert(self@ =~= old(self)@.write(index as int, seq![bit]));
    }

    /// Writes the low bits of `bigint`, as many as its size says, most significant
    /// bit first.
    pub fn write_bigint(&mut self, index: usize, bigint: &BigInt)
        requires
            bigint.size matches Some(size) && index + size <= usize::MAX,
        ensures
            final(self)@ == old(self)@.write(
                index as int,
                low_bits(bigint@.value, bigint.size->Some_0 as nat),
            ),
    {
        if let Some(size) = bigint.size {
            let ghost all = low_bits(bigint@.value, size as nat);
            let mut i: usize = 0;
            assert(self@ =~= old(self)@.write(index as int, all.take(0)));
            while i < size
                invariant
                    i <= size,
                    index + size <= usize::MAX,
                    all == low_bits(bigint@.value, size as nat),
                    self@ == old(self)@.write(index as int, all.take(i as int)),
                decreases size - i,
            {
                let bit = bigint.get_bit(size - 1 - i);
                self.write(index + i, bit);
                proof {
                    assert(bit == all[i as int]);
                    assert(self@ =~= old(self)@.write(index as int, all.take(i + 1)));
                }
                i += 1;
            }
            assert(all.take(size as int) =~= all);
        }
    }

    /// Marks a run of bits.
    pub fn mark_span(&mut self, offset: Option<usize>, size: usize, addr: BigInt, span: Span)
        ensures
            final(self)@ == old(self)@.mark(BitSpanView { offset, size, addr: addr@, span }),
    {
        self.spans.push(BitSpan { offset, size, addr, span });
        assert(self@ =~= old(self)@.mark(BitSpanView { offset, size, addr: addr@, span }));
    }

    /// Writes the bits of `other` from position `index` on, marks included.
    pub fn write_bitvec(&mut self, index: usize, other: &BitVec)
        requires
            index + other@.bits.len() <= usize::MAX,
            other@.can_shift(index),
        ensures
            final(self)@ == old(self)@.write(index as int, other@.bits).mark_from(index, other@),
    {
        let len = other.bits.len();
        let mut i: usize = 0;
        assert(self@ =~= old(self)@.write(index as int, other@.bits.take(0)));
        while i < len
            invariant
                i <= len,
                len == other@.bits.len(),
                index + len <= usize::MAX,
                self@ == old(self)@.write(index as int, other@.bits.take(i as int)),
            decreases len - i,
        {
            self.write(index + i, other.bits[i]);
            assert(self@ =~= old(self)@.write(index as int, other@.bits.take(i + 1)));
            i += 1;
        }
        assert(other@.bits.take(len as int) =~= other@.bits);
        self.mark_spans_from(index, other);
    }

    /// Takes over the marks of `other`, moved by `offset`.
    pub fn mark_spans_from(&mut self, offset: usize, other: &BitVec)
        requires
            other@.can_shift(offset),
        ensures
            final(self)@ == old(self)@.mark_from(offset, other@),
    {
        let len = other.spans.len();
        let mut i: usize = 0;
        let ghost all = shifted(offset, other@.spans);
        while i < len
            invariant
                i <= len,
                len == other.spans@.len(),
                other@.can_shift(offset),
                all == shifted(offset, other@.spans),
                self@.bits == old(self)@.bits,
                self@.spans =~= old(self)@.spans + all.take(i as int),
            decreases len - i,
        {
            let s = &other.spans[i];
            assert(s@ == other@.spans[i as int]);
            let moved = match s.offset {
                Some(o) => Some(o + offset),
                None => None,
            };
            self.mark_span(moved, s.size, s.addr.clone(), s.span);
            i += 1;
        }
        assert(all.take(len as int) =~= all);
        assert(self@ =~= old(self)@.mark_from(offset, other@));
    }

    /// The natural number that the bits spell, as long as they are.
    pub fn as_bigint(&self) -> (r: BigInt)
        ensures
            r@ == sized_integer(self@.bits),
    {
        BigInt::from_bits_be(&self.bits)
    }
}

} // verus!
