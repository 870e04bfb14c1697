use asm_state::bigint::BigInt;
use asm_state::bitvec::BitVec;
use asm_state::diagn::Span;

fn span(start: usize) -> Span {
    Span { file: 0, start, end: start + 1 }
}

fn num(n: i64) -> BigInt {
    let mut bits = Vec::new();
    for i in 0..64 {
        bits.push((n >> i) & 1 == 1);
    }
    BigInt { bits, size: None }
}

fn sized(n: i64, size: usize) -> BigInt {
    let mut b = num(n);
    b.size = Some(size);
    b
}

fn to_i64(b: &BigInt) -> i64 {
    let mut n: i64 = 0;
    for i in 0..64 {
        if b.get_bit(i) {
            n |= 1 << i;
        }
    }
    n
}

fn bits(text: &str) -> Vec<bool> {
    text.chars().map(|c| c == '1').collect()
}

#[test]
fn integers_from_usize() {
    assert_eq!(to_i64(&BigInt::from_usize(0)), 0);
    assert_eq!(to_i64(&BigInt::from_usize(1)), 1);
    assert_eq!(to_i64(&BigInt::from_usize(0x1234_5678)), 0x1234_5678);
    assert_eq!(BigInt::from_usize(7).size, None);
    let max = BigInt::from_usize(usize::MAX);
    assert_eq!(max.sign(), 1);
    assert_eq!(max.min_size(), usize::BITS as usize);
}

#[test]
fn integer_sums() {
    let cases: [i64; 9] = [0, 1, -1, 2, -2, 127, -128, 65_535, -1_000_000_007];
    for a in cases {
        for b in cases {
            let sum = num(a).plus(&num(b));
            assert_eq!(to_i64(&sum), a + b, "{} + {}", a, b);
            assert_eq!(sum.size, None);
        }
    }
    let carried = BigInt::from_usize(usize::MAX).plus(&BigInt::from_usize(1));
    assert_eq!(carried.min_size(), usize::BITS as usize + 1);
    assert!(carried.get_bit(usize::BITS as usize));
    assert!(!carried.get_bit(0));
}

#[test]
fn integer_signs() {
    assert_eq!(num(0).sign(), 0);
    assert_eq!(num(5).sign(), 1);
    assert_eq!(num(-5).sign(), -1);
    assert_eq!(BigInt { bits: vec![], size: None }.sign(), 0);
    assert_eq!(BigInt { bits: vec![true], size: None }.sign(), -1);
}

#[test]
fn integer_sizes() {
    let cases: [(i64, usize); 12] = [
        (0, 1),
        (1, 1),
        (2, 2),
        (3, 2),
        (127, 7),
        (128, 8),
        (255, 8),
        (256, 9),
        (-1, 1),
        (-2, 2),
        (-128, 8),
        (-129, 9),
    ];
    for (n, size) in cases {
        assert_eq!(num(n).min_size(), size, "{}", n);
    }
}

#[test]
fn integers_from_bytes() {
    let b = BigInt::from_bytes_be(&vec![0x00, 0xab, 0x01]);
    assert_eq!(to_i64(&b), 0xab01);
    assert_eq!(b.size, Some(24));
    let none = BigInt::from_bytes_be(&vec![]);
    assert_eq!(none.sign(), 0);
    assert_eq!(none.size, Some(0));
}

#[test]
fn bits_come_back() {
    let all = bits("0010110111");
    let b = BigInt::from_bits_be(&all);
    assert_eq!(to_i64(&b), 0b0010110111);
    assert_eq!(b.size, Some(10));
    let mut v = BitVec::new();
    v.write_bigint(0, &b);
    assert_eq!(v.bits, all);
    assert_eq!(to_i64(&v.as_bigint()), 0b0010110111);
}

#[test]
fn writing_leaves_zeros_in_a_gap() {
    let mut v = BitVec::new();
    v.write(3, true);
    assert_eq!(v.bits, bits("0001"));
    v.write(1, true);
    assert_eq!(v.bits, bits("0101"));
    v.write(1, false);
    assert_eq!(v.bits, bits("0001"));
    assert_eq!(v.len(), 4);
}

#[test]
fn writing_integers() {
    let mut v = BitVec::new();
    v.write_bigint(4, &sized(0xa5, 8));
    assert_eq!(v.bits, bits("000010100101"));
    v.write_bigint(0, &sized(-1, 3));
    assert_eq!(v.bits, bits("111010100101"));
    v.write_bigint(100, &sized(7, 0));
    assert_eq!(v.len(), 12);
    v.write_bigint(0, &sized(0x1f0, 4));
    assert_eq!(v.bits, bits("000010100101"));
}

#[test]
fn writing_bits_and_marks() {
    let mut inner = BitVec::new();
    inner.write_bigint(0, &sized(2, 2));
    inner.mark_span(Some(0), 2, num(8), span(1));
    inner.mark_span(None, 0, num(9), span(2));
    let mut outer = BitVec::new();
    outer.write_bitvec(3, &inner);
    assert_eq!(outer.bits, bits("00010"));
    assert_eq!(outer.spans.len(), 2);
    assert_eq!(outer.spans[0].offset, Some(3));
    assert_eq!(outer.spans[0].size, 2);
    assert_eq!(to_i64(&outer.spans[0].addr), 8);
    assert_eq!(outer.spans[0].span, span(1));
    assert_eq!(outer.spans[1].offset, None);
    let mut marked = BitVec::new();
    marked.mark_spans_from(5, &inner);
    assert_eq!(marked.len(), 0);
    assert_eq!(marked.spans[0].offset, Some(5));
}
