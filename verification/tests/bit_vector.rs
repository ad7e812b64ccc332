use huffman::bit_vector::BitVector;

fn from_bool_iter(values: impl Iterator<Item = bool>) -> BitVector {
    let collected: Vec<bool> = values.collect();
    BitVector::from_bools(&collected)
}

fn collect_bytes(bits: &BitVector) -> Vec<u8> {
    let mut stream = bits.bytes();
    let mut out = vec![];
    while let Some(byte) = stream.next() {
        out.push(byte);
    }
    out
}

#[test]
fn test_get_set() {
    let mut bit_vec = from_bool_iter(std::iter::repeat(false).take(1000));
    for i in 1000..2000 {
        assert_eq!(bit_vec.set(i, false), None)
    }
    for i in 0..1000 {
        let fill_value = i & 1 > 0;
        for j in 0..1000 {
            assert_eq!(bit_vec.set(j, (j == i) ^ fill_value), Some(()))
        }
        for j in 0..1000 {
            assert_eq!(bit_vec.get(j), Some((j == i) ^ fill_value))
        }
    }
}

#[test]
fn test_push_pop() {
    for one_spacing in 1..100 {
        let mut bit_vec = BitVector::new();
        for i in 0..1000 {
            assert_eq!(bit_vec.len(), i);
            bit_vec.push(i % one_spacing == 0);
        }
        for i in 0..1000 {
            assert_eq!(bit_vec.get(i), Some(i % one_spacing == 0))
        }
        for i in 1000..1100 {
            assert_eq!(bit_vec.get(i), None)
        }
        for i in (0..1000).rev() {
            assert_eq!(bit_vec.pop(), Some(i % one_spacing == 0))
        }
        for _ in 0..100 {
            assert_eq!(bit_vec.pop(), None)
        }
    }
}

#[test]
fn test_fill() {
    let mut bit_vec = from_bool_iter(std::iter::repeat(false).take(100000));
    assert_eq!(bit_vec.len(), 100000);
    for i in 0..100000 {
        assert_eq!(bit_vec.get(i), Some(false))
    }
    bit_vec.fill(true);
    assert_eq!(bit_vec.len(), 100000);
    for i in 0..100000 {
        assert_eq!(bit_vec.get(i), Some(true))
    }
    bit_vec.fill(false);
    assert_eq!(bit_vec.len(), 100000);
    for i in 0..100000 {
        assert_eq!(bit_vec.get(i), Some(false))
    }
}

#[test]
fn test_bytes() {
    // Test partial bytes
    let mut bit_vec = BitVector::new();
    assert_eq!(collect_bytes(&bit_vec), []);
    bit_vec.push(true);
    assert_eq!(collect_bytes(&bit_vec), [0b1]);
    bit_vec.push(false);
    assert_eq!(collect_bytes(&bit_vec), [0b01]);
    bit_vec.push(true);
    assert_eq!(collect_bytes(&bit_vec), [0b101]);
    bit_vec.push(false);
    assert_eq!(collect_bytes(&bit_vec), [0b0101]);
    bit_vec.push(true);
    assert_eq!(collect_bytes(&bit_vec), [0b10101]);
    bit_vec.push(false);
    assert_eq!(collect_bytes(&bit_vec), [0b010101]);
    bit_vec.push(true);
    assert_eq!(collect_bytes(&bit_vec), [0b1010101]);
    bit_vec.push(false);
    assert_eq!(collect_bytes(&bit_vec), [0b01010101]);
    bit_vec.pop();
    bit_vec.pop();
    assert_eq!(collect_bytes(&bit_vec), [0b010101]);

    // Test multiple bytes and words
    bit_vec.clear();
    for i in 0..=255u16 {
        let mut byte = i as u8;
        for _ in 0..8 {
            bit_vec.push(byte & 1 > 0);
            byte >>= 1;
        }
        let expected: Vec<u8> = (0..=i).map(|b| b as u8).collect();
        assert_eq!(collect_bytes(&bit_vec), expected);
    }
}

#[test]
fn test_byte_packing_three_bits() {
    // The bits [1, 0, 1] pack into exactly one byte, 0b101, with the unused
    // high positions zero.
    let bits = BitVector::from_bools(&vec![true, false, true]);
    let mut stream = bits.bytes();
    assert_eq!(stream.next(), Some(0b101));
    assert_eq!(stream.next(), None);
}

#[test]
fn test_byte_packing_nine_bits() {
    // Nine alternating bits pack into two bytes; the second holds only the
    // ninth bit, in position zero.
    let bits = BitVector::from_bools(&vec![
        true, false, true, false, true, false, true, false, true,
    ]);
    let mut stream = bits.bytes();
    assert_eq!(stream.next(), Some(0b01010101));
    assert_eq!(stream.next(), Some(0b1));
    assert_eq!(stream.next(), None);
}

#[test]
fn test_clear_and_capacity() {
    let mut bit_vec = BitVector::with_capacity(200);
    for i in 0..150 {
        bit_vec.push(i % 3 == 0);
    }
    assert!(bit_vec.capacity() >= 150);
    bit_vec.clear();
    assert_eq!(bit_vec.len(), 0);
    assert!(bit_vec.is_empty());
    assert_eq!(bit_vec.get(0), None);
}

#[test]
fn test_extend_and_eq() {
    let mut left = BitVector::from_bools(&vec![true, true, false]);
    let right = BitVector::from_bools(&vec![false, true]);
    left.extend(&right);
    assert_eq!(
        left,
        BitVector::from_bools(&vec![true, true, false, false, true])
    );
    assert_ne!(left, right);
}

#[test]
fn test_iterators() {
    let bits = BitVector::from_bools(&vec![true, false, true]);
    let mut iter = bits.iter();
    assert_eq!(iter.next(), Some(true));
    assert_eq!(iter.next(), Some(false));
    assert_eq!(iter.next(), Some(true));
    assert_eq!(iter.next(), None);
    let mut into_iter = bits.into_iter();
    assert_eq!(into_iter.next(), Some(true));
    assert_eq!(into_iter.next(), Some(false));
    assert_eq!(into_iter.next(), Some(true));
    assert_eq!(into_iter.next(), None);
}
