use frequency_tree_compression::bitvec::{
    least_bytes_repr_for_bits, BitVec, BitVecDeserializationError, BitView,
};

#[test]
fn check_view_clone() {
    let expected = [true, true, false, true, false, true, false, true, true, true];

    let v = BitVec::from_bool_slice(&expected);
    let view = v.as_bit_view();

    let clone = view.clone();

    assert_eq!(clone.to_bool_slice(), view.to_bool_slice());
    assert_eq!(*clone.to_bool_slice(), expected)
}

#[test]
fn check_view_iter() {
    let expected = [true, true, false, true, false, true, false, true];

    let v = BitVec::from_bool_slice(&expected);

    let view = v.as_bit_view();

    assert_eq!(*view.to_bool_slice(), expected)
}

#[test]
fn bitvec_check_coherency() {
    let bools = [false, true, false, true, false, true];

    let v = BitVec::from_bool_slice(&bools);

    assert_eq!(bools.len(), v.len_bits());
    assert_eq!(v.least_len_bytes(), 1);

    assert_eq!(*v.to_bool_slice(), bools);
}

#[test]
fn check_extend() {
    let a = [true, false, false, true, false];
    let b = [true, false, false, false, false, true];
    let c = [true, false, false, true, false, true, false, false, false, false, true];

    let mut va = BitVec::from_bool_slice(&a);
    let vb = BitVec::from_bool_slice(&b);

    assert_eq!(*va.to_bool_slice(), a);
    assert_eq!(*vb.to_bool_slice(), b);

    va.extend_from_bits(&vb.as_bit_view());

    assert_eq!(*va.to_bool_slice(), c);
}

#[test]
fn check_serde() {
    let bools = [true, false, false, true, false, true, false, false, false, false, true];

    let v = BitVec::from_bool_slice(&bools);

    let ser = v.serialize();

    let des = BitVec::deserialize(&ser).unwrap();

    assert_eq!(v, des);
}

#[test]
fn serialized_form_is_padding_then_bytes() {
    let v = BitVec::from_bool_slice(&[true, false, true]);
    assert_eq!(v.serialize(), vec![5, 0b1010_0000]);
    let (bytes, padding) = v.as_padded_bytes();
    assert_eq!(bytes, &[0b1010_0000]);
    assert_eq!(padding, 5);
    assert_eq!(BitVec::new().serialize(), vec![0]);
}

#[test]
fn padding_stays_in_range_and_length_counts_appended_bits() {
    let mut v = BitVec::with_capacity(20);
    for i in 0..20usize {
        v.append_bit(i % 3 == 0);
        let (bytes, padding) = v.as_padded_bytes();
        assert!(padding <= 7);
        assert_eq!(v.len_bits(), i + 1);
        assert_eq!(bytes.len() * 8 - padding as usize, i + 1);
    }
    let other = BitVec::from_bool_slice(&[true; 13]);
    v.extend_from_bits(&other.as_bit_view());
    assert_eq!(v.len_bits(), 33);
    assert!(v.as_padded_bytes().1 <= 7);
}

#[test]
fn extend_aligned_and_misaligned_agree() {
    let tail = [true, true, false, true, false, false, true, true, true, false, true];
    let tail_vec = BitVec::from_bool_slice(&tail);

    // Aligned: eight bits first.
    let head8 = [false, true, true, false, true, false, false, true];
    let mut aligned = BitVec::from_bool_slice(&head8);
    aligned.extend_from_bits(&tail_vec.as_bit_view());
    let mut expected8: Vec<bool> = head8.to_vec();
    expected8.extend_from_slice(&tail);
    assert_eq!(aligned.to_bool_slice(), expected8);
    assert_eq!(aligned, BitVec::from_bool_slice(&expected8));

    // Misaligned: three bits first.
    let head3 = [true, false, true];
    let mut misaligned = BitVec::from_bool_slice(&head3);
    misaligned.extend_from_bits(&tail_vec.as_bit_view());
    let mut expected3: Vec<bool> = head3.to_vec();
    expected3.extend_from_slice(&tail);
    assert_eq!(misaligned.to_bool_slice(), expected3);
    assert_eq!(misaligned, BitVec::from_bool_slice(&expected3));
}

#[test]
fn extend_from_view_with_set_padding_bits() {
    // The view's padding bits are set; they must not show up after the copy.
    let bytes = [0b1011_1111u8];
    let view = BitView::from_padded_bytes(&bytes, 6);
    assert_eq!(view.to_bool_slice(), vec![true, false]);
    let mut v = BitVec::new();
    v.extend_from_bits(&view);
    v.append_bit(false);
    v.append_bit(true);
    assert_eq!(v.to_bool_slice(), vec![true, false, false, true]);
    assert_eq!(v.serialize(), vec![4, 0b1001_0000]);
}

#[test]
fn deserialize_errors() {
    assert_eq!(BitVec::deserialize(&[]), Err(BitVecDeserializationError::MissingPadding));
    assert_eq!(BitVec::deserialize(&[8, 0]), Err(BitVecDeserializationError::InvalidPadding(8)));
    assert_eq!(BitVec::deserialize(&[0]).unwrap().len_bits(), 0);
}

#[test]
fn lone_padding_byte_must_be_zero() {
    assert_eq!(BitVec::deserialize(&[0]).unwrap(), BitVec::new());
    assert_eq!(BitVec::deserialize(&[3]), Err(BitVecDeserializationError::InvalidPadding(3)));
    assert_eq!(BitVec::deserialize(&[200]), Err(BitVecDeserializationError::InvalidPadding(200)));
}

#[test]
fn deserialize_clears_padding_bits() {
    let v = BitVec::deserialize(&[4, 0xff]).unwrap();
    assert_eq!(v.to_bool_slice(), vec![true, true, true, true]);
    assert_eq!(v.serialize(), vec![4, 0xf0]);
}

#[test]
fn iterator_walks_every_bit_once() {
    let v = BitVec::from_bool_slice(&[true, false, true, true, false, false, false, false, true]);
    let mut it = v.iter_bits();
    let mut seen = Vec::new();
    while let Some(b) = it.next() {
        seen.push(b);
    }
    assert_eq!(seen, vec![true, false, true, true, false, false, false, false, true]);
    assert_eq!(it.next(), None);
}

#[test]
fn least_bytes_for_bits() {
    assert_eq!(least_bytes_repr_for_bits(0), 0);
    assert_eq!(least_bytes_repr_for_bits(1), 1);
    assert_eq!(least_bytes_repr_for_bits(8), 1);
    assert_eq!(least_bytes_repr_for_bits(9), 2);
}
