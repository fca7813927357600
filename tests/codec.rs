use arroy::{is_leaf_record, DecodeError, DimensionMismatch, Metadata, Node, SizeMismatch, UnalignedVector};

fn f32_bytes(v: &[f32]) -> Vec<u8> {
    v.iter().flat_map(|x| x.to_le_bytes()).collect()
}

#[test]
fn descendants_record() {
    let n = Node::Descendants { descendants: vec![0, 258] };
    let b = n.encode();
    assert_eq!(b, vec![1, 0, 0, 0, 0, 2, 1, 0, 0]);
    match Node::decode(&b, 4).unwrap() {
        Node::Descendants { descendants } => assert_eq!(descendants, vec![0, 258]),
        other => panic!("{other:?}"),
    }
}

#[test]
fn split_plane_record() {
    let normal = f32_bytes(&[0.57735026, 0.57735026, 0.57735026]);
    let n = Node::SplitPlaneNormal { normal: normal.clone(), left: 0, right: 4 };
    let b = n.encode();
    assert_eq!(&b[..9], &[2, 0, 0, 0, 0, 4, 0, 0, 0]);
    assert_eq!(&b[9..], &normal[..]);
    match Node::decode(&b, 4).unwrap() {
        Node::SplitPlaneNormal { normal: m, left, right } => {
            assert_eq!((m, left, right), (normal, 0, 4));
        }
        other => panic!("{other:?}"),
    }
}

#[test]
fn leaf_record_round_trip() {
    let header = 5f32.sqrt().to_le_bytes().to_vec();
    let vector = f32_bytes(&[0.0, 1.0, 2.0]);
    let n = Node::new_leaf(header.clone(), vector.clone(), 3).unwrap();
    let b = n.encode();
    assert_eq!(b.len(), 1 + 4 + 12);
    assert_eq!(b[0], 0);
    assert!(is_leaf_record(&b));
    match Node::decode(&b, 4).unwrap() {
        Node::Leaf { header: h, vector: v } => {
            assert_eq!(f32::from_le_bytes(h[..].try_into().unwrap()), 2.236068);
            assert_eq!(v, vector);
        }
        other => panic!("{other:?}"),
    }
}

#[test]
fn leaf_with_wrong_dimensions() {
    let r = Node::new_leaf(vec![0; 4], f32_bytes(&[1.0, 2.0]), 3);
    assert_eq!(r.unwrap_err(), DimensionMismatch { expected: 3, received: 2 });
}

#[test]
fn bad_records() {
    assert_eq!(Node::decode(&[], 4).unwrap_err(), DecodeError::Empty);
    assert_eq!(Node::decode(&[9, 0], 4).unwrap_err(), DecodeError::UnknownTag);
    assert_eq!(Node::decode(&[1, 0, 0], 4).unwrap_err(), DecodeError::BadLength);
    assert_eq!(Node::decode(&[2, 0, 0, 0, 0, 0, 0, 0], 4).unwrap_err(), DecodeError::BadLength);
    assert_eq!(Node::decode(&[0, 1, 2], 4).unwrap_err(), DecodeError::BadLength);
    assert!(!is_leaf_record(&[1, 0, 0, 0, 0]));
    assert!(!is_leaf_record(&[]));
}

#[test]
fn metadata_record() {
    let m = Metadata { dimensions: 3, roots: vec![1, 2] };
    let b = m.encode();
    assert_eq!(b, vec![0, 3, 0, 0, 0, 2, 0, 0, 0, 1, 0, 0, 0, 2, 0, 0, 0]);
    let d = Metadata::decode(&b).unwrap();
    assert_eq!((d.dimensions, d.roots), (3, vec![1, 2]));
    assert_eq!(Metadata::decode(&b[..13]).unwrap_err(), DecodeError::BadLength);
    assert_eq!(Metadata::decode(&[1; 9]).unwrap_err(), DecodeError::UnknownTag);
    assert_eq!(Metadata::decode(&[]).unwrap_err(), DecodeError::Empty);
}

#[test]
fn unaligned_vector_sizes() {
    assert_eq!(UnalignedVector::from_bytes(&[1, 2, 3]).unwrap_err(), SizeMismatch);
    let v = UnalignedVector::from_bytes(&f32_bytes(&[1.5, -2.0])).unwrap();
    assert_eq!(v.len(), 2);
    assert_eq!(v.as_bytes(), &f32_bytes(&[1.5, -2.0])[..]);
    assert_eq!(UnalignedVector::from_bytes(&[]).unwrap().len(), 0);
    assert_eq!(v.into_bytes(), f32_bytes(&[1.5, -2.0]));
}
