use roughenough::{Error, MerkleTree, RtMessage, Tag};
use sha2::{Digest, Sha512};

#[test]
fn encode_two_fields() {
    let mut m = RtMessage::new(2);
    m.add_field(Tag::SIG, &[1, 2, 3, 4]).unwrap();
    m.add_field(Tag::NONC, &[5, 6, 7, 8, 9, 10, 11, 12]).unwrap();
    let e = m.encode();
    let mut want = vec![2, 0, 0, 0, 4, 0, 0, 0];
    want.extend_from_slice(b"SIG\x00NONC");
    want.extend_from_slice(&[1, 2, 3, 4, 5, 6, 7, 8, 9, 10, 11, 12]);
    assert_eq!(e, want);
    assert_eq!(m.num_fields(), 2);
}

#[test]
fn encode_single_field() {
    let mut m = RtMessage::new(1);
    m.add_field(Tag::CERT, &[9; 8]).unwrap();
    let mut want = vec![1, 0, 0, 0];
    want.extend_from_slice(b"CERT");
    want.extend_from_slice(&[9; 8]);
    assert_eq!(m.encode(), want);
}

#[test]
fn add_field_rejects_out_of_order_tags() {
    let mut m = RtMessage::new(2);
    m.add_field(Tag::NONC, &[0; 4]).unwrap();
    assert_eq!(m.add_field(Tag::SIG, &[0; 4]), Err(Error::TagNotStrictlyIncreasing));
    assert_eq!(m.add_field(Tag::NONC, &[0; 4]), Err(Error::TagNotStrictlyIncreasing));
    assert_eq!(m.num_fields(), 1);
}

#[test]
fn get_field_finds_values() {
    let mut m = RtMessage::new(2);
    m.add_field(Tag::SIG, &[1; 4]).unwrap();
    m.add_field(Tag::PATH, &[2; 8]).unwrap();
    assert_eq!(m.get_field(Tag::PATH), Some(&[2u8; 8][..]));
    assert_eq!(m.get_field(Tag::SIG), Some(&[1u8; 4][..]));
    assert_eq!(m.get_field(Tag::ROOT), None);
}

#[test]
fn le_encodings() {
    assert_eq!(roughenough::le32_bytes(0x01020304), vec![4, 3, 2, 1]);
    assert_eq!(roughenough::le64_bytes(0x0102030405060708), vec![8, 7, 6, 5, 4, 3, 2, 1]);
}

fn h(prefix: u8, parts: &[&[u8]]) -> Vec<u8> {
    let mut d = vec![prefix];
    for p in parts {
        d.extend_from_slice(p);
    }
    Sha512::digest(&d)[..32].to_vec()
}

#[test]
fn merkle_single_leaf_root_is_leaf_hash() {
    let mut t = MerkleTree::new();
    t.push_leaf(&[0x41; 64]);
    assert_eq!(t.compute_root(), h(0, &[&[0x41; 64]]));
    assert!(t.get_paths(0).is_empty());
}

#[test]
fn merkle_three_leaves_promote_last() {
    let mut t = MerkleTree::new();
    for b in [1u8, 2, 3] {
        t.push_leaf(&[b; 64]);
    }
    let l: Vec<Vec<u8>> = [1u8, 2, 3].iter().map(|b| h(0, &[&[*b; 64]])).collect();
    let n01 = h(1, &[&l[0], &l[1]]);
    assert_eq!(t.compute_root(), h(1, &[&n01, &l[2]]));
    assert_eq!(t.get_paths(0), [l[1].clone(), l[2].clone()].concat());
    assert_eq!(t.get_paths(2), n01);
}

#[test]
fn merkle_reset_then_same_leaves_same_root() {
    let mut t = MerkleTree::new();
    t.push_leaf(&[1; 64]);
    t.push_leaf(&[2; 64]);
    let r1 = t.compute_root();
    t.reset();
    assert_eq!(t.num_leaves(), 0);
    t.push_leaf(&[9; 64]);
    t.compute_root();
    t.reset();
    t.push_leaf(&[1; 64]);
    t.push_leaf(&[2; 64]);
    assert_eq!(t.compute_root(), r1);
}

#[test]
fn decode_round_trip() {
    let mut m = RtMessage::new(3);
    m.add_field(Tag::SIG, &[1; 64]).unwrap();
    m.add_field(Tag::PATH, &[]).unwrap();
    m.add_field(Tag::INDX, &[7, 0, 0, 0]).unwrap();
    let bytes = m.encode();
    let d = RtMessage::decode(&bytes).unwrap();
    assert_eq!(d.num_fields(), 3);
    assert_eq!(d.get_field(Tag::SIG), Some(&[1u8; 64][..]));
    assert_eq!(d.get_field(Tag::PATH), Some(&[][..]));
    assert_eq!(d.get_field(Tag::INDX), Some(&[7u8, 0, 0, 0][..]));
    assert_eq!(d.encode(), bytes);
}

#[test]
fn decode_rejects_zero_fields() {
    assert_eq!(RtMessage::decode(&[0, 0, 0, 0]).err(), Some(Error::InvalidMessage));
    assert_eq!(RtMessage::decode(&[1, 0]).err(), Some(Error::InvalidMessage));
}

#[test]
fn decode_rejects_non_monotonic_offsets() {
    let mut b = vec![3, 0, 0, 0, 8, 0, 0, 0, 4, 0, 0, 0];
    b.extend_from_slice(b"SIG\x00PATHINDX");
    b.extend_from_slice(&[0; 12]);
    assert_eq!(RtMessage::decode(&b).err(), Some(Error::InvalidMessage));
    b[8] = 8;
    assert!(RtMessage::decode(&b).is_ok());
}

#[test]
fn decode_rejects_unsorted_tags() {
    let mut b = vec![2, 0, 0, 0, 4, 0, 0, 0];
    b.extend_from_slice(b"PATHSIG\x00");
    b.extend_from_slice(&[0; 8]);
    assert_eq!(RtMessage::decode(&b).err(), Some(Error::InvalidMessage));
}

#[test]
fn decode_rejects_length_beyond_buffer() {
    let mut b = vec![2, 0, 0, 0, 40, 0, 0, 0];
    b.extend_from_slice(b"SIG\x00PATH");
    b.extend_from_slice(&[0; 8]);
    assert_eq!(RtMessage::decode(&b).err(), Some(Error::InvalidMessage));
    assert_eq!(RtMessage::decode(&[200, 0, 0, 0, 0, 0, 0, 0]).err(), Some(Error::InvalidMessage));
}
