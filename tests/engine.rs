use sha2::{Digest, Sha256};
use ssz_stream::root::{compute_root_from_chunks, root_of, ssz_stream_root_from_slice};
use ssz_stream::types::{Descriptor, SszError, TypeDesc, TypeKind};

fn sha(left: &[u8; 32], right: &[u8; 32]) -> [u8; 32] {
    let mut h = Sha256::new();
    h.update(left);
    h.update(right);
    let mut out = [0u8; 32];
    out.copy_from_slice(&h.finalize());
    out
}

fn zero(h: usize) -> [u8; 32] {
    let mut z = [0u8; 32];
    for _ in 0..h {
        z = sha(&z, &z);
    }
    z
}

fn len_chunk(n: u64) -> [u8; 32] {
    let mut c = [0u8; 32];
    c[..8].copy_from_slice(&n.to_le_bytes());
    c
}

fn chunk(bytes: &[u8]) -> [u8; 32] {
    let mut c = [0u8; 32];
    c[..bytes.len()].copy_from_slice(bytes);
    c
}

fn basic(size: usize) -> Descriptor {
    Descriptor::Basic { size }
}

fn list(element: Descriptor, limit: usize) -> Descriptor {
    Descriptor::List { element: Box::new(element), limit }
}

fn vector(element: Descriptor, length: usize) -> Descriptor {
    Descriptor::Vector { element: Box::new(element), length }
}

fn pair() -> Descriptor {
    Descriptor::Container { fields: vec![basic(8), basic(8)] }
}

#[test]
fn uint64_zero_root_is_zero_chunk() {
    let r = root_of(&basic(8), &[0u8; 8]).unwrap();
    assert_eq!(r, [0u8; 32]);
}

#[test]
fn uint64_root_is_padded_bytes() {
    let r = root_of(&basic(8), &[0xff, 0, 0, 0, 0, 0, 0, 0]).unwrap();
    let mut expected = [0u8; 32];
    expected[0] = 0xff;
    assert_eq!(r, expected);
}

#[test]
fn empty_uint64_list_mixes_zero_subtree() {
    let r = root_of(&list(basic(8), 1024), &[]).unwrap();
    assert_eq!(r, sha(&zero(8), &len_chunk(0)));
}

#[test]
fn bitlist_four_bits() {
    let d = Descriptor::Bitlist { limit: 4 };
    let r = root_of(&d, &[0x10]).unwrap();
    assert_eq!(r, sha(&[0u8; 32], &len_chunk(4)));
}

#[test]
fn bitlist_payload_bits_are_kept() {
    let d = Descriptor::Bitlist { limit: 8 };
    let r = root_of(&d, &[0x1b]).unwrap();
    assert_eq!(r, sha(&chunk(&[0x0b]), &len_chunk(4)));
}

#[test]
fn bitlist_full_byte_drops_sentinel_byte() {
    let d = Descriptor::Bitlist { limit: 8 };
    let r = root_of(&d, &[0xff, 0x01]).unwrap();
    assert_eq!(r, sha(&chunk(&[0xff]), &len_chunk(8)));
}

#[test]
fn bitlist_without_sentinel_fails() {
    let d = Descriptor::Bitlist { limit: 4 };
    assert_eq!(root_of(&d, &[0x00]), Err(SszError::BitlistPadding));
    assert_eq!(root_of(&d, &[0x10, 0x00]), Err(SszError::BitlistPadding));
}

#[test]
fn bitlist_over_limit_fails() {
    let d = Descriptor::Bitlist { limit: 4 };
    assert_eq!(root_of(&d, &[0x20]), Err(SszError::LengthOverflow));
}

#[test]
fn empty_bitlist_is_zero_subtree() {
    let d = Descriptor::Bitlist { limit: 2048 };
    let r = root_of(&d, &[0x01]).unwrap();
    assert_eq!(r, sha(&zero(3), &len_chunk(0)));
}

#[test]
fn container_of_two_uint64() {
    let mut data = [0u8; 16];
    data[0] = 1;
    data[8] = 2;
    let r = root_of(&pair(), &data).unwrap();
    assert_eq!(r, sha(&chunk(&[1]), &chunk(&[2])));
}

#[test]
fn container_wrong_size_fails() {
    assert_eq!(root_of(&pair(), &[0u8; 15]), Err(SszError::MalformedHeader));
}

#[test]
fn container_without_fields_fails() {
    let d = Descriptor::Container { fields: vec![] };
    assert_eq!(root_of(&d, &[]), Err(SszError::UnsupportedType));
}

#[test]
fn unsupported_basic_size_fails() {
    assert_eq!(root_of(&basic(3), &[0u8; 3]), Err(SszError::UnsupportedType));
}

#[test]
fn uint64_list_packs_and_mixes_count() {
    let mut data = [0u8; 24];
    data[0] = 1;
    data[8] = 2;
    data[16] = 3;
    let r = root_of(&list(basic(8), 8), &data).unwrap();
    let mut c = [0u8; 32];
    c[..24].copy_from_slice(&data);
    assert_eq!(r, sha(&sha(&c, &[0u8; 32]), &len_chunk(3)));
}

#[test]
fn uint64_list_over_limit_fails() {
    assert_eq!(root_of(&list(basic(8), 2), &[0u8; 24]), Err(SszError::LengthOverflow));
}

#[test]
fn uint64_vector_packs_without_mixin() {
    let data = [7u8; 64];
    let r = root_of(&vector(basic(8), 8), &data).unwrap();
    assert_eq!(r, sha(&[7u8; 32], &[7u8; 32]));
    assert_eq!(root_of(&vector(basic(8), 8), &data[..56]), Err(SszError::NonCanonical));
}

#[test]
fn list_of_containers_roots_each_element() {
    let mut data = [0u8; 32];
    data[0] = 1;
    data[8] = 2;
    data[16] = 3;
    data[24] = 4;
    let r = root_of(&list(pair(), 4), &data).unwrap();
    let e0 = sha(&chunk(&[1]), &chunk(&[2]));
    let e1 = sha(&chunk(&[3]), &chunk(&[4]));
    assert_eq!(r, sha(&sha(&sha(&e0, &e1), &zero(1)), &len_chunk(2)));
}

#[test]
fn list_of_lists_reads_offsets() {
    let inner = list(basic(1), 4);
    // two elements: [0xaa] and [0xbb, 0xcc]
    let data = [8u8, 0, 0, 0, 9, 0, 0, 0, 0xaa, 0xbb, 0xcc];
    let r = root_of(&list(inner, 2), &data).unwrap();
    let e0 = sha(&chunk(&[0xaa]), &len_chunk(1));
    let e1 = sha(&chunk(&[0xbb, 0xcc]), &len_chunk(2));
    assert_eq!(r, sha(&sha(&e0, &e1), &len_chunk(2)));
}

#[test]
fn decreasing_offsets_fail() {
    let inner = list(basic(1), 4);
    let data = [8u8, 0, 0, 0, 7, 0, 0, 0, 0xaa, 0xbb, 0xcc];
    assert_eq!(root_of(&list(inner, 2), &data), Err(SszError::BadOffset));
}

#[test]
fn misaligned_first_offset_fails() {
    let inner = list(basic(1), 4);
    let data = [6u8, 0, 0, 0, 0, 0, 0xaa];
    assert_eq!(root_of(&list(inner, 2), &data), Err(SszError::BadOffset));
}

#[test]
fn short_offset_table_fails() {
    let inner = list(basic(1), 4);
    assert_eq!(root_of(&list(inner, 2), &[8u8, 0]), Err(SszError::UnexpectedEOF));
}

#[test]
fn vector_of_lists_checks_first_offset() {
    let data = [8u8, 0, 0, 0, 8, 0, 0, 0];
    let r = root_of(&vector(list(basic(1), 4), 2), &data).unwrap();
    let empty = sha(&[0u8; 32], &len_chunk(0));
    assert_eq!(r, sha(&empty, &empty));
    let bad = [4u8, 0, 0, 0, 8, 0, 0, 0];
    assert_eq!(root_of(&vector(list(basic(1), 4), 2), &bad), Err(SszError::BadOffset));
}

#[test]
fn bitvector_checks_excess_bits() {
    let d = Descriptor::Bitvector { length: 4 };
    assert_eq!(root_of(&d, &[0x0f]).unwrap(), chunk(&[0x0f]));
    assert_eq!(root_of(&d, &[0x1f]), Err(SszError::BitlistPadding));
    assert_eq!(root_of(&d, &[0x0f, 0]), Err(SszError::NonCanonical));
}

#[test]
fn root_of_is_deterministic() {
    let data = [5u8; 40];
    let d = list(basic(8), 16);
    assert_eq!(root_of(&d, &data), root_of(&d, &data));
}

#[test]
fn chunks_give_the_same_root_as_bytes() {
    let data = [9u8; 40];
    let d = list(basic(8), 16);
    let chunks = vec![[9u8; 32], chunk(&[9u8; 8])];
    // 16 elements of 8 bytes fill 4 chunks: depth 2
    let from_chunks = compute_root_from_chunks(&chunks, 2, Some(5)).unwrap();
    assert_eq!(root_of(&d, &data).unwrap(), from_chunks);
}

#[test]
fn chunks_pad_with_zero_subtrees() {
    let c = [[1u8; 32], [2u8; 32], [3u8; 32]];
    let r = compute_root_from_chunks(&c.to_vec(), 2, None).unwrap();
    assert_eq!(r, sha(&sha(&c[0], &c[1]), &sha(&c[2], &[0u8; 32])));
    let none = compute_root_from_chunks(&vec![], 5, None).unwrap();
    assert_eq!(none, zero(5));
}

#[test]
fn chunks_beyond_capacity_fail() {
    let c = vec![[0u8; 32]; 3];
    assert_eq!(compute_root_from_chunks(&c, 1, None), Err(SszError::LengthOverflow));
    assert_eq!(compute_root_from_chunks(&c, 65, None), Err(SszError::UnsupportedType));
}

#[test]
fn compact_descriptor_without_size_fails() {
    let td = TypeDesc { kind: TypeKind::List, fixed_size: None };
    assert_eq!(ssz_stream_root_from_slice(&td, &[]), Err(SszError::UnsupportedType));
}

fn mixed() -> Descriptor {
    Descriptor::Container { fields: vec![basic(8), list(basic(1), 4), basic(2)] }
}

#[test]
fn mixed_container_reads_offsets() {
    let data = [1u8, 0, 0, 0, 0, 0, 0, 0, 14, 0, 0, 0, 5, 0, 0xaa, 0xbb];
    let r = root_of(&mixed(), &data).unwrap();
    let f0 = chunk(&[1]);
    let f1 = sha(&chunk(&[0xaa, 0xbb]), &len_chunk(2));
    let f2 = chunk(&[5]);
    assert_eq!(r, sha(&sha(&f0, &f1), &sha(&f2, &[0u8; 32])));
}

#[test]
fn mixed_container_first_offset_must_follow_fixed_part() {
    let data = [1u8, 0, 0, 0, 0, 0, 0, 0, 13, 0, 0, 0, 5, 0, 0xaa, 0xbb];
    assert_eq!(root_of(&mixed(), &data), Err(SszError::BadOffset));
}

#[test]
fn mixed_container_shorter_than_fixed_part_fails() {
    assert_eq!(root_of(&mixed(), &[0u8; 10]), Err(SszError::UnexpectedEOF));
}

#[test]
fn mixed_container_decreasing_offsets_fail() {
    let d = Descriptor::Container { fields: vec![list(basic(1), 4), list(basic(1), 4)] };
    let good = [8u8, 0, 0, 0, 9, 0, 0, 0, 0xaa, 0xbb];
    let f0 = sha(&chunk(&[0xaa]), &len_chunk(1));
    let f1 = sha(&chunk(&[0xbb]), &len_chunk(1));
    assert_eq!(root_of(&d, &good).unwrap(), sha(&f0, &f1));
    let bad = [8u8, 0, 0, 0, 7, 0, 0, 0, 0xaa, 0xbb];
    assert_eq!(root_of(&d, &bad), Err(SszError::BadOffset));
}

#[test]
fn test_validate_bitlist() {
    let valid = vec![0b00000001u8];
    assert!(ssz_stream::root::validate_bitlist(&valid).is_ok());
    let invalid = vec![0b00000000u8];
    assert!(ssz_stream::root::validate_bitlist(&invalid).is_err());
}
