//! Byte encoding of nodes: round trips, validation, and error cases.

use circuit_opt::codec::{decode_node, encode_node, u8_to_u64_array, DecodeError};
use circuit_opt::field::{modulus, FrElement, U256};
use circuit_opt::graph::Node;
use circuit_opt::ops::Operation;

fn u(x: u64) -> U256 {
    U256 { l0: x, l1: 0, l2: 0, l3: 0 }
}

fn roundtrip(n: Node) {
    let bytes = encode_node(&n);
    let (back, used) = decode_node(&bytes).expect("decode failed");
    assert_eq!(back, n);
    assert_eq!(used, bytes.len());
}

#[test]
fn roundtrip_input() {
    roundtrip(Node::Input(0));
    roundtrip(Node::Input(123456789));
}

#[test]
fn roundtrip_constant() {
    roundtrip(Node::Constant(u(0)));
    roundtrip(Node::Constant(U256 {
        l0: u64::MAX,
        l1: 1,
        l2: 0xdead,
        l3: u64::MAX,
    }));
}

#[test]
fn roundtrip_mont_constant() {
    roundtrip(Node::MontConstant(FrElement { rep: u(12345) }));
    let m = modulus();
    let max_residue = U256 { l0: m.l0 - 1, l1: m.l1, l2: m.l2, l3: m.l3 };
    roundtrip(Node::MontConstant(FrElement { rep: max_residue }));
}

#[test]
fn roundtrip_op() {
    roundtrip(Node::Op(Operation::Add, 0, 1));
    roundtrip(Node::Op(Operation::Shl, 7, 3));
    roundtrip(Node::Op(Operation::MMul, 2, 2));
}

#[test]
fn decode_empty_is_truncated() {
    assert_eq!(decode_node(&[]), Err(DecodeError::Truncated));
}

#[test]
fn decode_unknown_tag() {
    assert_eq!(decode_node(&[9u8]), Err(DecodeError::BadTag));
}

#[test]
fn decode_truncated_payloads() {
    assert_eq!(decode_node(&[0u8, 1, 2]), Err(DecodeError::Truncated));
    let mut short = vec![1u8];
    short.extend_from_slice(&[0u8; 10]);
    assert_eq!(decode_node(&short), Err(DecodeError::Truncated));
}

#[test]
fn decode_bad_operation_code() {
    let mut bytes = vec![3u8, 14u8];
    bytes.extend_from_slice(&[0u8; 16]);
    assert_eq!(decode_node(&bytes), Err(DecodeError::BadOperation));
}

#[test]
fn decode_bad_length_prefix() {
    let mut bytes = vec![2u8, 31u8];
    bytes.extend_from_slice(&[0u8; 32]);
    assert_eq!(decode_node(&bytes), Err(DecodeError::BadLength));
}

#[test]
fn decode_rejects_non_canonical_field_element() {
    // The modulus itself is not a valid representative.
    let bytes = encode_node(&Node::MontConstant(FrElement { rep: modulus() }));
    assert_eq!(decode_node(&bytes), Err(DecodeError::NonCanonical));
}

#[test]
fn bytes_to_limbs_little_endian() {
    let mut input = [0u8; 32];
    input[0] = 1;
    input[8] = 2;
    input[9] = 1;
    input[16] = 3;
    input[31] = 0x80;
    let out = u8_to_u64_array(&input);
    assert_eq!(out[0], 1);
    assert_eq!(out[1], 2 + (1 << 8));
    assert_eq!(out[2], 3);
    assert_eq!(out[3], 0x80u64 << 56);
}
