//! Node byte encoding: fixed-width little-endian encodings for every node
//! shape, with a length-prefixed, canonicity-checked encoding for
//! Montgomery-form field elements.

use vstd::prelude::*;
use vstd::arithmetic::div_mod::{
    lemma_div_denominator, lemma_fundamental_div_mod, lemma_multiply_divide_lt,
};
use crate::field::{m_nat, FrElement, U256};
use crate::ops::Operation;
use crate::graph::Node;

verus! {

/// A failure to decode a byte buffer into a node.
#[derive(Clone, Copy, Debug, PartialEq, Eq, Structural)]
pub enum DecodeError {
    /// The buffer ends before the encoding is complete.
    Truncated,
    /// The leading tag byte names no node shape.
    BadTag,
    /// The operation code byte names no operation.
    BadOperation,
    /// The length prefix of a field-element payload is wrong.
    BadLength,
    /// An index does not fit the platform's index type.
    BadIndex,
    /// A field-element payload is not a reduced representative.
    NonCanonical,
}

/// The eight little-endian bytes of a 64-bit integer.
pub open spec fn u64_le(x: u64) -> Seq<u8> {
    seq![
        (x % 256) as u8,
        ((x / 256) % 256) as u8,
        ((x / 65536) % 256) as u8,
        ((x / 16777216) % 256) as u8,
        ((x / 4294967296) % 256) as u8,
        ((x / 1099511627776) % 256) as u8,
        ((x / 281474976710656) % 256) as u8,
        ((x / 72057594037927936) % 256) as u8,
    ]
}

/// The 64-bit value read from eight little-endian bytes at `off`.
pub open spec fn le_u64(s: Seq<u8>, off: int) -> nat {
    (s[off] + s[off + 1] * 256 + s[off + 2] * 65536 + s[off + 3] * 16777216 + s[off + 4]
        * 4294967296 + s[off + 5] * 1099511627776 + s[off + 6] * 281474976710656 + s[off + 7]
        * 72057594037927936) as nat
}

/// The 32 little-endian bytes of a 256-bit integer.
pub open spec fn u256_le(c: U256) -> Seq<u8> {
    u64_le(c.l0) + u64_le(c.l1) + u64_le(c.l2) + u64_le(c.l3)
}

/// The 256-bit integer read from 32 little-endian bytes at `off`.
pub open spec fn le_u256(s: Seq<u8>, off: int) -> U256 {
    U256 {
        l0: le_u64(s, off) as u64,
        l1: le_u64(s, off + 8) as u64,
        l2: le_u64(s, off + 16) as u64,
        l3: le_u64(s, off + 24) as u64,
    }
}

/// The code byte of an operation.
pub open spec fn op_code_spec(op: Operation) -> u8 {
    match op {
        Operation::Mul => 0,
        Operation::MMul => 1,
        Operation::Add => 2,
        Operation::Sub => 3,
        Operation::Eq => 4,
        Operation::Neq => 5,
        Operation::Lt => 6,
        Operation::Gt => 7,
        Operation::Leq => 8,
        Operation::Geq => 9,
        Operation::Lor => 10,
        Operation::Shl => 11,
        Operation::Shr => 12,
        Operation::Band => 13,
    }
}

/// The operation named by a code byte, if any.
pub open spec fn op_from_code_spec(c: u8) -> Option<Operation> {
    if c == 0 {
        Some(Operation::Mul)
    } else if c == 1 {
        Some(Operation::MMul)
    } else if c == 2 {
        Some(Operation::Add)
    } else if c == 3 {
        Some(Operation::Sub)
    } else if c == 4 {
        Some(Operation::Eq)
    } else if c == 5 {
        Some(Operation::Neq)
    } else if c == 6 {
        Some(Operation::Lt)
    } else if c == 7 {
        Some(Operation::Gt)
    } else if c == 8 {
        Some(Operation::Leq)
    } else if c == 9 {
        Some(Operation::Geq)
    } else if c == 10 {
        Some(Operation::Lor)
    } else if c == 11 {
        Some(Operation::Shl)
    } else if c == 12 {
        Some(Operation::Shr)
    } else if c == 13 {
        Some(Operation::Band)
    } else {
        None
    }
}

/// The byte encoding of one node: a tag byte, then a fixed-width payload.
/// A Montgomery constant's payload carries a one-byte length prefix.
pub open spec fn encode_node_spec(n: Node) -> Seq<u8> {
    match n {
        Node::Input(i) => seq![0u8] + u64_le(i as u64),
        Node::Constant(c) => seq![1u8] + u256_le(c),
        Node::MontConstant(f) => seq![2u8, 32u8] + u256_le(f.rep),
        Node::Op(op, a, b) => seq![3u8, op_code_spec(op)] + u64_le(a as u64) + u64_le(b as u64),
    }
}

/// The node read from the front of a byte buffer, with the number of bytes
/// consumed, or the decode error. Field-element payloads must carry the
/// fixed length prefix and a reduced representative.
pub open spec fn decode_node_spec(s: Seq<u8>) -> Result<(Node, int), DecodeError> {
    if s.len() < 1 {
        Err(DecodeError::Truncated)
    } else if s[0] == 0 {
        if s.len() < 9 {
            Err(DecodeError::Truncated)
        } else if le_u64(s, 1) > usize::MAX {
            Err(DecodeError::BadIndex)
        } else {
            Ok((Node::Input(le_u64(s, 1) as usize), 9))
        }
    } else if s[0] == 1 {
        if s.len() < 33 {
            Err(DecodeError::Truncated)
        } else {
            Ok((Node::Constant(le_u256(s, 1)), 33))
        }
    } else if s[0] == 2 {
        if s.len() < 2 {
            Err(DecodeError::Truncated)
        } else if s[1] != 32 {
            Err(DecodeError::BadLength)
        } else if s.len() < 34 {
            Err(DecodeError::Truncated)
        } else if le_u256(s, 2).val() >= m_nat() {
            Err(DecodeError::NonCanonical)
        } else {
            Ok((Node::MontConstant(FrElement { rep: le_u256(s, 2) }), 34))
        }
    } else if s[0] == 3 {
        if s.len() < 18 {
            Err(DecodeError::Truncated)
        } else {
            match op_from_code_spec(s[1]) {
                Some(op) => if le_u64(s, 2) > usize::MAX || le_u64(s, 10) > usize::MAX {
                    Err(DecodeError::BadIndex)
                } else {
                    Ok((Node::Op(op, le_u64(s, 2) as usize, le_u64(s, 10) as usize), 18))
                },
                None => Err(DecodeError::BadOperation),
            }
        }
    } else {
        Err(DecodeError::BadTag)
    }
}

/// A 64-bit value equals the weighted sum of its little-endian base-256
/// digits.
pub proof fn lemma_u64_digits(x: u64)
    ensures
        x == (x % 256) + ((x / 256) % 256) * 256 + ((x / 65536) % 256) * 65536 + ((x / 16777216)
            % 256) * 16777216 + ((x / 4294967296) % 256) * 4294967296 + ((x / 1099511627776) % 256)
            * 1099511627776 + ((x / 281474976710656) % 256) * 281474976710656 + (x
            / 72057594037927936) * 72057594037927936,
        x / 72057594037927936 < 256,
{
    let v = x as int;
    lemma_fundamental_div_mod(v, 256);
    lemma_fundamental_div_mod(v / 256, 256);
    lemma_fundamental_div_mod(v / 65536, 256);
    lemma_fundamental_div_mod(v / 16777216, 256);
    lemma_fundamental_div_mod(v / 4294967296, 256);
    lemma_fundamental_div_mod(v / 1099511627776, 256);
    lemma_fundamental_div_mod(v / 281474976710656, 256);
    lemma_div_denominator(v, 256, 256);
    lemma_div_denominator(v, 65536, 256);
    lemma_div_denominator(v, 16777216, 256);
    lemma_div_denominator(v, 4294967296, 256);
    lemma_div_denominator(v, 1099511627776, 256);
    lemma_div_denominator(v, 281474976710656, 256);
    lemma_multiply_divide_lt(v, 72057594037927936, 256);
}

/// Reading back eight encoded bytes yields the encoded value.
pub proof fn lemma_u64_le_roundtrip(x: u64, s: Seq<u8>, off: int)
    requires
        0 <= off,
        off + 8 <= s.len(),
        s.subrange(off, off + 8) == u64_le(x),
    ensures
        le_u64(s, off) == x,
{
    assert(s[off] == u64_le(x)[0]);
    assert(s[off + 1] == u64_le(x)[1]);
    assert(s[off + 2] == u64_le(x)[2]);
    assert(s[off + 3] == u64_le(x)[3]);
    assert(s[off + 4] == u64_le(x)[4]);
    assert(s[off + 5] == u64_le(x)[5]);
    assert(s[off + 6] == u64_le(x)[6]);
    assert(s[off + 7] == u64_le(x)[7]);
    lemma_u64_digits(x);
}

/// Reading back an encoded 256-bit value yields the value.
pub proof fn lemma_u256_le_roundtrip(c: U256, s: Seq<u8>, off: int)
    requires
        0 <= off,
        off + 32 <= s.len(),
        s.subrange(off, off + 32) == u256_le(c),
    ensures
        le_u256(s, off) == c,
{
    assert(s.subrange(off, off + 8) =~= u256_le(c).subrange(0, 8));
    assert(s.subrange(off + 8, off + 16) =~= u256_le(c).subrange(8, 16));
    assert(s.subrange(off + 16, off + 24) =~= u256_le(c).subrange(16, 24));
    assert(s.subrange(off + 24, off + 32) =~= u256_le(c).subrange(24, 32));
    assert(u256_le(c).subrange(0, 8) =~= u64_le(c.l0));
    assert(u256_le(c).subrange(8, 16) =~= u64_le(c.l1));
    assert(u256_le(c).subrange(16, 24) =~= u64_le(c.l2));
    assert(u256_le(c).subrange(24, 32) =~= u64_le(c.l3));
    lemma_u64_le_roundtrip(c.l0, s, off);
    lemma_u64_le_roundtrip(c.l1, s, off + 8);
    lemma_u64_le_roundtrip(c.l2, s, off + 16);
    lemma_u64_le_roundtrip(c.l3, s, off + 24);
}

/// Decoding inverts an encoded input node.
proof fn lemma_input_roundtrip(i: usize)
    ensures
        decode_node_spec(encode_node_spec(Node::Input(i))) == Ok::<_, DecodeError>(
            (Node::Input(i), 9int),
        ),
        encode_node_spec(Node::Input(i)).len() == 9,
{
    let s = encode_node_spec(Node::Input(i));
    assert(s[0] == 0);
    assert(s.len() == 9);
    assert(s.subrange(1, 9) =~= u64_le(i as u64));
    lemma_u64_le_roundtrip(i as u64, s, 1);
    assert(le_u64(s, 1) == i as u64);
    assert(le_u64(s, 1) <= usize::MAX);
}

/// Decoding inverts an encoded constant node.
proof fn lemma_constant_roundtrip(c: U256)
    ensures
        decode_node_spec(encode_node_spec(Node::Constant(c))) == Ok::<_, DecodeError>(
            (Node::Constant(c), 33int),
        ),
        encode_node_spec(Node::Constant(c)).len() == 33,
{
    let s = encode_node_spec(Node::Constant(c));
    assert(s[0] == 1);
    assert(s.len() == 33);
    assert(s.subrange(1, 33) =~= u256_le(c));
    lemma_u256_le_roundtrip(c, s, 1);
}

/// Decoding inverts an encoded Montgomery constant with a reduced payload.
#[verifier::rlimit(100)]
proof fn lemma_mont_roundtrip(f: FrElement)
    requires
        f.is_canonical(),
    ensures
        decode_node_spec(encode_node_spec(Node::MontConstant(f))) == Ok::<_, DecodeError>(
            (Node::MontConstant(f), 34int),
        ),
        encode_node_spec(Node::MontConstant(f)).len() == 34,
{
    let s = encode_node_spec(Node::MontConstant(f));
    assert(s[0] == 2);
    assert(s[1] == 32);
    assert(s.len() == 34);
    assert(s.subrange(2, 34) =~= u256_le(f.rep));
    lemma_u256_le_roundtrip(f.rep, s, 2);
    assert(le_u256(s, 2) == f.rep);
    assert(le_u256(s, 2).val() < m_nat());
}

/// Decoding inverts an encoded operation node.
proof fn lemma_op_roundtrip(op: Operation, a: usize, b: usize)
    ensures
        decode_node_spec(encode_node_spec(Node::Op(op, a, b))) == Ok::<_, DecodeError>(
            (Node::Op(op, a, b), 18int),
        ),
        encode_node_spec(Node::Op(op, a, b)).len() == 18,
{
    let s = encode_node_spec(Node::Op(op, a, b));
    assert(s[0] == 3);
    assert(s[1] == op_code_spec(op));
    assert(s.len() == 18);
    assert(op_from_code_spec(op_code_spec(op)) == Some(op));
    assert(s.subrange(2, 10) =~= u64_le(a as u64));
    assert(s.subrange(10, 18) =~= u64_le(b as u64));
    lemma_u64_le_roundtrip(a as u64, s, 2);
    lemma_u64_le_roundtrip(b as u64, s, 10);
    assert(le_u64(s, 2) == a as u64 && le_u64(s, 2) <= usize::MAX);
    assert(le_u64(s, 10) == b as u64 && le_u64(s, 10) <= usize::MAX);
}

/// Decoding inverts encoding: every node whose field-element payload is
/// reduced comes back unchanged, consuming exactly its encoding.
#[verifier::rlimit(100)]
pub proof fn lemma_node_roundtrip(n: Node)
    requires
        n matches Node::MontConstant(f) ==> f.is_canonical(),
    ensures
        decode_node_spec(encode_node_spec(n)) == Ok::<_, DecodeError>(
            (n, encode_node_spec(n).len() as int),
        ),
{
    match n {
        Node::Input(i) => {
            lemma_input_roundtrip(i);
        },
        Node::Constant(c) => {
            lemma_constant_roundtrip(c);
        },
        Node::MontConstant(f) => {
            lemma_mont_roundtrip(f);
        },
        Node::Op(op, a, b) => {
            lemma_op_roundtrip(op, a, b);
        },
    }
}

/// Convert exactly 32 little-endian bytes into four 64-bit limbs.
pub fn u8_to_u64_array(input: &[u8]) -> (out: [u64; 4])
    requires
        input@.len() == 32,
    ensures
        out@[0] == le_u64(input@, 0),
        out@[1] == le_u64(input@, 8),
        out@[2] == le_u64(input@, 16),
        out@[3] == le_u64(input@, 24),
{
    let w0 = read_u64_le(input, 0);
    let w1 = read_u64_le(input, 8);
    let w2 = read_u64_le(input, 16);
    let w3 = read_u64_le(input, 24);
    [w0, w1, w2, w3]
}

/// Read one 64-bit little-endian value from a byte slice.
pub fn read_u64_le(s: &[u8], off: usize) -> (r: u64)
    requires
        off + 8 <= s@.len(),
    ensures
        r == le_u64(s@, off as int),
{
    (s[off] as u64) + (s[off + 1] as u64) * 256 + (s[off + 2] as u64) * 65536 + (s[off + 3] as u64)
        * 16777216 + (s[off + 4] as u64) * 4294967296 + (s[off + 5] as u64) * 1099511627776 + (s[off
        + 6] as u64) * 281474976710656 + (s[off + 7] as u64) * 72057594037927936
}

/// Append the eight little-endian bytes of a 64-bit value.
fn push_u64_le(out: &mut Vec<u8>, x: u64)
    ensures
        final(out)@ == old(out)@ + u64_le(x),
{
    let ghost start = out@;
    out.push((x % 256) as u8);
    out.push(((x / 256) % 256) as u8);
    out.push(((x / 65536) % 256) as u8);
    out.push(((x / 16777216) % 256) as u8);
    out.push(((x / 4294967296) % 256) as u8);
    out.push(((x / 1099511627776) % 256) as u8);
    out.push(((x / 281474976710656) % 256) as u8);
    out.push(((x / 72057594037927936) % 256) as u8);
    proof {
        assert(out@ =~= start + u64_le(x));
    }
}

/// Append the 32 little-endian bytes of a 256-bit value.
#[verifier::rlimit(100)]
fn push_u256_le(out: &mut Vec<u8>, c: &U256)
    ensures
        final(out)@ == old(out)@ + u256_le(*c),
{
    let ghost start = out@;
    push_u64_le(out, c.l0);
    push_u64_le(out, c.l1);
    push_u64_le(out, c.l2);
    push_u64_le(out, c.l3);
    proof {
        assert(out@ =~= start + u256_le(*c));
    }
}

/// Encode one node as bytes.
pub fn encode_node(n: &Node) -> (out: Vec<u8>)
    ensures
        out@ == encode_node_spec(*n),
{
    let mut out: Vec<u8> = Vec::new();
    match n {
        Node::Input(i) => {
            out.push(0);
            push_u64_le(&mut out, *i as u64);
            proof {
                assert(out@ =~= encode_node_spec(*n));
            }
        },
        Node::Constant(c) => {
            out.push(1);
            push_u256_le(&mut out, c);
            proof {
                assert(out@ =~= encode_node_spec(*n));
            }
        },
        Node::MontConstant(f) => {
            out.push(2);
            out.push(32);
            push_u256_le(&mut out, &f.rep);
            proof {
                assert(out@ =~= encode_node_spec(*n));
            }
        },
        Node::Op(op, a, b) => {
            out.push(3);
            let code: u8 = match op {
                Operation::Mul => 0,
                Operation::MMul => 1,
                Operation::Add => 2,
                Operation::Sub => 3,
                Operation::Eq => 4,
                Operation::Neq => 5,
                Operation::Lt => 6,
                Operation::Gt => 7,
                Operation::Leq => 8,
                Operation::Geq => 9,
                Operation::Lor => 10,
                Operation::Shl => 11,
                Operation::Shr => 12,
                Operation::Band => 13,
            };
            out.push(code);
            push_u64_le(&mut out, *a as u64);
            push_u64_le(&mut out, *b as u64);
            proof {
                assert(out@ =~= encode_node_spec(*n));
            }
        },
    }
    out
}

/// Read one 256-bit value from 32 bytes of a slice.
fn read_u256_le(s: &[u8], off: usize) -> (r: U256)
    requires
        off + 32 <= s@.len(),
    ensures
        r == le_u256(s@, off as int),
{
    let n = s.len();
    proof {
        assert(off + 32 <= n);
    }
    let l0 = read_u64_le(s, off);
    let l1 = read_u64_le(s, off + 8);
    let l2 = read_u64_le(s, off + 16);
    let l3 = read_u64_le(s, off + 24);
    U256 { l0, l1, l2, l3 }
}

/// Decode one node from the front of a byte buffer, returning the node and
/// the number of bytes consumed, or the structured decode error.
pub fn decode_node(bytes: &[u8]) -> (r: Result<(Node, usize), DecodeError>)
    ensures
        match r {
            Ok((n, used)) => decode_node_spec(bytes@) == Ok::<_, DecodeError>((n, used as int)),
            Err(e) => decode_node_spec(bytes@) == Err::<(Node, int), _>(e),
        },
{
    if bytes.len() < 1 {
        return Err(DecodeError::Truncated);
    }
    let tag = bytes[0];
    if tag == 0 {
        if bytes.len() < 9 {
            return Err(DecodeError::Truncated);
        }
        let v = read_u64_le(bytes, 1);
        if v > usize::MAX as u64 {
            return Err(DecodeError::BadIndex);
        }
        Ok((Node::Input(v as usize), 9))
    } else if tag == 1 {
        if bytes.len() < 33 {
            return Err(DecodeError::Truncated);
        }
        Ok((Node::Constant(read_u256_le(bytes, 1)), 33))
    } else if tag == 2 {
        if bytes.len() < 2 {
            return Err(DecodeError::Truncated);
        }
        if bytes[1] != 32 {
            return Err(DecodeError::BadLength);
        }
        if bytes.len() < 34 {
            return Err(DecodeError::Truncated);
        }
        let c = read_u256_le(bytes, 2);
        let m = crate::field::modulus();
        if !c.lt(&m) {
            return Err(DecodeError::NonCanonical);
        }
        Ok((Node::MontConstant(FrElement { rep: c }), 34))
    } else if tag == 3 {
        if bytes.len() < 18 {
            return Err(DecodeError::Truncated);
        }
        let code = bytes[1];
        let op = match op_from_code(code) {
            Some(op) => op,
            None => {
                return Err(DecodeError::BadOperation);
            },
        };
        let a = read_u64_le(bytes, 2);
        let b = read_u64_le(bytes, 10);
        if a > usize::MAX as u64 || b > usize::MAX as u64 {
            return Err(DecodeError::BadIndex);
        }
        Ok((Node::Op(op, a as usize, b as usize), 18))
    } else {
        Err(DecodeError::BadTag)
    }
}

/// The operation named by a code byte, if any.
pub fn op_from_code(c: u8) -> (r: Option<Operation>)
    ensures
        r == op_from_code_spec(c),
{
    if c == 0 {
        Some(Operation::Mul)
    } else if c == 1 {
        Some(Operation::MMul)
    } else if c == 2 {
        Some(Operation::Add)
    } else if c == 3 {
        Some(Operation::Sub)
    } else if c == 4 {
        Some(Operation::Eq)
    } else if c == 5 {
        Some(Operation::Neq)
    } else if c == 6 {
        Some(Operation::Lt)
    } else if c == 7 {
        Some(Operation::Gt)
    } else if c == 8 {
        Some(Operation::Leq)
    } else if c == 9 {
        Some(Operation::Geq)
    } else if c == 10 {
        Some(Operation::Lor)
    } else if c == 11 {
        Some(Operation::Shl)
    } else if c == 12 {
        Some(Operation::Shr)
    } else if c == 13 {
        Some(Operation::Band)
    } else {
        None
    }
}

} // verus!
