//! The two evaluators on concrete values: modular arithmetic, comparisons,
//! bit-level operations, and agreement between raw and field results.

use circuit_opt::field::{modulus, FrElement, U256};
use circuit_opt::ops::{compute_bitand_Fr, compute_shl_Fr, compute_shr_Fr, Operation};

fn u(x: u64) -> U256 {
    U256 { l0: x, l1: 0, l2: 0, l3: 0 }
}

fn fr(x: u64) -> FrElement {
    FrElement { rep: u(x) }
}

fn m_minus(x: u64) -> U256 {
    // The modulus has a least limb far above any small x used here.
    let m = modulus();
    U256 { l0: m.l0 - x, l1: m.l1, l2: m.l2, l3: m.l3 }
}

#[test]
fn add_small() {
    assert_eq!(Operation::Add.eval(u(3), u(4)), u(7));
}

#[test]
fn add_wraps_at_modulus() {
    assert_eq!(Operation::Add.eval(m_minus(1), u(3)), u(2));
}

#[test]
fn sub_wraps_into_field() {
    assert_eq!(Operation::Sub.eval(u(3), u(5)), m_minus(2));
}

#[test]
fn mul_small_and_wrapping() {
    assert_eq!(Operation::Mul.eval(u(6), u(7)), u(42));
    assert_eq!(Operation::Mul.eval(m_minus(1), u(2)), m_minus(2));
}

#[test]
fn comparisons_on_raw_values() {
    assert_eq!(Operation::Lt.eval(u(3), u(4)), u(1));
    assert_eq!(Operation::Lt.eval(u(4), u(4)), u(0));
    assert_eq!(Operation::Gt.eval(u(5), u(4)), u(1));
    assert_eq!(Operation::Leq.eval(u(4), u(4)), u(1));
    assert_eq!(Operation::Geq.eval(u(3), u(4)), u(0));
    assert_eq!(Operation::Eq.eval(u(9), u(9)), u(1));
    assert_eq!(Operation::Neq.eval(u(9), u(9)), u(0));
}

#[test]
fn logical_or() {
    assert_eq!(Operation::Lor.eval(u(0), u(0)), u(0));
    assert_eq!(Operation::Lor.eval(u(5), u(0)), u(1));
    assert_eq!(Operation::Lor.eval(u(0), u(2)), u(1));
}

#[test]
fn bitwise_and_limbwise() {
    assert_eq!(Operation::Band.eval(u(0b1100), u(0b1010)), u(0b1000));
    let a = U256 { l0: 0xff00, l1: 0xf0f0, l2: 0, l3: u64::MAX };
    let b = U256 { l0: 0x0ff0, l1: 0xffff, l2: 7, l3: 1 };
    assert_eq!(
        Operation::Band.eval(a, b),
        U256 { l0: 0x0f00, l1: 0xf0f0, l2: 0, l3: 1 }
    );
}

#[test]
fn shift_left_small() {
    assert_eq!(Operation::Shl.eval(u(1), u(4)), u(16));
}

#[test]
fn shift_left_by_255_lands_in_top_bit() {
    let r = Operation::Shl.eval(u(1), u(255));
    assert_eq!(r, U256 { l0: 0, l1: 0, l2: 0, l3: 1u64 << 63 });
}

#[test]
fn shift_right_by_255_of_top_bit() {
    let top = U256 { l0: 0, l1: 0, l2: 0, l3: 1u64 << 63 };
    assert_eq!(Operation::Shr.eval(top, u(255)), u(1));
}

#[test]
fn shift_by_zero_is_identity() {
    let a = U256 { l0: 123, l1: 456, l2: 789, l3: 12 };
    assert_eq!(Operation::Shl.eval(a, u(0)), a);
    assert_eq!(Operation::Shr.eval(a, u(0)), a);
}

#[test]
fn field_evaluator_matches_raw_on_residues() {
    // Raw and Montgomery evaluators agree on canonical residues for every
    // operation that stays below the modulus.
    let cases = [
        (Operation::Add, 3u64, 4u64),
        (Operation::Sub, 9, 2),
        (Operation::Mul, 6, 7),
        (Operation::Eq, 5, 5),
        (Operation::Neq, 5, 6),
        (Operation::Lt, 2, 3),
        (Operation::Gt, 2, 3),
        (Operation::Leq, 3, 3),
        (Operation::Geq, 2, 3),
        (Operation::Lor, 0, 4),
        (Operation::Shl, 3, 5),
        (Operation::Shr, 48, 4),
        (Operation::Band, 0b1100, 0b1010),
    ];
    for (op, a, b) in cases {
        let raw = op.eval(u(a), u(b));
        let field = op.eval_fr(fr(a), fr(b));
        assert_eq!(field.rep, raw, "{:?}", op);
    }
}

#[test]
fn field_evaluator_reduces_after_shift() {
    // 1 << 254 exceeds the modulus, so the field evaluator reduces it.
    let shifted = compute_shl_Fr(fr(1), fr(254));
    let raw = Operation::Shl.eval(u(1), u(254));
    // raw is 2^254, which is >= M; the field result is 2^254 - M.
    let m = modulus();
    let reduced = Operation::Sub.eval(raw, m);
    assert_eq!(shifted.rep, reduced);
}

#[test]
fn field_shift_right_and_bitand() {
    assert_eq!(compute_shr_Fr(fr(48), fr(4)).rep, u(3));
    assert_eq!(compute_bitand_Fr(fr(0b1111), fr(0b0110)).rep, u(0b0110));
}

#[test]
fn modulus_limbs_are_the_bn254_scalar_order() {
    let m = modulus();
    assert_eq!(m.l0, 0x43e1f593f0000001);
    assert_eq!(m.l1, 0x2833e84879b97091);
    assert_eq!(m.l2, 0xb85045b68181585d);
    assert_eq!(m.l3, 0x30644e72e131a029);
}

#[test]
fn comparison_helpers() {
    assert!(u(3).lt(&u(4)));
    assert!(!u(4).lt(&u(4)));
    let big = U256 { l0: 0, l1: 0, l2: 0, l3: 1 };
    assert!(u(u64::MAX).lt(&big));
    assert!(u(0).is_zero());
    assert!(!u(1).is_zero());
}
