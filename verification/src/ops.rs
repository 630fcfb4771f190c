//! The closed set of binary circuit operations and its two evaluators:
//! one over raw 256-bit residues and one over canonical field elements.

use vstd::prelude::*;
use vstd::arithmetic::power2::pow2;
use crate::field::{
    and256, fr_add, fr_from_u256, fr_mul, fr_sub, lemma_u256_injective, m_nat, modulus, pow64,
    pow128, pow192, pow256, u256_add_mod, u256_mul_mod, u256_shl, u256_shr, u256_wrapping_sub,
    FrElement, U256,
};

verus! {

/// A binary operation over the scalar field. `MMul` is a reserved operation
/// code with no evaluation rule.
#[derive(Clone, Copy, Debug, Hash, PartialEq, Eq, Structural)]
pub enum Operation {
    Mul,
    MMul,
    Add,
    Sub,
    Eq,
    Neq,
    Lt,
    Gt,
    Leq,
    Geq,
    Lor,
    Shl,
    Shr,
    Band,
}

/// One for true, zero for false.
pub open spec fn bool_nat(b: bool) -> nat {
    if b {
        1
    } else {
        0
    }
}

/// Subtraction wrapping modulo `2^256`, as ruint's `-` operator behaves.
pub open spec fn sub_wrap(m: nat, b: nat) -> nat {
    if b <= m {
        (m - b) as nat
    } else {
        ((m + pow256()) - b) as nat
    }
}

/// Whether evaluating `op` is defined for a second operand of value `bv`:
/// `MMul` is reserved, and shift amounts must be below 256.
pub open spec fn eval_ok(op: Operation, bv: nat) -> bool {
    op != Operation::MMul && ((op == Operation::Shl || op == Operation::Shr) ==> bv < 256)
}

/// The result of `op` on raw 256-bit residues `a` and `b`.
/// Arithmetic is modular; comparisons are on the raw unsigned values;
/// shifts and bitwise-and act on the raw 256-bit representation.
pub open spec fn op_raw(op: Operation, a: nat, b: nat) -> nat {
    match op {
        Operation::Add => (a + b) % m_nat(),
        Operation::Sub => (a + sub_wrap(m_nat(), b)) % m_nat(),
        Operation::Mul => (a * b) % m_nat(),
        Operation::Eq => bool_nat(a == b),
        Operation::Neq => bool_nat(a != b),
        Operation::Lt => bool_nat(a < b),
        Operation::Gt => bool_nat(a > b),
        Operation::Leq => bool_nat(a <= b),
        Operation::Geq => bool_nat(a >= b),
        Operation::Lor => bool_nat(a != 0 || b != 0),
        Operation::Shl => if b < 256 {
            (a * pow2(b)) % pow256()
        } else {
            0
        },
        Operation::Shr => if b < 256 {
            a / pow2(b)
        } else {
            0
        },
        Operation::Band => and256(a, b),
        Operation::MMul => 0,
    }
}

/// The result of `op` on canonical field elements `a` and `b` (both below
/// the modulus). Shifts and bitwise-and pass through the integer domain and
/// reduce the scalar result back into the field.
pub open spec fn op_fr(op: Operation, a: nat, b: nat) -> nat {
    match op {
        Operation::Add => (a + b) % m_nat(),
        Operation::Sub => ((a + m_nat() - b) as nat) % m_nat(),
        Operation::Mul => (a * b) % m_nat(),
        Operation::Eq => bool_nat(a == b),
        Operation::Neq => bool_nat(a != b),
        Operation::Lt => bool_nat(a < b),
        Operation::Gt => bool_nat(a > b),
        Operation::Leq => bool_nat(a <= b),
        Operation::Geq => bool_nat(a >= b),
        Operation::Lor => bool_nat(a != 0 || b != 0),
        Operation::Shl => if b < 256 {
            ((a * pow2(b)) % pow256()) % m_nat()
        } else {
            0
        },
        Operation::Shr => if b < 256 {
            (a / pow2(b)) % m_nat()
        } else {
            0
        },
        Operation::Band => and256(a, b) % m_nat(),
        Operation::MMul => 0,
    }
}

/// A value below 256 lives entirely in the least-significant limb.
pub proof fn lemma_small_value(a: U256)
    requires
        a.val() < pow64(),
    ensures
        a.l0 == a.val(),
        a.l1 == 0 && a.l2 == 0 && a.l3 == 0,
{
    assert(a.l1 == 0 && a.l2 == 0 && a.l3 == 0) by (nonlinear_arith)
        requires
            a.val() == a.l0 + a.l1 * pow64() + a.l2 * pow128() + a.l3 * pow192(),
            a.val() < pow64(),
            pow64() == 18446744073709551616,
            pow128() == 340282366920938463463374607431768211456,
            pow192() == 6277101735386680763835789423207666416102355444464034512896,
    ;
}

impl Operation {
    /// Evaluate this operation on raw 256-bit residues.
    pub fn eval(&self, a: U256, b: U256) -> (r: U256)
        requires
            eval_ok(*self, b.val()),
        ensures
            r.val() == op_raw(*self, a.val(), b.val()),
    {
        let m = modulus();
        match self {
            Operation::Add => u256_add_mod(&a, &b, &m),
            Operation::Sub => {
                let t = u256_wrapping_sub(&m, &b);
                u256_add_mod(&a, &t, &m)
            },
            Operation::Mul => u256_mul_mod(&a, &b, &m),
            Operation::Eq => {
                proof {
                    if a.val() == b.val() {
                        lemma_u256_injective(a, b);
                    }
                }
                U256::from_u64(if a == b {
                    1
                } else {
                    0
                })
            },
            Operation::Neq => {
                proof {
                    if a.val() == b.val() {
                        lemma_u256_injective(a, b);
                    }
                }
                U256::from_u64(if a != b {
                    1
                } else {
                    0
                })
            },
            Operation::Lt => U256::from_u64(if a.lt(&b) {
                1
            } else {
                0
            }),
            Operation::Gt => U256::from_u64(if b.lt(&a) {
                1
            } else {
                0
            }),
            Operation::Leq => U256::from_u64(if b.lt(&a) {
                0
            } else {
                1
            }),
            Operation::Geq => U256::from_u64(if a.lt(&b) {
                0
            } else {
                1
            }),
            Operation::Lor => U256::from_u64(if !a.is_zero() || !b.is_zero() {
                1
            } else {
                0
            }),
            Operation::Shl => {
                proof {
                    lemma_small_value(b);
                }
                u256_shl(&a, b.l0)
            },
            Operation::Shr => {
                proof {
                    lemma_small_value(b);
                }
                u256_shr(&a, b.l0)
            },
            Operation::Band => a.band(&b),
            Operation::MMul => {
                proof {
                    assert(false);
                }
                U256::zero()
            },
        }
    }

    /// Evaluate this operation on canonical field elements.
    pub fn eval_fr(&self, a: FrElement, b: FrElement) -> (r: FrElement)
        requires
            a.is_canonical(),
            b.is_canonical(),
            eval_ok(*self, b.val()),
        ensures
            r.val() == op_fr(*self, a.val(), b.val()),
            r.is_canonical(),
    {
        match self {
            Operation::Add => fr_add(&a, &b),
            Operation::Sub => fr_sub(&a, &b),
            Operation::Mul => fr_mul(&a, &b),
            Operation::Eq => {
                proof {
                    if a.val() == b.val() {
                        lemma_u256_injective(a.rep, b.rep);
                    }
                }
                FrElement { rep: U256::from_u64(if a == b {
                    1
                } else {
                    0
                }) }
            },
            Operation::Neq => {
                proof {
                    if a.val() == b.val() {
                        lemma_u256_injective(a.rep, b.rep);
                    }
                }
                FrElement { rep: U256::from_u64(if a != b {
                    1
                } else {
                    0
                }) }
            },
            Operation::Lt => FrElement { rep: U256::from_u64(if a.rep.lt(&b.rep) {
                1
            } else {
                0
            }) },
            Operation::Gt => FrElement { rep: U256::from_u64(if b.rep.lt(&a.rep) {
                1
            } else {
                0
            }) },
            Operation::Leq => FrElement { rep: U256::from_u64(if b.rep.lt(&a.rep) {
                0
            } else {
                1
            }) },
            Operation::Geq => FrElement { rep: U256::from_u64(if a.rep.lt(&b.rep) {
                0
            } else {
                1
            }) },
            Operation::Lor => FrElement { rep: U256::from_u64(
                if !a.rep.is_zero() || !b.rep.is_zero() {
                    1
                } else {
                    0
                },
            ) },
            Operation::Shl => compute_shl_Fr(a, b),
            Operation::Shr => compute_shr_Fr(a, b),
            Operation::Band => compute_bitand_Fr(a, b),
            Operation::MMul => {
                proof {
                    assert(false);
                }
                FrElement { rep: U256::zero() }
            },
        }
    }
}

/// Left shift of a field element: through the integer domain and back.
#[allow(non_snake_case)]
pub fn compute_shl_Fr(a: FrElement, b: FrElement) -> (r: FrElement)
    requires
        a.is_canonical(),
        b.is_canonical(),
        b.val() < 256,
    ensures
        r.val() == ((a.val() * pow2(b.val())) % pow256()) % m_nat(),
        r.is_canonical(),
{
    proof {
        lemma_small_value(b.rep);
    }
    let shifted = u256_shl(&a.rep, b.rep.l0);
    fr_from_u256(&shifted)
}

/// Right shift of a field element: through the integer domain and back.
#[allow(non_snake_case)]
pub fn compute_shr_Fr(a: FrElement, b: FrElement) -> (r: FrElement)
    requires
        a.is_canonical(),
        b.is_canonical(),
        b.val() < 256,
    ensures
        r.val() == (a.val() / pow2(b.val())) % m_nat(),
        r.is_canonical(),
{
    proof {
        lemma_small_value(b.rep);
    }
    let shifted = u256_shr(&a.rep, b.rep.l0);
    fr_from_u256(&shifted)
}

/// Bitwise and of two field elements: through the integer domain and back.
#[allow(non_snake_case)]
pub fn compute_bitand_Fr(a: FrElement, b: FrElement) -> (r: FrElement)
    requires
        a.is_canonical(),
        b.is_canonical(),
    ensures
        r.val() == and256(a.val(), b.val()) % m_nat(),
        r.is_canonical(),
{
    let masked = a.rep.band(&b.rep);
    fr_from_u256(&masked)
}

} // verus!
