//! Operator descriptors carried by graph nodes. The graph and its rewrite
//! passes only inspect these tags and their payloads; the numeric kernels
//! that execute them live outside this crate.

use vstd::prelude::*;

verus! {

/// A single-input, single-output elementwise scalar function.
#[derive(Clone, Copy, Debug, PartialEq, Eq, Structural)]
pub enum UnaryOp {
    Exp2,
    Log2,
    Recip,
    Sqrt,
    Sin,
}

/// The operator of a graph node.
#[derive(Debug)]
pub enum Op {
    /// An externally supplied tensor.
    Input,
    /// A constant scalar with the given integer value.
    Constant(i64),
    Permute,
    Expand,
    Mul,
    SumReduce(usize),
    MaxReduce(usize),
    Recip,
    Exp2,
    Log2,
    Sqrt,
    Sin,
    /// A fused 2D matrix multiply over two strided views.
    MatMul2D,
    /// A fused chain of unary operators, applied in list order.
    FusedUnary(Vec<UnaryOp>),
}

/// The unary function computed by an operator, if it is one of the
/// recognized elementwise unary set.
pub open spec fn spec_unary_of(op: Op) -> Option<UnaryOp> {
    match op {
        Op::Exp2 => Some(UnaryOp::Exp2),
        Op::Log2 => Some(UnaryOp::Log2),
        Op::Recip => Some(UnaryOp::Recip),
        Op::Sqrt => Some(UnaryOp::Sqrt),
        Op::Sin => Some(UnaryOp::Sin),
        _ => None,
    }
}

/// Recognize a unary elementwise operator.
pub fn unary_of(op: &Op) -> (r: Option<UnaryOp>)
    ensures
        r == spec_unary_of(*op),
{
    match op {
        Op::Exp2 => Some(UnaryOp::Exp2),
        Op::Log2 => Some(UnaryOp::Log2),
        Op::Recip => Some(UnaryOp::Recip),
        Op::Sqrt => Some(UnaryOp::Sqrt),
        Op::Sin => Some(UnaryOp::Sin),
        _ => None,
    }
}

/// Whether an operator takes part in unary fusion: a recognized unary
/// operator or an already-fused chain.
pub open spec fn is_fusable_op(op: Op) -> bool {
    spec_unary_of(op) is Some || op is FusedUnary
}

/// The function list an operator contributes to a fused chain.
pub open spec fn fused_list(op: Op) -> Seq<UnaryOp> {
    match spec_unary_of(op) {
        Some(u) => seq![u],
        None => match op {
            Op::FusedUnary(v) => v@,
            _ => Seq::empty(),
        },
    }
}

/// Copy a vector of copyable values.
pub fn copy_vec<T: Copy>(v: &Vec<T>) -> (r: Vec<T>)
    ensures
        r@ == v@,
{
    let mut r: Vec<T> = Vec::new();
    let mut i: usize = 0;
    while i < v.len()
        invariant
            i <= v@.len(),
            r@ == v@.take(i as int),
        decreases v@.len() - i,
    {
        r.push(v[i]);
        i = i + 1;
        proof {
            assert(r@ =~= v@.take(i as int));
        }
    }
    proof {
        assert(r@ =~= v@);
    }
    r
}

} // verus!
