//! A small symbolic arithmetic expression tree over one distinguished
//! logical-index variable and named dimension symbols. Shape trackers emit
//! these to describe, in closed form, the physical offset and the validity
//! of a logical index, even while some dimensions are still unresolved.

use vstd::prelude::*;

verus! {

/// An integer expression. Comparison and conjunction nodes evaluate to the
/// integers `0` (false) and `1` (true).
#[derive(Debug)]
pub enum Expr {
    /// A non-negative integer constant.
    Int(usize),
    /// A named dimension symbol.
    Var(char),
    /// The distinguished logical-index variable.
    Idx,
    Add(Box<Expr>, Box<Expr>),
    Sub(Box<Expr>, Box<Expr>),
    Mul(Box<Expr>, Box<Expr>),
    Div(Box<Expr>, Box<Expr>),
    Mod(Box<Expr>, Box<Expr>),
    Min(Box<Expr>, Box<Expr>),
    And(Box<Expr>, Box<Expr>),
    Gte(Box<Expr>, Box<Expr>),
    Lt(Box<Expr>, Box<Expr>),
}

/// Mathematical value of an expression, given the logical index `idx` and an
/// environment assigning every dimension symbol a value. Division and
/// remainder are the Euclidean operations on `int`; every use emitted by a
/// tracker keeps both operands non-negative and the divisor positive.
pub open spec fn eval(e: Expr, idx: int, env: Map<char, int>) -> int
    decreases e,
{
    match e {
        Expr::Int(n) => n as int,
        Expr::Var(c) => env[c],
        Expr::Idx => idx,
        Expr::Add(a, b) => eval(*a, idx, env) + eval(*b, idx, env),
        Expr::Sub(a, b) => eval(*a, idx, env) - eval(*b, idx, env),
        Expr::Mul(a, b) => eval(*a, idx, env) * eval(*b, idx, env),
        Expr::Div(a, b) => eval(*a, idx, env) / eval(*b, idx, env),
        Expr::Mod(a, b) => eval(*a, idx, env) % eval(*b, idx, env),
        Expr::Min(a, b) => crate::shape::imin(eval(*a, idx, env), eval(*b, idx, env)),
        Expr::And(a, b) => if eval(*a, idx, env) != 0 && eval(*b, idx, env) != 0 {
            1
        } else {
            0
        },
        Expr::Gte(a, b) => if eval(*a, idx, env) >= eval(*b, idx, env) {
            1
        } else {
            0
        },
        Expr::Lt(a, b) => if eval(*a, idx, env) < eval(*b, idx, env) {
            1
        } else {
            0
        },
    }
}

/// Constant expression.
pub fn e_int(n: usize) -> (r: Expr)
    ensures
        forall|idx: int, env: Map<char, int>| #[trigger] eval(r, idx, env) == n,
{
    Expr::Int(n)
}

/// Symbol expression.
pub fn e_var(c: char) -> (r: Expr)
    ensures
        forall|idx: int, env: Map<char, int>| #[trigger] eval(r, idx, env) == env[c],
{
    Expr::Var(c)
}

/// The logical-index variable.
pub fn e_idx() -> (r: Expr)
    ensures
        forall|idx: int, env: Map<char, int>| #[trigger] eval(r, idx, env) == idx,
{
    Expr::Idx
}

pub fn e_add(a: Expr, b: Expr) -> (r: Expr)
    ensures
        forall|idx: int, env: Map<char, int>| #[trigger] eval(r, idx, env) == eval(a, idx, env)
            + eval(b, idx, env),
{
    let ghost ga = a;
    let ghost gb = b;
    let r = Expr::Add(Box::new(a), Box::new(b));
    proof {
        assert(r->Add_0 == ga);
        assert(r->Add_1 == gb);
        assert forall|idx: int, env: Map<char, int>| #[trigger] eval(r, idx, env) == eval(
            ga,
            idx,
            env,
        ) + eval(gb, idx, env) by {
            reveal_with_fuel(eval, 2);
        }
    }
    r
}

pub fn e_sub(a: Expr, b: Expr) -> (r: Expr)
    ensures
        forall|idx: int, env: Map<char, int>| #[trigger] eval(r, idx, env) == eval(a, idx, env)
            - eval(b, idx, env),
{
    let ghost ga = a;
    let ghost gb = b;
    let r = Expr::Sub(Box::new(a), Box::new(b));
    proof {
        assert(r->Sub_0 == ga);
        assert(r->Sub_1 == gb);
        assert forall|idx: int, env: Map<char, int>| #[trigger] eval(r, idx, env) == eval(
            ga,
            idx,
            env,
        ) - eval(gb, idx, env) by {
            reveal_with_fuel(eval, 2);
        }
    }
    r
}

pub fn e_mul(a: Expr, b: Expr) -> (r: Expr)
    ensures
        forall|idx: int, env: Map<char, int>| #[trigger] eval(r, idx, env) == eval(a, idx, env)
            * eval(b, idx, env),
{
    let ghost ga = a;
    let ghost gb = b;
    let r = Expr::Mul(Box::new(a), Box::new(b));
    proof {
        assert(r->Mul_0 == ga);
        assert(r->Mul_1 == gb);
        assert forall|idx: int, env: Map<char, int>| #[trigger] eval(r, idx, env) == eval(
            ga,
            idx,
            env,
        ) * eval(gb, idx, env) by {
            reveal_with_fuel(eval, 2);
        }
    }
    r
}

pub fn e_div(a: Expr, b: Expr) -> (r: Expr)
    ensures
        forall|idx: int, env: Map<char, int>| #[trigger] eval(r, idx, env) == eval(a, idx, env)
            / eval(b, idx, env),
{
    let ghost ga = a;
    let ghost gb = b;
    let r = Expr::Div(Box::new(a), Box::new(b));
    proof {
        assert(r->Div_0 == ga);
        assert(r->Div_1 == gb);
        assert forall|idx: int, env: Map<char, int>| #[trigger] eval(r, idx, env) == eval(
            ga,
            idx,
            env,
        ) / eval(gb, idx, env) by {
            reveal_with_fuel(eval, 2);
        }
    }
    r
}

pub fn e_mod(a: Expr, b: Expr) -> (r: Expr)
    ensures
        forall|idx: int, env: Map<char, int>| #[trigger] eval(r, idx, env) == eval(a, idx, env)
            % eval(b, idx, env),
{
    let ghost ga = a;
    let ghost gb = b;
    let r = Expr::Mod(Box::new(a), Box::new(b));
    proof {
        assert(r->Mod_0 == ga);
        assert(r->Mod_1 == gb);
        assert forall|idx: int, env: Map<char, int>| #[trigger] eval(r, idx, env) == eval(
            ga,
            idx,
            env,
        ) % eval(gb, idx, env) by {
            reveal_with_fuel(eval, 2);
        }
    }
    r
}

pub fn e_min(a: Expr, b: Expr) -> (r: Expr)
    ensures
        forall|idx: int, env: Map<char, int>| #[trigger] eval(r, idx, env) == crate::shape::imin(
            eval(a, idx, env),
            eval(b, idx, env),
        ),
{
    let ghost ga = a;
    let ghost gb = b;
    let r = Expr::Min(Box::new(a), Box::new(b));
    proof {
        assert(r->Min_0 == ga);
        assert(r->Min_1 == gb);
        assert forall|idx: int, env: Map<char, int>| #[trigger] eval(r, idx, env)
            == crate::shape::imin(eval(ga, idx, env), eval(gb, idx, env)) by {
            reveal_with_fuel(eval, 2);
        }
    }
    r
}

pub fn e_and(a: Expr, b: Expr) -> (r: Expr)
    ensures
        forall|idx: int, env: Map<char, int>|
            ((#[trigger] eval(r, idx, env)) != 0) == (eval(a, idx, env) != 0 && eval(b, idx, env)
                != 0),
{
    let ghost ga = a;
    let ghost gb = b;
    let r = Expr::And(Box::new(a), Box::new(b));
    proof {
        assert(r->And_0 == ga);
        assert(r->And_1 == gb);
        assert forall|idx: int, env: Map<char, int>|
            ((#[trigger] eval(r, idx, env)) != 0) == (eval(ga, idx, env) != 0 && eval(gb, idx, env)
                != 0) by {
            reveal_with_fuel(eval, 2);
        }
    }
    r
}

pub fn e_gte(a: Expr, b: Expr) -> (r: Expr)
    ensures
        forall|idx: int, env: Map<char, int>|
            ((#[trigger] eval(r, idx, env)) != 0) == (eval(a, idx, env) >= eval(b, idx, env)),
{
    let ghost ga = a;
    let ghost gb = b;
    let r = Expr::Gte(Box::new(a), Box::new(b));
    proof {
        assert(r->Gte_0 == ga);
        assert(r->Gte_1 == gb);
        assert forall|idx: int, env: Map<char, int>|
            ((#[trigger] eval(r, idx, env)) != 0) == (eval(ga, idx, env) >= eval(gb, idx, env)) by {
            reveal_with_fuel(eval, 2);
        }
    }
    r
}

pub fn e_lt(a: Expr, b: Expr) -> (r: Expr)
    ensures
        forall|idx: int, env: Map<char, int>|
            ((#[trigger] eval(r, idx, env)) != 0) == (eval(a, idx, env) < eval(b, idx, env)),
{
    let ghost ga = a;
    let ghost gb = b;
    let r = Expr::Lt(Box::new(a), Box::new(b));
    proof {
        assert(r->Lt_0 == ga);
        assert(r->Lt_1 == gb);
        assert forall|idx: int, env: Map<char, int>|
            ((#[trigger] eval(r, idx, env)) != 0) == (eval(ga, idx, env) < eval(gb, idx, env)) by {
            reveal_with_fuel(eval, 2);
        }
    }
    r
}

impl Clone for Expr {
    /// A deep copy that evaluates exactly as the original.
    fn clone(&self) -> (r: Self)
        ensures
            r == self,
        decreases self,
    {
        match self {
            Expr::Int(n) => Expr::Int(*n),
            Expr::Var(c) => Expr::Var(*c),
            Expr::Idx => Expr::Idx,
            Expr::Add(a, b) => Expr::Add(Box::new((**a).clone()), Box::new((**b).clone())),
            Expr::Sub(a, b) => Expr::Sub(Box::new((**a).clone()), Box::new((**b).clone())),
            Expr::Mul(a, b) => Expr::Mul(Box::new((**a).clone()), Box::new((**b).clone())),
            Expr::Div(a, b) => Expr::Div(Box::new((**a).clone()), Box::new((**b).clone())),
            Expr::Mod(a, b) => Expr::Mod(Box::new((**a).clone()), Box::new((**b).clone())),
            Expr::Min(a, b) => Expr::Min(Box::new((**a).clone()), Box::new((**b).clone())),
            Expr::And(a, b) => Expr::And(Box::new((**a).clone()), Box::new((**b).clone())),
            Expr::Gte(a, b) => Expr::Gte(Box::new((**a).clone()), Box::new((**b).clone())),
            Expr::Lt(a, b) => Expr::Lt(Box::new((**a).clone()), Box::new((**b).clone())),
        }
    }
}

} // verus!
