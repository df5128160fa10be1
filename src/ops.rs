//! What each operation does to the stack, stated over models.
use vstd::prelude::*;
use crate::host::is_zero_spec;
use crate::value::{EvalError, Val};

verus! {

/// The binary operators on numbers and Booleans.
#[derive(Debug, Clone, Copy, PartialEq, Eq, Structural)]
pub enum BinOp {
    Add,
    Sub,
    Mul,
    /// `/`: true division, always giving a float.
    FDiv,
    /// `div`: integer division, truncating toward zero.
    Div,
    Lt,
    Gt,
    And,
    Or,
}

/// Whether an integer fits in 32 bits.
pub open spec fn fits(x: int) -> bool {
    i32::MIN <= x <= i32::MAX
}

/// `x / y` rounded toward zero, `y != 0`.
pub open spec fn trunc_div(x: int, y: int) -> int {
    let q = (if x < 0 { -x } else { x }) / (if y < 0 { -y } else { y });
    if (x < 0) != (y < 0) {
        -q
    } else {
        q
    }
}

/// An integer result, or an arithmetic error when it does not fit.
pub open spec fn int_result(x: int) -> Result<Val, EvalError> {
    if fits(x) {
        Ok(Val::Int(x as i32))
    } else {
        Err(EvalError::Arithmetic)
    }
}

/// A binary operator on two integers, but for `/`, whose result is a float.
pub open spec fn int_binary(op: BinOp, x: int, y: int) -> Result<Val, EvalError> {
    match op {
        BinOp::Add => int_result(x + y),
        BinOp::Sub => int_result(x - y),
        BinOp::Mul => int_result(x * y),
        BinOp::Div => if y == 0 {
            Err(EvalError::Arithmetic)
        } else {
            int_result(trunc_div(x, y))
        },
        BinOp::Lt => Ok(Val::Bool(x < y)),
        BinOp::Gt => Ok(Val::Bool(x > y)),
        _ => Err(EvalError::Type),
    }
}

/// Whether a result is a float.
pub open spec fn is_float_ok(out: Result<Val, EvalError>) -> bool {
    out is Ok && out->Ok_0 is Float
}

/// Whether `out` is what `op` gives on `l` (second from the top) and `r`
/// (the top). Both operands must be of one numeric variant, or both
/// Boolean for `&&` and `||`; float payloads and float comparisons come
/// from the host, so of those only the variant is fixed.
pub open spec fn binary_ok(op: BinOp, l: Val, r: Val, out: Result<Val, EvalError>) -> bool {
    match (l, r) {
        (Val::Int(x), Val::Int(y)) => match op {
            BinOp::FDiv => if y == 0 {
                out == Err::<Val, EvalError>(EvalError::Arithmetic)
            } else {
                is_float_ok(out)
            },
            _ => out == int_binary(op, x as int, y as int),
        },
        (Val::Float(_), Val::Float(b)) => match op {
            BinOp::Add | BinOp::Sub | BinOp::Mul => is_float_ok(out),
            BinOp::FDiv => if is_zero_spec(b) {
                out == Err::<Val, EvalError>(EvalError::Arithmetic)
            } else {
                is_float_ok(out)
            },
            BinOp::Lt | BinOp::Gt => out is Ok && out->Ok_0 is Bool,
            _ => out == Err::<Val, EvalError>(EvalError::Type),
        },
        (Val::Bool(x), Val::Bool(y)) => match op {
            BinOp::And => out == Ok::<Val, EvalError>(Val::Bool(x && y)),
            BinOp::Or => out == Ok::<Val, EvalError>(Val::Bool(x || y)),
            _ => out == Err::<Val, EvalError>(EvalError::Type),
        },
        _ => out == Err::<Val, EvalError>(EvalError::Type),
    }
}

/// `dup`: the top copied onto the top.
pub open spec fn dup_spec(s: Seq<Val>) -> Result<Seq<Val>, EvalError> {
    if s.len() == 0 {
        Err(EvalError::Arity)
    } else {
        Ok(s.push(s.last()))
    }
}

/// `pop`: the top dropped.
pub open spec fn pop_spec(s: Seq<Val>) -> Result<Seq<Val>, EvalError> {
    if s.len() == 0 {
        Err(EvalError::Arity)
    } else {
        Ok(s.drop_last())
    }
}

/// `swap`: the two top values exchanged.
pub open spec fn swap_spec(s: Seq<Val>) -> Result<Seq<Val>, EvalError> {
    if s.len() < 2 {
        Err(EvalError::Arity)
    } else {
        Ok(s.drop_last().drop_last().push(s.last()).push(s[s.len() - 2]))
    }
}

/// `cons`: an item (second) put in front of a list (top).
pub open spec fn cons_spec(s: Seq<Val>) -> Result<Seq<Val>, EvalError> {
    if s.len() < 2 {
        Err(EvalError::Arity)
    } else {
        match s.last() {
            Val::List(l) => Ok(s.drop_last().drop_last().push(Val::List(seq![s[s.len() - 2]] + l))),
            _ => Err(EvalError::Type),
        }
    }
}

/// `append`: the list on top followed by the list below it.
pub open spec fn append_spec(s: Seq<Val>) -> Result<Seq<Val>, EvalError> {
    if s.len() < 2 {
        Err(EvalError::Arity)
    } else {
        match (s.last(), s[s.len() - 2]) {
            (Val::List(top), Val::List(below)) => Ok(
                s.drop_last().drop_last().push(Val::List(top + below)),
            ),
            _ => Err(EvalError::Type),
        }
    }
}

/// `==`: whether the two top values are structurally equal.
pub open spec fn equal_spec(s: Seq<Val>) -> Result<Seq<Val>, EvalError> {
    if s.len() < 2 {
        Err(EvalError::Arity)
    } else {
        Ok(s.drop_last().drop_last().push(Val::Bool(s[s.len() - 2] == s.last())))
    }
}

/// The negation of the top's value: arithmetic for numbers, logical for
/// Booleans.
pub open spec fn not_value(v: Val) -> Result<Val, EvalError> {
    match v {
        Val::Int(x) => int_result(-x),
        Val::Float(f) => Ok(Val::Float(crate::host::negate_spec(f))),
        Val::Bool(b) => Ok(Val::Bool(!b)),
        _ => Err(EvalError::Type),
    }
}

/// A unary operation on the top, replacing it by `f` of it.
pub open spec fn unary_spec(s: Seq<Val>, out: Result<Val, EvalError>) -> Result<Seq<Val>, EvalError> {
    if s.len() == 0 {
        Err(EvalError::Arity)
    } else {
        match out {
            Ok(v) => Ok(s.drop_last().push(v)),
            Err(e) => Err(e),
        }
    }
}

/// Doubling the top and then dropping it leaves the stack as it was.
pub proof fn lemma_dup_pop(s: Seq<Val>)
    requires
        s.len() >= 1,
    ensures
        dup_spec(s) is Ok,
        pop_spec(dup_spec(s)->Ok_0) == Ok::<Seq<Val>, EvalError>(s),
{
    assert(s.push(s.last()).drop_last() =~= s);
}

/// For a non-zero divisor, `div` gives the quotient rounded toward zero,
/// an arithmetic error only for `i32::MIN div -1` whose quotient does not
/// fit, and `/` gives a float.
pub proof fn lemma_div_truncates(a: i32, b: i32)
    requires
        b != 0,
    ensures
        forall|out: Result<Val, EvalError>|
            binary_ok(BinOp::FDiv, Val::Int(a), Val::Int(b), out) <==> is_float_ok(out),
        binary_ok(BinOp::Div, Val::Int(a), Val::Int(b), int_result(trunc_div(a as int, b as int))),
        !(a == i32::MIN && b == -1) ==> int_result(trunc_div(a as int, b as int)) == Ok::<
            Val,
            EvalError,
        >(Val::Int(trunc_div(a as int, b as int) as i32)),
        (a as int) >= 0 && (b as int) > 0 ==> trunc_div(a as int, b as int) == (a as int) / (b as int),
        (a == i32::MIN && b == -1) ==> int_result(trunc_div(a as int, b as int)) == Err::<
            Val,
            EvalError,
        >(EvalError::Arithmetic),
{
    let x = a as int;
    let y = b as int;
    let ax = if x < 0 { -x } else { x };
    let ay = if y < 0 { -y } else { y };
    assert(ay >= 1);
    assert(ax / ay <= ax) by (nonlinear_arith)
        requires
            ax >= 0,
            ay >= 1,
    ;
    assert(ax / ay >= 0) by (nonlinear_arith)
        requires
            ax >= 0,
            ay >= 1,
    ;
    if ay == 1 {
        assert(ax / ay == ax) by (nonlinear_arith)
            requires
                ay == 1,
        ;
    }
    if !(a == i32::MIN && b == -1) {
        if ay != 1 {
            assert(ax / ay <= ax / 2) by (nonlinear_arith)
                requires
                    ax >= 0,
                    ay >= 2,
            ;
        }
    }
}

/// `trunc_div` rounds toward zero: the remainder it leaves is smaller than
/// the divisor and has the sign of the dividend, or is zero.
pub proof fn lemma_trunc_div(a: int, b: int)
    requires
        b != 0,
    ensures
        ({
            let r = a - trunc_div(a, b) * b;
            &&& (if r < 0 { -r } else { r }) < (if b < 0 { -b } else { b })
            &&& r == 0 || ((r > 0) == (a > 0))
        }),
{
    let ax = if a < 0 { -a } else { a };
    let ay = if b < 0 { -b } else { b };
    let q0 = ax / ay;
    let r0 = ax % ay;
    vstd::arithmetic::div_mod::lemma_fundamental_div_mod(ax, ay);
    vstd::arithmetic::div_mod::lemma_mod_pos_bound(ax, ay);
    assert(ax == ay * q0 + r0);
    let q = trunc_div(a, b);
    if a >= 0 && b > 0 {
        assert(q == q0);
        assert(a - q * b == r0);
    } else if a < 0 && b < 0 {
        assert(q == q0);
        assert(a - q * b == -r0) by (nonlinear_arith)
            requires
                ax == -a,
                ay == -b,
                ax == ay * q0 + r0,
                q == q0,
        ;
    } else if a < 0 {
        assert(q == -q0);
        assert(a - q * b == -r0) by (nonlinear_arith)
            requires
                ax == -a,
                ay == b,
                ax == ay * q0 + r0,
                q == -q0,
        ;
    } else {
        assert(q == -q0);
        assert(a - q * b == r0) by (nonlinear_arith)
            requires
                ax == a,
                ay == -b,
                ax == ay * q0 + r0,
                q == -q0,
        ;
    }
}

/// Adding an integer to a float, in either order, is a type error.
pub proof fn lemma_mixed_add(i: i32, f: u64, out: Result<Val, EvalError>)
    ensures
        binary_ok(BinOp::Add, Val::Int(i), Val::Float(f), out) <==> out == Err::<Val, EvalError>(EvalError::Type),
        binary_ok(BinOp::Add, Val::Float(f), Val::Int(i), out) <==> out == Err::<Val, EvalError>(EvalError::Type),
{
}

} // verus!
