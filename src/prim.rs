//! Built-in operations: integer arithmetic and comparison, with promotion to float.
use vstd::prelude::*;
use crate::object::{Obj, Object, Prim};

verus! {

/// Why an evaluation failed.
#[derive(Debug, PartialEq)]
pub enum EvalError {
    /// A symbol bound in no scope of the chain.
    UnboundSymbol(String),
    /// The head of an application is neither a primitive nor a closure.
    NotCallable,
    /// A procedure got a number of arguments it does not take.
    ArityMismatch,
    /// An operand has the wrong kind of value.
    TypeMismatch,
    /// Integer division by zero.
    DivisionByZero,
    /// An integer result does not fit in 64 bits.
    IntegerOverflow,
    /// A special form written with the wrong shape, such as `(if)`.
    BadSyntax,
    /// Evaluation nested deeper than the interpreter allows.
    DepthExceeded,
}

/// Float reading and arithmetic on IEEE-754 bit patterns, supplied by the host.
pub trait FloatArith {
    /// The bit pattern of the float that `word` writes, if it writes one.
    fn parse(&self, word: &str) -> Option<u64>;

    fn from_int(&self, n: i64) -> u64;

    fn add(&self, a: u64, b: u64) -> u64;

    fn sub(&self, a: u64, b: u64) -> u64;

    fn mul(&self, a: u64, b: u64) -> u64;

    fn div(&self, a: u64, b: u64) -> u64;

    fn lt(&self, a: u64, b: u64) -> bool;

    fn eq(&self, a: u64, b: u64) -> bool;
}

pub open spec fn is_number(o: Obj) -> bool {
    o is Int || o is Flt
}

/// `o` is a zero: the integer `0`, or the float `0.0` or `-0.0`.
pub open spec fn is_zero(o: Obj) -> bool {
    o == Obj::Int(0) || o == Obj::Flt(0) || o == Obj::Flt(0x8000_0000_0000_0000u64)
}

/// A float operation that is refused: division by a zero.
pub open spec fn float_refused(p: Prim, divisor: Obj) -> bool {
    p is Div && is_zero(divisor)
}

pub open spec fn fits_i64(x: int) -> bool {
    i64::MIN <= x <= i64::MAX
}

/// Division that rounds toward zero.
pub open spec fn trunc_div(x: int, y: int) -> int
    recommends
        y != 0,
{
    let q = (if x < 0 { -x } else { x }) / (if y < 0 { -y } else { y });
    if (x < 0) == (y < 0) {
        q
    } else {
        -q
    }
}

/// An integer result, or the overflow error when it does not fit.
pub open spec fn checked_int(x: int) -> Result<Obj, EvalError> {
    if fits_i64(x) {
        Ok(Obj::Int(x as i64))
    } else {
        Err(EvalError::IntegerOverflow)
    }
}

/// What a primitive gives on two integers.
pub open spec fn int_prim(p: Prim, x: i64, y: i64) -> Result<Obj, EvalError> {
    match p {
        Prim::Add => checked_int(x + y),
        Prim::Sub => checked_int(x - y),
        Prim::Mul => checked_int(x * y),
        Prim::Div => if y == 0 {
            Err(EvalError::DivisionByZero)
        } else {
            checked_int(trunc_div(x as int, y as int))
        },
        Prim::Lt => Ok(Obj::Bool(x < y)),
        Prim::Gt => Ok(Obj::Bool(x > y)),
        Prim::NumEq => Ok(Obj::Bool(x == y)),
    }
}

pub open spec fn is_comparison(p: Prim) -> bool {
    p is Lt || p is Gt || p is NumEq
}

/// The view of an evaluation result.
pub open spec fn res_view(r: Result<Object, EvalError>) -> Result<Obj, EvalError> {
    match r {
        Ok(o) => Ok(o@),
        Err(e) => Err(e),
    }
}

fn int_op(p: Prim, x: i64, y: i64) -> (r: Result<Object, EvalError>)
    ensures
        res_view(r) == int_prim(p, x, y),
{
    let a = x as i128;
    let b = y as i128;
    let v: i128 = match p {
        Prim::Lt => {
            return Ok(Object::Boolean(x < y));
        },
        Prim::Gt => {
            return Ok(Object::Boolean(x > y));
        },
        Prim::NumEq => {
            return Ok(Object::Boolean(x == y));
        },
        Prim::Add => a + b,
        Prim::Sub => a - b,
        Prim::Mul => {
            assert(-0x8000_0000_0000_0000 * 0x8000_0000_0000_0000 <= a * b
                <= 0x8000_0000_0000_0000 * 0x8000_0000_0000_0000) by (nonlinear_arith)
                requires
                    -0x8000_0000_0000_0000 <= a <= 0x7fff_ffff_ffff_ffff,
                    -0x8000_0000_0000_0000 <= b <= 0x7fff_ffff_ffff_ffff,
            ;
            a * b
        },
        Prim::Div => {
            if y == 0 {
                return Err(EvalError::DivisionByZero);
            }
            let ua: i128 = if a < 0 { -a } else { a };
            let ub: i128 = if b < 0 { -b } else { b };
            let q = ua / ub;
            if (a < 0) == (b < 0) { q } else { -q }
        },
    };
    if v < i64::MIN as i128 || v > i64::MAX as i128 {
        Err(EvalError::IntegerOverflow)
    } else {
        Ok(Object::Integer(v as i64))
    }
}

fn as_float<F: FloatArith>(o: &Object, fl: &F) -> (r: u64)
    requires
        o is Integer || o is Float,
{
    match o {
        Object::Float(b) => *b,
        Object::Integer(n) => fl.from_int(*n),
        _ => 0,
    }
}

/// Applies a primitive to evaluated arguments. Every primitive takes two numbers;
/// two integers give an exact integer result, and a float operand makes the
/// operation a float one, computed by `fl`.
pub fn apply_prim<F: FloatArith>(p: Prim, args: &Vec<Object>, fl: &F) -> (r: Result<
    Object,
    EvalError,
>)
    ensures
        args@.len() != 2 ==> r == Err::<Object, EvalError>(EvalError::ArityMismatch),
        args@.len() == 2 && !(is_number(args@[0]@) && is_number(args@[1]@)) ==> r == Err::<
            Object,
            EvalError,
        >(EvalError::TypeMismatch),
        args@.len() == 2 && args@[0]@ is Int && args@[1]@ is Int ==> res_view(r) == int_prim(
            p,
            args@[0]@->Int_0,
            args@[1]@->Int_0,
        ),
        args@.len() == 2 && is_number(args@[0]@) && is_number(args@[1]@) && (args@[0]@ is Flt
            || args@[1]@ is Flt) && float_refused(p, args@[1]@) ==> r == Err::<Object, EvalError>(
            EvalError::DivisionByZero,
        ),
        args@.len() == 2 && is_number(args@[0]@) && is_number(args@[1]@) && (args@[0]@ is Flt
            || args@[1]@ is Flt) && !float_refused(p, args@[1]@) ==> (r matches Ok(o) && if is_comparison(p) {
            o is Boolean
        } else {
            o is Float
        }),
{
    if args.len() != 2 {
        return Err(EvalError::ArityMismatch);
    }
    let a = &args[0];
    let b = &args[1];
    match (a, b) {
        (Object::Integer(x), Object::Integer(y)) => int_op(p, *x, *y),
        (Object::Integer(_), Object::Float(_))
        | (Object::Float(_), Object::Integer(_))
        | (Object::Float(_), Object::Float(_)) => {
            let zero = match b {
                Object::Integer(y) => *y == 0,
                Object::Float(y) => *y == 0 || *y == 0x8000_0000_0000_0000u64,
                _ => false,
            };
            if zero && p == Prim::Div {
                return Err(EvalError::DivisionByZero);
            }
            let x = as_float(a, fl);
            let y = as_float(b, fl);
            match p {
                Prim::Add => Ok(Object::Float(fl.add(x, y))),
                Prim::Sub => Ok(Object::Float(fl.sub(x, y))),
                Prim::Mul => Ok(Object::Float(fl.mul(x, y))),
                Prim::Div => Ok(Object::Float(fl.div(x, y))),
                Prim::Lt => Ok(Object::Boolean(fl.lt(x, y))),
                Prim::Gt => Ok(Object::Boolean(fl.lt(y, x))),
                Prim::NumEq => Ok(Object::Boolean(fl.eq(x, y))),
            }
        },
        _ => Err(EvalError::TypeMismatch),
    }
}

} // verus!
