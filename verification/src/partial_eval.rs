//! Pieces of partial evaluation that work on plain values: folding binary operations on
//! literals, emitting the RIR instructions for binary operations on dynamic operands, and the
//! mappings between the evaluator's and the RIR's types.
use crate::rir::{
    operands_read, Callable, CallableType,
    operand_type, ConditionCode, FcmpConditionCode, Instruction, Literal, Operand, Prim, Ty, Variable,
    VariableId,
};
use crate::rca::{
    RuntimeFeatureFlags, CALL_TO_CYCLIC_OPERATION, CALL_TO_UNRESOLVED_CALLEE, CYCLIC_OPERATION_SPEC, QUBIT_ALLOCATION,
};
use crate::target::{TargetCapabilityFlags, CALL_SUPPORT_BIT, DYNAMIC_QUBIT_ALLOCATION_BIT};
use vstd::arithmetic::power::pow;
use vstd::prelude::*;

verus! {

/// The options of partial evaluation.
#[derive(Clone, Copy, Debug)]
pub struct PartialEvalConfig {
    pub generate_debug_metadata: bool,
}

/// A binary operator of the source language.
#[derive(Clone, Copy, Debug, PartialEq, Eq, Structural)]
pub enum BinOp {
    Add,
    AndB,
    AndL,
    Div,
    Eq,
    Exp,
    Gt,
    Gte,
    Lt,
    Lte,
    Mod,
    Mul,
    Neq,
    OrB,
    OrL,
    Shl,
    Shr,
    Sub,
    XorB,
}

/// A classical value that a binary operation on literals folds to.
#[derive(Clone, Copy, Debug, PartialEq, Eq, Structural)]
pub enum Value {
    Bool(bool),
    Int(i64),
}

/// Why a binary operation cannot be evaluated or emitted.
#[derive(Clone, Copy, Debug, PartialEq, Eq, Structural)]
pub enum BinOpError {
    /// Division (or remainder) by zero.
    DivZero,
    /// An exponent that does not fit in 32 bits.
    IntTooLarge(i64),
    /// A negative exponent.
    InvalidNegativeInt(i64),
    /// An exponent that is not a classical integer.
    NonClassicalExponent,
}

/// A functor of the source language.
#[derive(Clone, Copy, Debug, PartialEq, Eq, Structural)]
pub enum Functor {
    Adj,
    Ctl,
}

/// A unary operator of the source language.
#[derive(Clone, Copy, Debug, PartialEq, Eq, Structural)]
pub enum UnOp {
    Functor(Functor),
    Neg,
    NotB,
    NotL,
    Pos,
    Unwrap,
}

/// Why no instruction exists for a unary operation on a dynamic value.
#[derive(Clone, Copy, Debug, PartialEq, Eq, Structural)]
pub enum UnOpError {
    /// The operator applies to callables or to wrapped values, never to a dynamic scalar.
    InvalidOperator(UnOp),
}

/// The type of a variable of the evaluator.
#[derive(Clone, Copy, Debug, PartialEq, Eq, Structural)]
pub enum VarTy {
    Boolean,
    Integer,
    Double,
    Qubit,
}

/// A variable of the evaluator: its number and its type.
#[derive(Clone, Copy, Debug, PartialEq, Eq, Structural)]
pub struct Var {
    pub id: usize,
    pub ty: VarTy,
}

/// The specializations that a functor application selects.
#[derive(Clone, Copy, Debug, PartialEq, Eq, Structural)]
pub enum FunctorSetValue {
    Empty,
    Adj,
    Ctl,
    CtlAdj,
}

/// A functor application: adjoint or not, and how many times controlled.
#[derive(Clone, Copy, Debug, PartialEq, Eq, Structural)]
pub struct FunctorApp {
    pub adjoint: bool,
    pub controlled: u8,
}

/// The specialization that a functor application selects; distinct control counts collapse to
/// the same controlled specialization.
pub fn functor_app_to_functor_set_value(functor_app: FunctorApp) -> (r: FunctorSetValue)
    ensures
        r == (if functor_app.adjoint {
            if functor_app.controlled > 0 {
                FunctorSetValue::CtlAdj
            } else {
                FunctorSetValue::Adj
            }
        } else if functor_app.controlled > 0 {
            FunctorSetValue::Ctl
        } else {
            FunctorSetValue::Empty
        }),
{
    match (functor_app.adjoint, functor_app.controlled > 0) {
        (false, false) => FunctorSetValue::Empty,
        (true, false) => FunctorSetValue::Adj,
        (false, true) => FunctorSetValue::Ctl,
        (true, true) => FunctorSetValue::CtlAdj,
    }
}

/// The RIR type of a variable type of the evaluator.
pub open spec fn rir_type_of(t: VarTy) -> Ty {
    match t {
        VarTy::Boolean => Ty::Prim(Prim::Boolean),
        VarTy::Integer => Ty::Prim(Prim::Integer),
        VarTy::Double => Ty::Prim(Prim::Double),
        VarTy::Qubit => Ty::Prim(Prim::Qubit),
    }
}

/// The RIR type of a variable type of the evaluator.
pub fn map_eval_var_type_to_rir_type(var_ty: VarTy) -> (r: Ty)
    ensures
        r == rir_type_of(var_ty),
{
    match var_ty {
        VarTy::Boolean => Ty::Prim(Prim::Boolean),
        VarTy::Integer => Ty::Prim(Prim::Integer),
        VarTy::Double => Ty::Prim(Prim::Double),
        VarTy::Qubit => Ty::Prim(Prim::Qubit),
    }
}

/// The variable type of the evaluator for a RIR type: booleans, integers, doubles and qubits
/// have one, other types none.
pub open spec fn eval_type_of(ty: Ty) -> Result<VarTy, ()> {
    match ty {
        Ty::Prim(Prim::Boolean) => Ok(VarTy::Boolean),
        Ty::Prim(Prim::Integer) => Ok(VarTy::Integer),
        Ty::Prim(Prim::Double) => Ok(VarTy::Double),
        Ty::Prim(Prim::Qubit) => Ok(VarTy::Qubit),
        _ => Err(()),
    }
}

/// The variable type of the evaluator for a RIR type, when there is one.
pub fn map_rir_type_to_eval_var_type(ty: Ty) -> (r: Result<VarTy, ()>)
    ensures
        r == eval_type_of(ty),
{
    match ty {
        Ty::Prim(Prim::Boolean) => Ok(VarTy::Boolean),
        Ty::Prim(Prim::Integer) => Ok(VarTy::Integer),
        Ty::Prim(Prim::Double) => Ok(VarTy::Double),
        Ty::Prim(Prim::Qubit) => Ok(VarTy::Qubit),
        _ => Err(()),
    }
}

/// The RIR variable for a variable of the evaluator, whose number must fit in 32 bits.
pub fn map_eval_var_to_rir_var(var: Var) -> (r: Variable)
    requires
        var.id <= u32::MAX,
    ensures
        r == (Variable { variable_id: VariableId(var.id as u32), ty: rir_type_of(var.ty) }),
{
    Variable { variable_id: VariableId(var.id as u32), ty: map_eval_var_type_to_rir_type(var.ty) }
}

/// The variable of the evaluator for a RIR variable, when its type has one.
pub fn map_rir_var_to_eval_var(var: Variable) -> (r: Result<Var, ()>)
    ensures
        r == (match eval_type_of(var.ty) {
            Ok(t) => Ok(Var { id: var.variable_id.0 as usize, ty: t }),
            Err(()) => Err::<Var, ()>(()),
        }),
{
    let ty = map_rir_type_to_eval_var_type(var.ty)?;
    Ok(Var { id: var.variable_id.0 as usize, ty })
}

/// Mapping a variable type of the evaluator to the RIR and back gives it again, and a RIR type
/// that maps to a variable type is the RIR type of that variable type.
pub proof fn lemma_var_type_round_trip(t: VarTy, ty: Ty)
    ensures
        eval_type_of(rir_type_of(t)) == Ok::<VarTy, ()>(t),
        eval_type_of(ty) matches Ok(u) ==> rir_type_of(u) == ty,
{
}

/// Mapping a variable of the evaluator, numbered within 32 bits, to the RIR and back gives it
/// again: the number survives the trip and the type maps back to itself.
pub proof fn lemma_var_round_trip(var: Var)
    requires
        var.id <= u32::MAX,
    ensures
        ((var.id as u32) as usize) == var.id,
        eval_type_of(rir_type_of(var.ty)) == Ok::<VarTy, ()>(var.ty),
{
}

/// The value of two boolean literals under a boolean operator.
pub fn eval_bin_op_with_bool_literals(bin_op: BinOp, lhs_literal: Literal, rhs_literal: Literal) -> (r: Value)
    requires
        lhs_literal is Bool,
        rhs_literal is Bool,
        bin_op is Eq || bin_op is Neq || bin_op is AndL || bin_op is OrL,
    ensures
        r == Value::Bool(match bin_op {
            BinOp::Eq => lhs_literal->Bool_0 == rhs_literal->Bool_0,
            BinOp::Neq => lhs_literal->Bool_0 != rhs_literal->Bool_0,
            BinOp::AndL => lhs_literal->Bool_0 && rhs_literal->Bool_0,
            _ => lhs_literal->Bool_0 || rhs_literal->Bool_0,
        }),
{
    let (lhs_bool, rhs_bool) = match (lhs_literal, rhs_literal) {
        (Literal::Bool(a), Literal::Bool(b)) => (a, b),
        _ => vstd::pervasive::unreached(),
    };
    let bin_op_result = match bin_op {
        BinOp::Eq => lhs_bool == rhs_bool,
        BinOp::Neq => lhs_bool != rhs_bool,
        BinOp::AndL => lhs_bool && rhs_bool,
        _ => lhs_bool || rhs_bool,
    };
    Value::Bool(bin_op_result)
}

/// The absolute value of `x`.
pub open spec fn abs(x: int) -> int {
    if x < 0 {
        -x
    } else {
        x
    }
}

/// One more factor of `b` multiplies the power by `b`, and when `b` is not zero the powers of
/// `b` grow in absolute value: by a factor of at least two when `b` is neither 1 nor -1.
proof fn lemma_pow_grows(b: int, j: nat, e: nat)
    requires
        j <= e,
    ensures
        pow(b, j + 1) == b * pow(b, j),
        abs(b) >= 1 ==> abs(pow(b, j)) <= abs(pow(b, e)),
        abs(b) >= 2 && j < e ==> 2 * abs(pow(b, j)) <= abs(pow(b, e)),
    decreases e - j,
{
    reveal(pow);
    if j < e {
        lemma_pow_grows(b, j + 1, e);
        let x = pow(b, j);
        assert(abs(b * x) == abs(b) * abs(x)) by (nonlinear_arith);
        assert(abs(b) >= 1 ==> abs(x) <= abs(b) * abs(x)) by (nonlinear_arith);
        assert(abs(b) >= 2 ==> 2 * abs(x) <= abs(b) * abs(x)) by (nonlinear_arith);
    }
}

/// The powers of a number no larger than 1 in absolute value are no larger than 1 either.
proof fn lemma_pow_unit(b: int, j: nat)
    requires
        abs(b) <= 1,
    ensures
        abs(pow(b, j)) <= 1,
    decreases j,
{
    reveal(pow);
    if j > 0 {
        lemma_pow_unit(b, (j - 1) as nat);
        let x = pow(b, (j - 1) as nat);
        assert(abs(b * x) <= 1) by (nonlinear_arith)
            requires
                abs(b) <= 1,
                abs(x) <= 1,
        ;
    }
}

/// The powers of 0, 1 and -1.
proof fn lemma_pow_of_unit(b: int, e: nat)
    requires
        -1 <= b <= 1,
    ensures
        b == 0 ==> pow(b, e) == if e == 0 { 1int } else { 0int },
        b == 1 ==> pow(b, e) == 1,
        b == -1 ==> pow(b, e) == if e % 2 == 0 { 1int } else { -1int },
    decreases e,
{
    reveal(pow);
    if e > 0 {
        lemma_pow_of_unit(b, (e - 1) as nat);
    }
}

/// Every power of `b` up to a power `e` that fits in an `i64` fits too.
proof fn lemma_pow_fits(b: int, j: nat, e: nat)
    requires
        j <= e,
        i64::MIN <= pow(b, e) <= i64::MAX,
    ensures
        i64::MIN <= pow(b, j) <= i64::MAX,
{
    reveal(pow);
    lemma_pow_grows(b, j, e);
    if abs(b) <= 1 {
        lemma_pow_unit(b, j);
    } else if j < e {
        assert(2 * abs(pow(b, j)) <= abs(pow(b, e)));
    }
}

/// `base` raised to the power `exp`: directly for 0, 1 and -1, and by repeated multiplication
/// otherwise, which takes fewer than 64 steps since the power fits in an `i64`.
fn i64_pow(base: i64, exp: u32) -> (r: i64)
    requires
        i64::MIN <= pow(base as int, exp as nat) <= i64::MAX,
    ensures
        r == pow(base as int, exp as nat),
{
    if -1 <= base && base <= 1 {
        proof {
            lemma_pow_of_unit(base as int, exp as nat);
        }
        if base == 0 {
            return if exp == 0 { 1 } else { 0 };
        } else if base == 1 {
            return 1;
        } else {
            return if exp % 2 == 0 { 1 } else { -1 };
        }
    }
    let mut r: i64 = 1;
    let mut k: u32 = 0;
    proof {
        reveal(pow);
    }
    while k < exp
        invariant
            k <= exp,
            r == pow(base as int, k as nat),
            i64::MIN <= pow(base as int, exp as nat) <= i64::MAX,
        decreases exp - k,
    {
        proof {
            lemma_pow_grows(base as int, k as nat, exp as nat);
            lemma_pow_fits(base as int, (k + 1) as nat, exp as nat);
        }
        r = base * r;
        k = k + 1;
    }
    r
}

/// Whether an integer operator is one that `eval_bin_op_with_integer_literals` folds.
pub open spec fn is_integer_bin_op(op: BinOp) -> bool {
    !(op is AndL || op is OrL)
}

/// Whether folding `lhs op rhs` on 64-bit integers stays in range: sums, differences,
/// products, quotients and powers fit, and shift amounts are below 64.
pub open spec fn integer_bin_op_in_range(op: BinOp, lhs: i64, rhs: i64) -> bool {
    match op {
        BinOp::Add => i64::MIN <= lhs + rhs <= i64::MAX,
        BinOp::Sub => i64::MIN <= lhs - rhs <= i64::MAX,
        BinOp::Mul => i64::MIN <= lhs * rhs <= i64::MAX,
        BinOp::Div | BinOp::Mod => !(lhs == i64::MIN && rhs == -1),
        BinOp::Exp => 0 <= rhs <= u32::MAX ==> i64::MIN <= pow(lhs as int, rhs as nat) <= i64::MAX,
        BinOp::Shl | BinOp::Shr => 0 <= rhs < 64,
        _ => true,
    }
}

/// The value of `lhs op rhs` on 64-bit integers: comparisons give booleans, division and
/// remainder truncate and fail on a zero divisor, and a power fails on an exponent outside
/// the 32-bit unsigned range.
pub open spec fn integer_bin_op_value(op: BinOp, lhs: i64, rhs: i64) -> Result<Value, BinOpError> {
    match op {
        BinOp::Eq => Ok(Value::Bool(lhs == rhs)),
        BinOp::Neq => Ok(Value::Bool(lhs != rhs)),
        BinOp::Gt => Ok(Value::Bool(lhs > rhs)),
        BinOp::Gte => Ok(Value::Bool(lhs >= rhs)),
        BinOp::Lt => Ok(Value::Bool(lhs < rhs)),
        BinOp::Lte => Ok(Value::Bool(lhs <= rhs)),
        BinOp::Add => Ok(Value::Int((lhs + rhs) as i64)),
        BinOp::Sub => Ok(Value::Int((lhs - rhs) as i64)),
        BinOp::Mul => Ok(Value::Int((lhs * rhs) as i64)),
        BinOp::Div => if rhs == 0 {
            Err(BinOpError::DivZero)
        } else {
            Ok(Value::Int(lhs.checked_div(rhs)->0))
        },
        BinOp::Mod => if rhs == 0 {
            Err(BinOpError::DivZero)
        } else {
            Ok(Value::Int(lhs.checked_rem(rhs)->0))
        },
        BinOp::Exp => if 0 <= rhs <= u32::MAX {
            Ok(Value::Int(pow(lhs as int, rhs as nat) as i64))
        } else {
            Err(BinOpError::IntTooLarge(rhs))
        },
        BinOp::AndB => Ok(Value::Int(lhs & rhs)),
        BinOp::OrB => Ok(Value::Int(lhs | rhs)),
        BinOp::XorB => Ok(Value::Int(lhs ^ rhs)),
        BinOp::Shl => Ok(Value::Int(lhs << rhs)),
        _ => Ok(Value::Int(lhs >> rhs)),
    }
}

/// A quotient of 64-bit integers is in range unless it divides the least value by minus one.
proof fn lemma_checked_div_some(x: i64, d: i64)
    requires
        d != 0,
        !(x == i64::MIN && d == -1),
    ensures
        x.checked_div(d) is Some,
{
    let xi = x as int;
    let di = d as int;
    if xi > 0 && di > 0 {
        assert(0 <= xi / di <= xi) by (nonlinear_arith)
            requires
                xi > 0,
                di > 0,
        ;
    } else if xi < 0 && di < 0 {
        assert(0 <= (xi * -1) / (di * -1) <= xi * -1) by (nonlinear_arith)
            requires
                xi < 0,
                di < 0,
        ;
        if xi == i64::MIN {
            assert((xi * -1) / (di * -1) <= i64::MAX) by (nonlinear_arith)
                requires
                    xi == i64::MIN,
                    di < -1,
            ;
        }
    } else if xi < 0 && di > 0 {
        assert(0 <= (xi * -1) / di <= xi * -1) by (nonlinear_arith)
            requires
                xi < 0,
                di > 0,
        ;
    } else if xi > 0 && di < 0 {
        assert(0 <= xi / (di * -1) <= xi) by (nonlinear_arith)
            requires
                xi > 0,
                di < 0,
        ;
    }
}

/// The value of two integer literals under an integer operator.
pub fn eval_bin_op_with_integer_literals(bin_op: BinOp, lhs_literal: Literal, rhs_literal: Literal) -> (r: Result<Value, BinOpError>)
    requires
        lhs_literal is Integer,
        rhs_literal is Integer,
        is_integer_bin_op(bin_op),
        integer_bin_op_in_range(bin_op, lhs_literal->Integer_0, rhs_literal->Integer_0),
    ensures
        r == integer_bin_op_value(bin_op, lhs_literal->Integer_0, rhs_literal->Integer_0),
{
    let (lhs_int, rhs_int) = match (lhs_literal, rhs_literal) {
        (Literal::Integer(a), Literal::Integer(b)) => (a, b),
        _ => vstd::pervasive::unreached(),
    };
    match bin_op {
        BinOp::Eq => Ok(Value::Bool(lhs_int == rhs_int)),
        BinOp::Neq => Ok(Value::Bool(lhs_int != rhs_int)),
        BinOp::Gt => Ok(Value::Bool(lhs_int > rhs_int)),
        BinOp::Gte => Ok(Value::Bool(lhs_int >= rhs_int)),
        BinOp::Lt => Ok(Value::Bool(lhs_int < rhs_int)),
        BinOp::Lte => Ok(Value::Bool(lhs_int <= rhs_int)),
        BinOp::Add => Ok(Value::Int(lhs_int + rhs_int)),
        BinOp::Sub => Ok(Value::Int(lhs_int - rhs_int)),
        BinOp::Mul => Ok(Value::Int(lhs_int * rhs_int)),
        BinOp::Div => {
            if rhs_int == 0 {
                Err(BinOpError::DivZero)
            } else {
                proof {
                    lemma_checked_div_some(lhs_int, rhs_int);
                }
                Ok(Value::Int(lhs_int.checked_div(rhs_int).unwrap()))
            }
        },
        BinOp::Mod => {
            if rhs_int == 0 {
                Err(BinOpError::DivZero)
            } else {
                Ok(Value::Int(lhs_int.checked_rem(rhs_int).unwrap()))
            }
        },
        BinOp::Exp => {
            if rhs_int < 0 || rhs_int > 0xffff_ffff {
                Err(BinOpError::IntTooLarge(rhs_int))
            } else {
                let exp = rhs_int as u32;
                Ok(Value::Int(i64_pow(lhs_int, exp)))
            }
        },
        BinOp::AndB => Ok(Value::Int(lhs_int & rhs_int)),
        BinOp::OrB => Ok(Value::Int(lhs_int | rhs_int)),
        BinOp::XorB => Ok(Value::Int(lhs_int ^ rhs_int)),
        BinOp::Shl => Ok(Value::Int(lhs_int << rhs_int)),
        _ => Ok(Value::Int(lhs_int >> rhs_int)),
    }
}

/// Whether an operator compares its operands.
pub open spec fn is_comparison(op: BinOp) -> bool {
    op is Eq || op is Neq || op is Gt || op is Gte || op is Lt || op is Lte
}

/// An integer variable.
pub open spec fn int_var(id: nat) -> Variable {
    Variable { variable_id: VariableId(id as u32), ty: Ty::Prim(Prim::Integer) }
}

/// A boolean variable.
pub open spec fn bool_var(id: nat) -> Variable {
    Variable { variable_id: VariableId(id as u32), ty: Ty::Prim(Prim::Boolean) }
}

/// A double variable.
pub open spec fn double_var(id: nat) -> Variable {
    Variable { variable_id: VariableId(id as u32), ty: Ty::Prim(Prim::Double) }
}

/// The instruction that an operator other than exponentiation emits on integer operands.
pub open spec fn integer_op_instruction(op: BinOp, lhs: Operand, rhs: Operand, v: Variable) -> Instruction {
    match op {
        BinOp::Add => Instruction::Add(lhs, rhs, v),
        BinOp::Sub => Instruction::Sub(lhs, rhs, v),
        BinOp::Mul => Instruction::Mul(lhs, rhs, v),
        BinOp::Div => Instruction::Sdiv(lhs, rhs, v),
        BinOp::Mod => Instruction::Srem(lhs, rhs, v),
        BinOp::AndB => Instruction::BitwiseAnd(lhs, rhs, v),
        BinOp::OrB => Instruction::BitwiseOr(lhs, rhs, v),
        BinOp::XorB => Instruction::BitwiseXor(lhs, rhs, v),
        BinOp::Shl => Instruction::Shl(lhs, rhs, v),
        BinOp::Shr => Instruction::Ashr(lhs, rhs, v),
        BinOp::Eq => Instruction::Icmp(ConditionCode::Eq, lhs, rhs, v),
        BinOp::Neq => Instruction::Icmp(ConditionCode::Ne, lhs, rhs, v),
        BinOp::Gt => Instruction::Icmp(ConditionCode::Sgt, lhs, rhs, v),
        BinOp::Gte => Instruction::Icmp(ConditionCode::Sge, lhs, rhs, v),
        BinOp::Lt => Instruction::Icmp(ConditionCode::Slt, lhs, rhs, v),
        _ => Instruction::Icmp(ConditionCode::Sle, lhs, rhs, v),
    }
}

/// The instructions that compute `lhs` to the power `e` by repeated multiplication, into the
/// fresh integer variables numbered `n` to `n + e`: the first holds one, each next one the
/// product of the one before and `lhs`.
pub open spec fn power_instructions(lhs: Operand, n: nat, e: nat) -> Seq<Instruction> {
    Seq::new(
        e + 1,
        |i: int|
            if i == 0 {
                Instruction::Store(Operand::Literal(Literal::Integer(1)), int_var(n))
            } else {
                Instruction::Mul(Operand::Variable(int_var((n + i - 1) as nat)), lhs, int_var((n + i) as nat))
            },
    )
}

/// How many fresh variables an operation on integer operands takes: none when it is refused
/// (a negative or non-literal exponent, a division by a literal zero).
pub open spec fn integer_op_vars(op: BinOp, rhs: Operand) -> nat {
    match (op, rhs) {
        (BinOp::Exp, Operand::Literal(Literal::Integer(e))) => if e >= 0 {
            (e + 1) as nat
        } else {
            0
        },
        (BinOp::Exp, _) => 0,
        (BinOp::Div, Operand::Literal(Literal::Integer(0))) => 0,
        _ => 1,
    }
}

/// The variable that an operator other than exponentiation puts its result in: boolean for a
/// comparison, integer otherwise.
pub open spec fn integer_result_var(op: BinOp, n: VariableId) -> Variable {
    if is_comparison(op) {
        bool_var(n.0 as nat)
    } else {
        int_var(n.0 as nat)
    }
}

/// What exponentiation does: with a non-negative literal exponent `e` it appends the power
/// instructions, takes `e + 1` fresh variables and gives the last; otherwise it changes nothing
/// and fails.
pub open spec fn exp_outcome(
    lhs: Operand,
    rhs: Operand,
    n0: VariableId,
    n1: VariableId,
    b0: Seq<Instruction>,
    b1: Seq<Instruction>,
    r: Result<Variable, BinOpError>,
) -> bool {
    match rhs {
        Operand::Literal(Literal::Integer(e)) => if e < 0 {
            &&& r == Err::<Variable, BinOpError>(BinOpError::InvalidNegativeInt(e))
            &&& b1 == b0
            &&& n1 == n0
        } else {
            &&& r == Ok::<Variable, BinOpError>(int_var((n0.0 + e) as nat))
            &&& b1 == b0 + power_instructions(lhs, n0.0 as nat, e as nat)
            &&& n1.0 == n0.0 + e + 1
        },
        _ => {
            &&& r == Err::<Variable, BinOpError>(BinOpError::NonClassicalExponent)
            &&& b1 == b0
            &&& n1 == n0
        },
    }
}

/// Appends the instructions that compute `lhs` to the power `exponent` and gives the variable
/// that holds it.
fn emit_power(lhs_operand: Operand, exponent: i64, next_var: &mut VariableId, block: &mut Vec<Instruction>) -> (r: Variable)
    requires
        exponent >= 0,
        old(next_var).0 + exponent + 1 <= u32::MAX,
    ensures
        r == int_var((old(next_var).0 + exponent) as nat),
        final(block)@ == old(block)@ + power_instructions(lhs_operand, old(next_var).0 as nat, exponent as nat),
        final(next_var).0 == old(next_var).0 + exponent + 1,
{
    let ghost b0 = block@;
    let ghost n0 = next_var.0 as nat;
    let mut current_rir_variable = Variable::new_integer(*next_var);
    *next_var = next_var.successor();
    block.push(Instruction::Store(Operand::Literal(Literal::Integer(1)), current_rir_variable));
    let mut i: i64 = 0;
    proof {
        assert(block@ =~= b0 + power_instructions(lhs_operand, n0, 0));
    }
    while i < exponent
        invariant
            0 <= i <= exponent,
            n0 + exponent + 1 <= u32::MAX,
            next_var.0 == n0 + i + 1,
            current_rir_variable == int_var((n0 + i) as nat),
            block@ == b0 + power_instructions(lhs_operand, n0, i as nat),
        decreases exponent - i,
    {
        let mult_variable = Variable::new_integer(*next_var);
        *next_var = next_var.successor();
        let mult_ins = Instruction::Mul(Operand::Variable(current_rir_variable), lhs_operand, mult_variable);
        block.push(mult_ins);
        current_rir_variable = mult_variable;
        proof {
            assert(power_instructions(lhs_operand, n0, (i + 1) as nat) =~= power_instructions(lhs_operand, n0, i as nat).push(
                mult_ins,
            ));
        }
        i = i + 1;
    }
    current_rir_variable
}

/// Emits into `block` the instructions for a binary operation on integer operands, in fresh
/// variables taken from `next_var`, and gives the variable that holds the result. Division by
/// a literal zero and exponents that are not non-negative literals are refused.
pub fn generate_instructions_for_binary_operation_with_integer_operands(
    bin_op: BinOp,
    lhs_operand: Operand,
    rhs_operand: Operand,
    next_var: &mut VariableId,
    block: &mut Vec<Instruction>,
) -> (r: Result<Variable, BinOpError>)
    requires
        is_integer_bin_op(bin_op),
        old(next_var).0 + integer_op_vars(bin_op, rhs_operand) <= u32::MAX,
    ensures
        bin_op is Exp ==> exp_outcome(lhs_operand, rhs_operand, *old(next_var), *final(next_var), old(block)@, final(block)@, r),
        bin_op is Div && rhs_operand == Operand::Literal(Literal::Integer(0)) ==> {
            &&& r == Err::<Variable, BinOpError>(BinOpError::DivZero)
            &&& final(block)@ == old(block)@
            &&& *final(next_var) == *old(next_var)
        },
        !(bin_op is Exp) && !(bin_op is Div && rhs_operand == Operand::Literal(Literal::Integer(0))) ==> {
            &&& r == Ok::<Variable, BinOpError>(integer_result_var(bin_op, *old(next_var)))
            &&& final(block)@ == old(block)@.push(
                integer_op_instruction(bin_op, lhs_operand, rhs_operand, integer_result_var(bin_op, *old(next_var))),
            )
            &&& final(next_var).0 == old(next_var).0 + 1
        },
{
    match bin_op {
        BinOp::Exp => {
            let exponent = match rhs_operand {
                Operand::Literal(Literal::Integer(exponent)) => exponent,
                _ => {
                    return Err(BinOpError::NonClassicalExponent);
                },
            };
            if exponent < 0 {
                return Err(BinOpError::InvalidNegativeInt(exponent));
            }
            Ok(emit_power(lhs_operand, exponent, next_var, block))
        },
        BinOp::Div => {
            if let Operand::Literal(Literal::Integer(0)) = rhs_operand {
                return Err(BinOpError::DivZero);
            }
            let v = Variable::new_integer(*next_var);
            *next_var = next_var.successor();
            block.push(Instruction::Sdiv(lhs_operand, rhs_operand, v));
            Ok(v)
        },
        _ => {
            let v = if bin_op == BinOp::Eq || bin_op == BinOp::Neq || bin_op == BinOp::Gt || bin_op == BinOp::Gte
                || bin_op == BinOp::Lt || bin_op == BinOp::Lte {
                Variable::new_boolean(*next_var)
            } else {
                Variable::new_integer(*next_var)
            };
            *next_var = next_var.successor();
            let ins = match bin_op {
                BinOp::Add => Instruction::Add(lhs_operand, rhs_operand, v),
                BinOp::Sub => Instruction::Sub(lhs_operand, rhs_operand, v),
                BinOp::Mul => Instruction::Mul(lhs_operand, rhs_operand, v),
                BinOp::Mod => Instruction::Srem(lhs_operand, rhs_operand, v),
                BinOp::AndB => Instruction::BitwiseAnd(lhs_operand, rhs_operand, v),
                BinOp::OrB => Instruction::BitwiseOr(lhs_operand, rhs_operand, v),
                BinOp::XorB => Instruction::BitwiseXor(lhs_operand, rhs_operand, v),
                BinOp::Shl => Instruction::Shl(lhs_operand, rhs_operand, v),
                BinOp::Shr => Instruction::Ashr(lhs_operand, rhs_operand, v),
                BinOp::Eq => Instruction::Icmp(ConditionCode::Eq, lhs_operand, rhs_operand, v),
                BinOp::Neq => Instruction::Icmp(ConditionCode::Ne, lhs_operand, rhs_operand, v),
                BinOp::Gt => Instruction::Icmp(ConditionCode::Sgt, lhs_operand, rhs_operand, v),
                BinOp::Gte => Instruction::Icmp(ConditionCode::Sge, lhs_operand, rhs_operand, v),
                BinOp::Lt => Instruction::Icmp(ConditionCode::Slt, lhs_operand, rhs_operand, v),
                _ => Instruction::Icmp(ConditionCode::Sle, lhs_operand, rhs_operand, v),
            };
            block.push(ins);
            Ok(v)
        },
    }
}

/// Whether an operand is a double literal zero, positive or negative.
pub open spec fn is_double_zero(op: Operand) -> bool {
    op == Operand::Literal(Literal::Double(0)) || op == Operand::Literal(Literal::Double(0x8000_0000_0000_0000))
}

/// Whether an operator is one that applies to double operands.
pub open spec fn is_double_bin_op(op: BinOp) -> bool {
    op is Add || op is Sub || op is Mul || op is Div || op is Mod || is_comparison(op)
}

/// The variable that an operator on doubles puts its result in: boolean for a comparison,
/// double otherwise.
pub open spec fn double_result_var(op: BinOp, n: VariableId) -> Variable {
    if is_comparison(op) {
        bool_var(n.0 as nat)
    } else {
        double_var(n.0 as nat)
    }
}

/// The instruction that an operator emits on double operands.
pub open spec fn double_op_instruction(op: BinOp, lhs: Operand, rhs: Operand, v: Variable) -> Instruction {
    match op {
        BinOp::Add => Instruction::Fadd(lhs, rhs, v),
        BinOp::Sub => Instruction::Fsub(lhs, rhs, v),
        BinOp::Mul => Instruction::Fmul(lhs, rhs, v),
        BinOp::Div => Instruction::Fdiv(lhs, rhs, v),
        BinOp::Mod => Instruction::Frem(lhs, rhs, v),
        BinOp::Eq => Instruction::Fcmp(FcmpConditionCode::OrderedAndEqual, lhs, rhs, v),
        BinOp::Neq => Instruction::Fcmp(FcmpConditionCode::OrderedAndNotEqual, lhs, rhs, v),
        BinOp::Gt => Instruction::Fcmp(FcmpConditionCode::OrderedAndGreaterThan, lhs, rhs, v),
        BinOp::Gte => Instruction::Fcmp(FcmpConditionCode::OrderedAndGreaterThanOrEqual, lhs, rhs, v),
        BinOp::Lt => Instruction::Fcmp(FcmpConditionCode::OrderedAndLessThan, lhs, rhs, v),
        _ => Instruction::Fcmp(FcmpConditionCode::OrderedAndLessThanOrEqual, lhs, rhs, v),
    }
}

/// Emits into `block` the instruction for a binary operation on double operands, in a fresh
/// variable taken from `next_var` (taken also when the operation is refused), and gives that
/// variable. Division and remainder by a literal zero are refused.
pub fn generate_instructions_for_binary_operation_with_double_operands(
    bin_op: BinOp,
    lhs_operand: Operand,
    rhs_operand: Operand,
    next_var: &mut VariableId,
    block: &mut Vec<Instruction>,
) -> (r: Result<Variable, BinOpError>)
    requires
        is_double_bin_op(bin_op),
        old(next_var).0 < u32::MAX,
    ensures
        final(next_var).0 == old(next_var).0 + 1,
        (bin_op is Div || bin_op is Mod) && is_double_zero(rhs_operand) ==> {
            &&& r == Err::<Variable, BinOpError>(BinOpError::DivZero)
            &&& final(block)@ == old(block)@
        },
        !((bin_op is Div || bin_op is Mod) && is_double_zero(rhs_operand)) ==> {
            &&& r == Ok::<Variable, BinOpError>(double_result_var(bin_op, *old(next_var)))
            &&& final(block)@ == old(block)@.push(
                double_op_instruction(bin_op, lhs_operand, rhs_operand, double_result_var(bin_op, *old(next_var))),
            )
        },
{
    let id = *next_var;
    *next_var = next_var.successor();
    let v = match bin_op {
        BinOp::Add | BinOp::Sub | BinOp::Mul | BinOp::Div | BinOp::Mod => Variable::new_double(id),
        _ => Variable::new_boolean(id),
    };
    let rhs_is_zero = match rhs_operand {
        Operand::Literal(Literal::Double(bits)) => bits == 0 || bits == 0x8000_0000_0000_0000,
        _ => false,
    };
    let ins = match bin_op {
        BinOp::Add => Instruction::Fadd(lhs_operand, rhs_operand, v),
        BinOp::Sub => Instruction::Fsub(lhs_operand, rhs_operand, v),
        BinOp::Mul => Instruction::Fmul(lhs_operand, rhs_operand, v),
        BinOp::Div => {
            if rhs_is_zero {
                return Err(BinOpError::DivZero);
            }
            Instruction::Fdiv(lhs_operand, rhs_operand, v)
        },
        BinOp::Mod => {
            if rhs_is_zero {
                return Err(BinOpError::DivZero);
            }
            Instruction::Frem(lhs_operand, rhs_operand, v)
        },
        BinOp::Eq => Instruction::Fcmp(FcmpConditionCode::OrderedAndEqual, lhs_operand, rhs_operand, v),
        BinOp::Neq => Instruction::Fcmp(FcmpConditionCode::OrderedAndNotEqual, lhs_operand, rhs_operand, v),
        BinOp::Gt => Instruction::Fcmp(FcmpConditionCode::OrderedAndGreaterThan, lhs_operand, rhs_operand, v),
        BinOp::Gte => Instruction::Fcmp(FcmpConditionCode::OrderedAndGreaterThanOrEqual, lhs_operand, rhs_operand, v),
        BinOp::Lt => Instruction::Fcmp(FcmpConditionCode::OrderedAndLessThan, lhs_operand, rhs_operand, v),
        _ => Instruction::Fcmp(FcmpConditionCode::OrderedAndLessThanOrEqual, lhs_operand, rhs_operand, v),
    };
    block.push(ins);
    Ok(v)
}

/// Which measurement an intrinsic measurement call performs.
#[derive(Clone, Copy, Debug, PartialEq, Eq, Structural)]
pub enum MeasureKind {
    /// `__quantum__qis__m__body`.
    M,
    /// `__quantum__qis__mresetz__body`.
    MResetZ,
}

/// The attributes of an intrinsic callable that decide how a call to it is evaluated.
#[derive(Clone, Copy, Debug, PartialEq, Eq, Structural)]
pub struct IntrinsicAttrs {
    pub measurement: bool,
    pub reset: bool,
    pub noise_intrinsic: bool,
}

/// What a call to an intrinsic callable does.
#[derive(Clone, Copy, Debug, PartialEq, Eq, Structural)]
pub enum IntrinsicAction {
    /// Error: a qubit argument is released already, and the call releases it again.
    QubitDoubleRelease,
    /// Error: a qubit argument is released already.
    QubitUsedAfterRelease,
    /// Measure the qubit arguments with the callable itself.
    MeasureQubits,
    /// Emit a call to the callable, of the given type; a noise intrinsic also marks the program
    /// as using noise.
    QisCall(CallableType),
    /// Allocate (or borrow) a qubit.
    AllocateQubit,
    /// Release the qubit argument.
    ReleaseQubit,
    /// Swap the labels of qubits, refused inside a dynamic branch.
    PermuteLabels,
    /// Measure one qubit with the given measurement.
    MeasureQubit(MeasureKind),
    /// The value `true`.
    ConstantTrue,
    /// Nothing: the unit value.
    NoOp,
    /// Error: an intrinsic that simulation supports and code generation does not.
    UnsupportedSimulationIntrinsic,
    /// Error: an intrinsic that partial evaluation never meets.
    Unexpected,
    /// The length of the array argument.
    Length,
    /// The integer argument as a double.
    IntAsDouble,
    /// The double argument truncated to an integer.
    Truncate,
}

/// The names of the intrinsics that evaluate to nothing.
pub open spec fn is_no_op_intrinsic(name: Seq<char>) -> bool {
    name == "DumpRegister"@ || name == "DumpOperation"@ || name == "AccountForEstimatesInternal"@
        || name == "BeginRepeatEstimatesInternal"@ || name == "EndRepeatEstimatesInternal"@
        || name == "EnableMemoryComputeArchitecture"@ || name == "Load"@ || name == "Store"@
        || name == "ApplyIdleNoise"@ || name == "GlobalPhase"@ || name == "Message"@
        || name == "PostSelectZ"@ || name == "Fact"@
}

/// What a call to the intrinsic named `name`, with attributes `attrs`, does; `released_arg`
/// tells whether one of its qubit arguments is released already. The checks come in this
/// order: released qubits, the attributes (measurement, reset, noise), then the name.
pub open spec fn intrinsic_action_of(name: Seq<char>, attrs: IntrinsicAttrs, released_arg: bool) -> IntrinsicAction {
    if released_arg {
        if name == "__quantum__rt__qubit_release"@ {
            IntrinsicAction::QubitDoubleRelease
        } else {
            IntrinsicAction::QubitUsedAfterRelease
        }
    } else if attrs.measurement {
        IntrinsicAction::MeasureQubits
    } else if attrs.reset {
        IntrinsicAction::QisCall(CallableType::Reset)
    } else if attrs.noise_intrinsic {
        IntrinsicAction::QisCall(CallableType::NoiseIntrinsic)
    } else if name == "__quantum__rt__qubit_allocate"@ || name == "__quantum__rt__qubit_borrow"@ {
        IntrinsicAction::AllocateQubit
    } else if name == "__quantum__rt__qubit_release"@ {
        IntrinsicAction::ReleaseQubit
    } else if name == "PermuteLabels"@ {
        IntrinsicAction::PermuteLabels
    } else if name == "__quantum__qis__m__body"@ {
        IntrinsicAction::MeasureQubit(MeasureKind::M)
    } else if name == "__quantum__qis__mresetz__body"@ {
        IntrinsicAction::MeasureQubit(MeasureKind::MResetZ)
    } else if name == "BeginEstimateCaching"@ {
        IntrinsicAction::ConstantTrue
    } else if is_no_op_intrinsic(name) {
        IntrinsicAction::NoOp
    } else if name == "CheckZero"@ {
        IntrinsicAction::UnsupportedSimulationIntrinsic
    } else if name == "DrawRandomInt"@ || name == "DrawRandomDouble"@ || name == "DrawRandomBool"@ {
        IntrinsicAction::Unexpected
    } else if name == "Length"@ {
        IntrinsicAction::Length
    } else if name == "IntAsDouble"@ {
        IntrinsicAction::IntAsDouble
    } else if name == "Truncate"@ {
        IntrinsicAction::Truncate
    } else {
        IntrinsicAction::QisCall(CallableType::Regular)
    }
}

/// Whether `name` is `lit`.
fn name_is(name: &String, lit: &str) -> (r: bool)
    ensures
        r == (name@ == lit@),
{
    name.eq(&lit.to_owned())
}

/// Decides what a call to the intrinsic named `name`, with attributes `attrs`, does;
/// `released_arg` tells whether one of its qubit arguments is released already.
pub fn intrinsic_action(name: &String, attrs: IntrinsicAttrs, released_arg: bool) -> (r: IntrinsicAction)
    ensures
        r == intrinsic_action_of(name@, attrs, released_arg),
{
    if released_arg {
        return if name_is(name, "__quantum__rt__qubit_release") {
            IntrinsicAction::QubitDoubleRelease
        } else {
            IntrinsicAction::QubitUsedAfterRelease
        };
    }
    if attrs.measurement {
        return IntrinsicAction::MeasureQubits;
    }
    if attrs.reset {
        return IntrinsicAction::QisCall(CallableType::Reset);
    }
    if attrs.noise_intrinsic {
        return IntrinsicAction::QisCall(CallableType::NoiseIntrinsic);
    }
    if name_is(name, "__quantum__rt__qubit_allocate") || name_is(name, "__quantum__rt__qubit_borrow") {
        IntrinsicAction::AllocateQubit
    } else if name_is(name, "__quantum__rt__qubit_release") {
        IntrinsicAction::ReleaseQubit
    } else if name_is(name, "PermuteLabels") {
        IntrinsicAction::PermuteLabels
    } else if name_is(name, "__quantum__qis__m__body") {
        IntrinsicAction::MeasureQubit(MeasureKind::M)
    } else if name_is(name, "__quantum__qis__mresetz__body") {
        IntrinsicAction::MeasureQubit(MeasureKind::MResetZ)
    } else if name_is(name, "BeginEstimateCaching") {
        IntrinsicAction::ConstantTrue
    } else if name_is(name, "DumpRegister") || name_is(name, "DumpOperation") || name_is(
        name,
        "AccountForEstimatesInternal",
    ) || name_is(name, "BeginRepeatEstimatesInternal") || name_is(name, "EndRepeatEstimatesInternal")
        || name_is(name, "EnableMemoryComputeArchitecture") || name_is(name, "Load") || name_is(name, "Store")
        || name_is(name, "ApplyIdleNoise") || name_is(name, "GlobalPhase") || name_is(name, "Message")
        || name_is(name, "PostSelectZ") || name_is(name, "Fact") {
        IntrinsicAction::NoOp
    } else if name_is(name, "CheckZero") {
        IntrinsicAction::UnsupportedSimulationIntrinsic
    } else if name_is(name, "DrawRandomInt") || name_is(name, "DrawRandomDouble") || name_is(name, "DrawRandomBool") {
        IntrinsicAction::Unexpected
    } else if name_is(name, "Length") {
        IntrinsicAction::Length
    } else if name_is(name, "IntAsDouble") {
        IntrinsicAction::IntAsDouble
    } else if name_is(name, "Truncate") {
        IntrinsicAction::Truncate
    } else {
        IntrinsicAction::QisCall(CallableType::Regular)
    }
}

/// The bits of the double `-1.0`, the factor by which a dynamic double is negated.
pub const MINUS_ONE_DOUBLE_BITS: u64 = 0xBFF0_0000_0000_0000;

/// Folds a unary operation on a classical value: negation and bitwise complement of an
/// integer, logical negation of a boolean; the leading plus and unwrapping leave the value as
/// it is.
pub fn eval_un_op_with_literals(un_op: UnOp, value: Value) -> (r: Value)
    requires
        !(un_op is Functor),
        un_op is Neg ==> (value matches Value::Int(i) && i != i64::MIN),
        un_op is NotB ==> value is Int,
        un_op is NotL ==> value is Bool,
    ensures
        r == match un_op {
            UnOp::Neg => Value::Int((-(value->Int_0)) as i64),
            UnOp::NotB => Value::Int(!(value->Int_0)),
            UnOp::NotL => Value::Bool(!(value->Bool_0)),
            _ => value,
        },
{
    match un_op {
        UnOp::Neg => match value {
            Value::Int(i) => Value::Int(-i),
            Value::Bool(_) => value,
        },
        UnOp::NotB => match value {
            Value::Int(i) => Value::Int(!i),
            Value::Bool(_) => value,
        },
        UnOp::NotL => match value {
            Value::Bool(b) => Value::Bool(!b),
            Value::Int(_) => value,
        },
        _ => value,
    }
}

/// The instruction that a unary operator emits on a dynamic operand into `rir_variable`:
/// negation multiplies by the literal -1 of the variable's type, the complements map to
/// their own instructions, and the functors and unwrapping have no instruction. The leading
/// plus emits nothing and is not asked for here.
pub fn unary_operation_instruction(un_op: UnOp, value_operand: Operand, rir_variable: Variable) -> (r: Result<
    Instruction,
    UnOpError,
>)
    requires
        !(un_op is Pos),
        un_op is Neg ==> rir_variable.ty == Ty::Prim(Prim::Integer) || rir_variable.ty == Ty::Prim(Prim::Double),
        un_op is NotB ==> rir_variable.ty == Ty::Prim(Prim::Integer),
        un_op is NotL ==> rir_variable.ty == Ty::Prim(Prim::Boolean),
    ensures
        r == match un_op {
            UnOp::Neg => if rir_variable.ty == Ty::Prim(Prim::Integer) {
                Ok(Instruction::Mul(Operand::Literal(Literal::Integer((-1int) as i64)), value_operand, rir_variable))
            } else {
                Ok(Instruction::Fmul(Operand::Literal(Literal::Double(MINUS_ONE_DOUBLE_BITS)), value_operand, rir_variable))
            },
            UnOp::NotB => Ok(Instruction::BitwiseNot(value_operand, rir_variable)),
            UnOp::NotL => Ok(Instruction::LogicalNot(value_operand, rir_variable)),
            _ => Err(UnOpError::InvalidOperator(un_op)),
        },
{
    match un_op {
        UnOp::Neg => match rir_variable.ty {
            Ty::Prim(Prim::Integer) => Ok(
                Instruction::Mul(Operand::Literal(Literal::Integer(-1)), value_operand, rir_variable),
            ),
            _ => Ok(
                Instruction::Fmul(Operand::Literal(Literal::Double(MINUS_ONE_DOUBLE_BITS)), value_operand, rir_variable),
            ),
        },
        UnOp::NotB => Ok(Instruction::BitwiseNot(value_operand, rir_variable)),
        UnOp::NotL => Ok(Instruction::LogicalNot(value_operand, rir_variable)),
        _ => Err(UnOpError::InvalidOperator(un_op)),
    }
}

/// The return type of a callable, as far as emitting it as an IR function goes.
#[derive(Clone, Copy, Debug, PartialEq, Eq, Structural)]
pub enum CallableOutput {
    Unit,
    Int,
    Double,
    Bool,
    /// Any other type: results, qubits, tuples, arrays and the like.
    Other,
}

/// What decides whether a resolved callable specialization is emitted as an IR function, a
/// callable of its own that the program calls, instead of being inlined.
#[derive(Clone, Debug)]
pub struct IrFunctionCandidate {
    /// The capabilities of the target.
    pub capabilities: TargetCapabilityFlags,
    /// Whether the callable belongs to the package being compiled.
    pub in_target_package: bool,
    /// Whether the callable is the entry point.
    pub is_entry: bool,
    /// Whether the specialization takes a control register (a controlled specialization).
    pub has_control_input: bool,
    /// The callable's return type.
    pub output: CallableOutput,
    /// The RIR type of each input parameter, `None` where the parameter has none.
    pub param_types: Vec<Option<Ty>>,
    /// Whether the body holds a `return` that leaves it early.
    pub has_return: bool,
    /// The runtime features inherent to the specialization.
    pub inherent_features: RuntimeFeatureFlags,
}

/// Whether a parameter type can be passed as an RIR variable of the evaluator.
pub open spec fn is_scalar_param(t: Option<Ty>) -> bool {
    t matches Some(ty) && eval_type_of(ty) is Ok
}

/// Whether the specialization is emitted as an IR function: the target supports calls; the
/// callable is in the package being compiled and is not its entry point; the specialization is
/// not controlled; it returns nothing, an integer, a double or a boolean; every parameter is a
/// scalar or a qubit; its body does not return early; it is not recursive and calls no
/// callee that cannot be resolved; and it allocates qubits only where the target allocates
/// them dynamically.
pub open spec fn ir_function_eligible_spec(c: IrFunctionCandidate) -> bool {
    &&& c.capabilities.bits & CALL_SUPPORT_BIT == CALL_SUPPORT_BIT
    &&& c.in_target_package
    &&& !c.is_entry
    &&& !c.has_control_input
    &&& !(c.output is Other)
    &&& forall|i: int| 0 <= i < c.param_types@.len() ==> #[trigger] is_scalar_param(c.param_types@[i])
    &&& !c.has_return
    &&& c.inherent_features.bits & (CYCLIC_OPERATION_SPEC | CALL_TO_CYCLIC_OPERATION | CALL_TO_UNRESOLVED_CALLEE) == 0
    &&& (c.inherent_features.bits & QUBIT_ALLOCATION == QUBIT_ALLOCATION ==> c.capabilities.bits
        & DYNAMIC_QUBIT_ALLOCATION_BIT == DYNAMIC_QUBIT_ALLOCATION_BIT)
}

/// Decides whether a resolved callable specialization is emitted as an IR function; every
/// specialization that is not inlines as before.
pub fn is_ir_function_eligible(candidate: &IrFunctionCandidate) -> (r: bool)
    ensures
        r == ir_function_eligible_spec(*candidate),
{
    if !candidate.capabilities.contains(TargetCapabilityFlags::call_support()) {
        return false;
    }
    if !candidate.in_target_package || candidate.is_entry || candidate.has_control_input {
        return false;
    }
    if let CallableOutput::Other = candidate.output {
        return false;
    }
    for i in 0..candidate.param_types.len()
        invariant
            forall|j: int| 0 <= j < i ==> #[trigger] is_scalar_param(candidate.param_types@[j]),
    {
        match candidate.param_types[i] {
            Some(ty) => {
                if map_rir_type_to_eval_var_type(ty).is_err() {
                    assert(!is_scalar_param(candidate.param_types@[i as int]));
                    return false;
                }
            },
            None => {
                assert(!is_scalar_param(candidate.param_types@[i as int]));
                return false;
            },
        }
    }
    if candidate.has_return {
        return false;
    }
    let recursion_or_unresolved = RuntimeFeatureFlags::from_bits(
        CYCLIC_OPERATION_SPEC | CALL_TO_CYCLIC_OPERATION | CALL_TO_UNRESOLVED_CALLEE,
    );
    if candidate.inherent_features.intersects(recursion_or_unresolved) {
        return false;
    }
    if candidate.inherent_features.contains(RuntimeFeatureFlags::from_bits(QUBIT_ALLOCATION))
        && !candidate.capabilities.contains(TargetCapabilityFlags::dynamic_qubit_allocation()) {
        return false;
    }
    true
}

/// The call that measures qubits into fresh result registers: the measurement callable it
/// calls, the operands it passes, and the result registers the measurement writes.
#[derive(Clone, Debug)]
pub struct MeasurementCall {
    pub callable: Callable,
    pub operands: Vec<Operand>,
    pub results: Vec<u32>,
}

/// The result registers numbered upwards from `first`, `count` of them.
pub open spec fn result_ids(first: u32, count: nat) -> Seq<u32> {
    Seq::new(count, |i: int| (first + i) as u32)
}

/// The measurement call of the callable `name` on the operands `qubits`, writing `result_count`
/// results into the registers numbered upwards from `next_result`: the callable takes a qubit
/// per operand and then a result per register, returns nothing and has no body; the call passes
/// the qubits and then the result registers.
pub fn measure_qubits_call(name: String, qubits: Vec<Operand>, result_count: u32, next_result: u32) -> (r:
    MeasurementCall)
    requires
        result_count >= 1,
        next_result + result_count <= u32::MAX + 1,
    ensures
        r.callable.name@ == name@,
        r.callable.input_type@ == Seq::new(qubits@.len(), |i: int| Ty::Prim(Prim::Qubit)) + Seq::new(
            result_count as nat,
            |i: int| Ty::Prim(Prim::Result),
        ),
        r.callable.input_vars@.len() == 0,
        r.callable.output_type is None,
        r.callable.body is None,
        r.callable.call_type == CallableType::Measurement,
        r.operands@ == qubits@ + result_ids(next_result, result_count as nat).map_values(
            |id: u32| Operand::Literal(Literal::Result(id)),
        ),
        r.results@ == result_ids(next_result, result_count as nat),
{
    let mut input_type: Vec<Ty> = Vec::new();
    let mut operands: Vec<Operand> = Vec::new();
    for i in 0..qubits.len()
        invariant
            input_type@ == Seq::new(i as nat, |j: int| Ty::Prim(Prim::Qubit)),
            operands@ == qubits@.take(i as int),
    {
        input_type.push(Ty::Prim(Prim::Qubit));
        operands.push(qubits[i]);
        proof {
            assert(operands@ =~= qubits@.take(i + 1));
            assert(input_type@ =~= Seq::new((i + 1) as nat, |j: int| Ty::Prim(Prim::Qubit)));
        }
    }
    let ghost nq = qubits@.len();
    let mut results: Vec<u32> = Vec::new();
    proof {
        assert(operands@ =~= qubits@);
    }
    for k in 0..result_count
        invariant
            nq == qubits@.len(),
            next_result + result_count <= u32::MAX + 1,
            input_type@ == Seq::new(nq, |j: int| Ty::Prim(Prim::Qubit)) + Seq::new(k as nat, |j: int| Ty::Prim(Prim::Result)),
            operands@ == qubits@ + result_ids(next_result, k as nat).map_values(|id: u32| Operand::Literal(Literal::Result(id))),
            results@ == result_ids(next_result, k as nat),
    {
        let id: u32 = next_result + k;
        input_type.push(Ty::Prim(Prim::Result));
        operands.push(Operand::Literal(Literal::Result(id)));
        results.push(id);
        proof {
            assert(result_ids(next_result, (k + 1) as nat) =~= result_ids(next_result, k as nat).push(id));
            assert(results@ =~= result_ids(next_result, (k + 1) as nat));
            assert(operands@ =~= qubits@ + result_ids(next_result, (k + 1) as nat).map_values(
                |id: u32| Operand::Literal(Literal::Result(id)),
            ));
            assert(input_type@ =~= Seq::new(nq, |j: int| Ty::Prim(Prim::Qubit)) + Seq::new(
                (k + 1) as nat,
                |j: int| Ty::Prim(Prim::Result),
            ));
        }
    }
    MeasurementCall {
        callable: Callable {
            name,
            input_type,
            input_vars: Vec::new(),
            output_type: None,
            body: None,
            call_type: CallableType::Measurement,
        },
        operands,
        results,
    }
}

/// Folding a comparison of two integer literals gives the truth of that comparison between
/// the two numbers, and the six comparisons relate as the order of the integers demands:
/// `<=` is the negation of `>`, `>=` that of `<`, `!=` that of `==`, and swapping the operands
/// turns `<` into `>` and `<=` into `>=`.
pub proof fn lemma_integer_comparisons_fold(a: i64, b: i64)
    ensures
        integer_bin_op_value(BinOp::Eq, a, b) == Ok::<Value, BinOpError>(Value::Bool(a == b)),
        integer_bin_op_value(BinOp::Neq, a, b) == Ok::<Value, BinOpError>(Value::Bool(a != b)),
        integer_bin_op_value(BinOp::Lt, a, b) == Ok::<Value, BinOpError>(Value::Bool(a < b)),
        integer_bin_op_value(BinOp::Lte, a, b) == Ok::<Value, BinOpError>(Value::Bool(a <= b)),
        integer_bin_op_value(BinOp::Gt, a, b) == Ok::<Value, BinOpError>(Value::Bool(a > b)),
        integer_bin_op_value(BinOp::Gte, a, b) == Ok::<Value, BinOpError>(Value::Bool(a >= b)),
        integer_bin_op_value(BinOp::Lte, a, b) == Ok::<Value, BinOpError>(Value::Bool(
            integer_bin_op_value(BinOp::Gt, a, b) == Ok::<Value, BinOpError>(Value::Bool(false)),
        )),
        integer_bin_op_value(BinOp::Gte, a, b) == Ok::<Value, BinOpError>(Value::Bool(
            integer_bin_op_value(BinOp::Lt, a, b) == Ok::<Value, BinOpError>(Value::Bool(false)),
        )),
        integer_bin_op_value(BinOp::Neq, a, b) == Ok::<Value, BinOpError>(Value::Bool(
            integer_bin_op_value(BinOp::Eq, a, b) == Ok::<Value, BinOpError>(Value::Bool(false)),
        )),
        integer_bin_op_value(BinOp::Lt, a, b) == integer_bin_op_value(BinOp::Gt, b, a),
        integer_bin_op_value(BinOp::Lte, a, b) == integer_bin_op_value(BinOp::Gte, b, a),
{
}

/// Folding integer arithmetic gives the exact mathematical result whenever it fits in 64
/// bits: the sum, the difference, the product and the power of the two numbers.
pub proof fn lemma_integer_arithmetic_folds(a: i64, b: i64)
    ensures
        i64::MIN <= a + b <= i64::MAX ==> (integer_bin_op_value(BinOp::Add, a, b) matches Ok(Value::Int(c)) && c == a
            + b),
        i64::MIN <= a - b <= i64::MAX ==> (integer_bin_op_value(BinOp::Sub, a, b) matches Ok(Value::Int(c)) && c == a
            - b),
        i64::MIN <= a * b <= i64::MAX ==> (integer_bin_op_value(BinOp::Mul, a, b) matches Ok(Value::Int(c)) && c == a
            * b),
        0 <= b <= u32::MAX && i64::MIN <= pow(a as int, b as nat) <= i64::MAX ==> (integer_bin_op_value(
            BinOp::Exp,
            a,
            b,
        ) matches Ok(Value::Int(c)) && c == pow(a as int, b as nat)),
        !(0 <= b <= u32::MAX) ==> integer_bin_op_value(BinOp::Exp, a, b) == Err::<Value, BinOpError>(
            BinOpError::IntTooLarge(b),
        ),
{
}

/// Integer division and remainder truncate toward zero: the quotient `q` and remainder `r`
/// of `a` by a non-zero `b` satisfy `a == q * b + r`, with `r` smaller than `b` in absolute
/// value and of the sign of `a` (or zero); a zero divisor is refused.
pub proof fn lemma_integer_division_folds(a: i64, b: i64)
    ensures
        b == 0 ==> integer_bin_op_value(BinOp::Div, a, b) == Err::<Value, BinOpError>(BinOpError::DivZero)
            && integer_bin_op_value(BinOp::Mod, a, b) == Err::<Value, BinOpError>(BinOpError::DivZero),
        b != 0 && !(a == i64::MIN && b == -1) ==> ({
            &&& integer_bin_op_value(BinOp::Div, a, b) matches Ok(Value::Int(q))
            &&& integer_bin_op_value(BinOp::Mod, a, b) matches Ok(Value::Int(r))
            &&& a == q * b + r
            &&& abs(r as int) < abs(b as int)
            &&& (r == 0 || (r < 0) == (a < 0))
        }),
{
    if b != 0 && !(a == i64::MIN && b == -1) {
        lemma_checked_div_some(a, b);
        let x = a as int;
        let d = b as int;
        if x > 0 && d > 0 {
            vstd::arithmetic::div_mod::lemma_fundamental_div_mod(x, d);
            vstd::arithmetic::div_mod::lemma_mod_pos_bound(x, d);
            assert(d * (x / d) == (x / d) * d) by (nonlinear_arith);
        } else if x < 0 && d < 0 {
            vstd::arithmetic::div_mod::lemma_fundamental_div_mod(-x, -d);
            vstd::arithmetic::div_mod::lemma_mod_pos_bound(-x, -d);
            assert((-d) * ((-x) / (-d)) == -(((x * -1) / (d * -1)) * d)) by (nonlinear_arith);
        } else if x < 0 && d > 0 {
            vstd::arithmetic::div_mod::lemma_fundamental_div_mod(-x, d);
            vstd::arithmetic::div_mod::lemma_mod_pos_bound(-x, d);
            assert(d * ((-x) / d) == -((((x * -1) / d) * -1) * d)) by (nonlinear_arith);
        } else if x > 0 && d < 0 {
            vstd::arithmetic::div_mod::lemma_fundamental_div_mod(x, -d);
            vstd::arithmetic::div_mod::lemma_mod_pos_bound(x, -d);
            assert((-d) * (x / (-d)) == ((x / (d * -1)) * -1) * d) by (nonlinear_arith);
        }
    }
}

/// The bitwise operators fold as bitwise operations do: `&` and `|` and `^` do not depend on
/// the order of their operands, all ones (`!0`) and all zeros are the identities and absorbing
/// elements they should be, and a number excluded from itself is zero. A shift by nothing
/// changes nothing, and an arithmetic right shift by 63 leaves only the sign.
pub proof fn lemma_integer_bitwise_folds(a: i64, b: i64)
    ensures
        integer_bin_op_value(BinOp::AndB, a, b) == integer_bin_op_value(BinOp::AndB, b, a),
        integer_bin_op_value(BinOp::OrB, a, b) == integer_bin_op_value(BinOp::OrB, b, a),
        integer_bin_op_value(BinOp::XorB, a, b) == integer_bin_op_value(BinOp::XorB, b, a),
        integer_bin_op_value(BinOp::AndB, a, !0i64) == Ok::<Value, BinOpError>(Value::Int(a)),
        integer_bin_op_value(BinOp::AndB, a, 0) == Ok::<Value, BinOpError>(Value::Int(0)),
        integer_bin_op_value(BinOp::OrB, a, 0) == Ok::<Value, BinOpError>(Value::Int(a)),
        integer_bin_op_value(BinOp::OrB, a, !0i64) == Ok::<Value, BinOpError>(Value::Int(!0i64)),
        integer_bin_op_value(BinOp::XorB, a, a) == Ok::<Value, BinOpError>(Value::Int(0)),
        integer_bin_op_value(BinOp::XorB, a, 0) == Ok::<Value, BinOpError>(Value::Int(a)),
        integer_bin_op_value(BinOp::Shl, a, 0) == Ok::<Value, BinOpError>(Value::Int(a)),
        integer_bin_op_value(BinOp::Shr, a, 0) == Ok::<Value, BinOpError>(Value::Int(a)),
        integer_bin_op_value(BinOp::Shr, a, 63) == Ok::<Value, BinOpError>(Value::Int(if a < 0 { !0i64 } else { 0 })),
{
    assert(a & b == b & a) by (bit_vector);
    assert(a | b == b | a) by (bit_vector);
    assert(a ^ b == b ^ a) by (bit_vector);
    assert(a & !0i64 == a) by (bit_vector);
    assert(a & 0i64 == 0) by (bit_vector);
    assert(a | 0i64 == a) by (bit_vector);
    assert(a | !0i64 == !0i64) by (bit_vector);
    assert(a ^ a == 0) by (bit_vector);
    assert(a ^ 0i64 == a) by (bit_vector);
    assert(a << 0i64 == a) by (bit_vector);
    assert(a >> 0i64 == a) by (bit_vector);
    assert(a >> 63i64 == if a < 0 { !0i64 } else { 0i64 }) by (bit_vector);
}

/// What a comparison code of an integer comparison asserts of two signed numbers.
pub open spec fn icmp_holds(cc: ConditionCode, x: i64, y: i64) -> bool {
    match cc {
        ConditionCode::Eq => x == y,
        ConditionCode::Ne => x != y,
        ConditionCode::Slt => x < y,
        ConditionCode::Sle => x <= y,
        ConditionCode::Sgt => x > y,
        ConditionCode::Sge => x >= y,
    }
}

/// What a comparison code of a floating-point comparison asserts of two ordered numbers,
/// taken here on integer values (neither of them NaN, so "ordered and" and "unordered or" agree).
pub open spec fn fcmp_holds(cc: FcmpConditionCode, x: i64, y: i64) -> bool {
    match cc {
        FcmpConditionCode::False | FcmpConditionCode::Unordered => false,
        FcmpConditionCode::Ordered | FcmpConditionCode::True => true,
        FcmpConditionCode::OrderedAndEqual | FcmpConditionCode::UnorderedOrEqual => x == y,
        FcmpConditionCode::OrderedAndNotEqual | FcmpConditionCode::UnorderedOrNotEqual => x != y,
        FcmpConditionCode::OrderedAndGreaterThan | FcmpConditionCode::UnorderedOrGreaterThan => x > y,
        FcmpConditionCode::OrderedAndGreaterThanOrEqual | FcmpConditionCode::UnorderedOrGreaterThanOrEqual => x >= y,
        FcmpConditionCode::OrderedAndLessThan | FcmpConditionCode::UnorderedOrLessThan => x < y,
        FcmpConditionCode::OrderedAndLessThanOrEqual | FcmpConditionCode::UnorderedOrLessThanOrEqual => x <= y,
    }
}

/// A comparison on integer operands is emitted as an integer comparison of the left operand
/// with the right one, into the given variable, whose condition code holds of two numbers
/// exactly when folding the comparison of those numbers gives true; every other operator is
/// emitted as the instruction of the same operation, reading the left then the right operand.
pub proof fn lemma_integer_instruction_meaning(op: BinOp, l: Operand, r: Operand, v: Variable)
    requires
        is_integer_bin_op(op),
        !(op is Exp),
    ensures
        operands_read(integer_op_instruction(op, l, r, v)) == seq![l, r],
        crate::utils::assigned_variable(integer_op_instruction(op, l, r, v)) == Some(v),
        is_comparison(op) ==> (integer_op_instruction(op, l, r, v) matches Instruction::Icmp(cc, _, _, _)
            && forall|x: i64, y: i64| #[trigger] icmp_holds(cc, x, y) == (integer_bin_op_value(op, x, y)
                == Ok::<Value, BinOpError>(Value::Bool(true)))),
        (op is Add) == (integer_op_instruction(op, l, r, v) is Add),
        (op is Sub) == (integer_op_instruction(op, l, r, v) is Sub),
        (op is Mul) == (integer_op_instruction(op, l, r, v) is Mul),
        (op is Div) == (integer_op_instruction(op, l, r, v) is Sdiv),
        (op is Mod) == (integer_op_instruction(op, l, r, v) is Srem),
        (op is AndB) == (integer_op_instruction(op, l, r, v) is BitwiseAnd),
        (op is OrB) == (integer_op_instruction(op, l, r, v) is BitwiseOr),
        (op is XorB) == (integer_op_instruction(op, l, r, v) is BitwiseXor),
        (op is Shl) == (integer_op_instruction(op, l, r, v) is Shl),
        (op is Shr) == (integer_op_instruction(op, l, r, v) is Ashr),
{
}

/// A comparison on double operands is emitted as a floating-point comparison of the left
/// operand with the right one, into the given variable, whose condition code asserts of two
/// ordered numbers the same relation as the integer comparison that the operator emits on
/// integers (so `>` stays strict and `>=` does not); every other operator is emitted as the
/// floating-point instruction of the same operation, reading the left then the right operand.
pub proof fn lemma_double_instruction_meaning(op: BinOp, l: Operand, r: Operand, v: Variable)
    requires
        is_double_bin_op(op),
    ensures
        operands_read(double_op_instruction(op, l, r, v)) == seq![l, r],
        crate::utils::assigned_variable(double_op_instruction(op, l, r, v)) == Some(v),
        is_comparison(op) ==> (double_op_instruction(op, l, r, v) matches Instruction::Fcmp(fc, _, _, _)
            && integer_op_instruction(op, l, r, v) matches Instruction::Icmp(ic, _, _, _)
            && forall|x: i64, y: i64| #[trigger] fcmp_holds(fc, x, y) == icmp_holds(ic, x, y)),
        (op is Add) == (double_op_instruction(op, l, r, v) is Fadd),
        (op is Sub) == (double_op_instruction(op, l, r, v) is Fsub),
        (op is Mul) == (double_op_instruction(op, l, r, v) is Fmul),
        (op is Div) == (double_op_instruction(op, l, r, v) is Fdiv),
        (op is Mod) == (double_op_instruction(op, l, r, v) is Frem),
{
}

/// A comparison puts its result in a boolean variable and any other operator in a variable of
/// the operands' type, integer or double; either way the variable is the fresh one numbered
/// `n`.
pub proof fn lemma_result_variables(op: BinOp, n: VariableId)
    ensures
        integer_result_var(op, n).variable_id == n,
        double_result_var(op, n).variable_id == n,
        integer_result_var(op, n).ty == (if is_comparison(op) { Ty::Prim(Prim::Boolean) } else { Ty::Prim(Prim::Integer) }),
        double_result_var(op, n).ty == (if is_comparison(op) { Ty::Prim(Prim::Boolean) } else { Ty::Prim(Prim::Double) }),
{
}

/// A left shift by one of a number whose double fits in 64 bits doubles it.
pub proof fn lemma_integer_shift_left_doubles(a: i64)
    requires
        -0x4000_0000_0000_0000 <= a < 0x4000_0000_0000_0000,
    ensures
        integer_bin_op_value(BinOp::Shl, a, 1) matches Ok(Value::Int(c)) && c == a + a,
{
    assert(a << 1i64 == (a + a) as i64) by (bit_vector)
        requires
            -0x4000_0000_0000_0000 <= a < 0x4000_0000_0000_0000,
    ;
}

} // verus!
