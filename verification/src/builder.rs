//! Callables and programs for building and testing RIR: the intrinsic callables of the
//! quantum instruction set and runtime, and a few small complete programs.
use crate::rir::{
    Block, BlockId, Callable, CallableId, CallableType, Instruction, Literal, Operand, Prim, Program,
    Ty, Variable, VariableId,
};
use crate::target::{profile_bits, Profile, TargetCapabilityFlags, ADAPTIVE_BIT};
use vstd::prelude::*;

verus! {

/// Whether `c` is a callable without a body with the given name, input types, output type and
/// kind, and no input variables.
pub open spec fn is_decl(c: Callable, name: Seq<char>, inputs: Seq<Ty>, output: Option<Ty>, call_type: CallableType) -> bool {
    &&& c.name@ == name
    &&& c.input_type@ == inputs
    &&& c.input_vars@.len() == 0
    &&& c.output_type == output
    &&& c.body is None
    &&& c.call_type == call_type
}

/// Whether `c` is a callable with the given name, parameters and output whose body is `body`.
pub open spec fn is_bodied(
    c: Callable,
    name: Seq<char>,
    inputs: Seq<Ty>,
    vars: Seq<VariableId>,
    output: Option<Ty>,
    body: u32,
) -> bool {
    &&& c.name@ == name
    &&& c.input_type@ == inputs
    &&& c.input_vars@ == vars
    &&& c.output_type == output
    &&& c.body == Some(BlockId(body))
    &&& c.call_type == CallableType::Regular
}

/// Whether `i` calls callable `c` with the arguments `args`, assigning `out`, without debug metadata.
pub open spec fn is_call(i: Instruction, c: u32, args: Seq<Operand>, out: Option<Variable>) -> bool {
    match i {
        Instruction::Call(cc, a, o, md) => cc == CallableId(c) && a@ == args && o == out && md is None,
        _ => false,
    }
}

/// A qubit operand.
pub open spec fn qubit(n: u32) -> Operand {
    Operand::Literal(Literal::Qubit(n))
}

/// A result operand.
pub open spec fn result(n: u32) -> Operand {
    Operand::Literal(Literal::Result(n))
}

/// An integer operand.
pub open spec fn integer(n: i64) -> Operand {
    Operand::Literal(Literal::Integer(n))
}

/// A variable of primitive type `p`.
pub open spec fn var(id: u32, p: Prim) -> Variable {
    Variable { variable_id: VariableId(id), ty: Ty::Prim(p) }
}

fn name_of(s: &str) -> (r: String)
    ensures
        r@ == s@,
{
    s.to_owned()
}

fn types1(a: Ty) -> (r: Vec<Ty>)
    ensures
        r@ == seq![a],
{
    let mut v = Vec::new();
    v.push(a);
    v
}

fn types2(a: Ty, b: Ty) -> (r: Vec<Ty>)
    ensures
        r@ == seq![a, b],
{
    let mut v = Vec::new();
    v.push(a);
    v.push(b);
    v
}

fn operands1(a: Operand) -> (r: Vec<Operand>)
    ensures
        r@ == seq![a],
{
    let mut v = Vec::new();
    v.push(a);
    v
}

fn operands2(a: Operand, b: Operand) -> (r: Vec<Operand>)
    ensures
        r@ == seq![a, b],
{
    let mut v = Vec::new();
    v.push(a);
    v.push(b);
    v
}

/// The declaration of `__quantum__qis__x__body`.
pub fn x_decl() -> (r: Callable)
    ensures
        is_decl(r, "__quantum__qis__x__body"@, seq![Ty::Prim(Prim::Qubit)], None, CallableType::Regular),
{
    Callable {
        name: name_of("__quantum__qis__x__body"),
        input_type: types1(Ty::Prim(Prim::Qubit)),
        input_vars: Vec::new(),
        output_type: None,
        body: None,
        call_type: CallableType::Regular,
    }
}

/// The declaration of `__quantum__qis__z__body`.
pub fn z_decl() -> (r: Callable)
    ensures
        is_decl(r, "__quantum__qis__z__body"@, seq![Ty::Prim(Prim::Qubit)], None, CallableType::Regular),
{
    Callable {
        name: name_of("__quantum__qis__z__body"),
        input_type: types1(Ty::Prim(Prim::Qubit)),
        input_vars: Vec::new(),
        output_type: None,
        body: None,
        call_type: CallableType::Regular,
    }
}

/// The declaration of `__quantum__qis__h__body`.
pub fn h_decl() -> (r: Callable)
    ensures
        is_decl(r, "__quantum__qis__h__body"@, seq![Ty::Prim(Prim::Qubit)], None, CallableType::Regular),
{
    Callable {
        name: name_of("__quantum__qis__h__body"),
        input_type: types1(Ty::Prim(Prim::Qubit)),
        input_vars: Vec::new(),
        output_type: None,
        body: None,
        call_type: CallableType::Regular,
    }
}

/// The declaration of `__quantum__qis__cx__body`.
pub fn cx_decl() -> (r: Callable)
    ensures
        is_decl(r, "__quantum__qis__cx__body"@, seq![Ty::Prim(Prim::Qubit), Ty::Prim(Prim::Qubit)], None, CallableType::Regular),
{
    Callable {
        name: name_of("__quantum__qis__cx__body"),
        input_type: types2(Ty::Prim(Prim::Qubit), Ty::Prim(Prim::Qubit)),
        input_vars: Vec::new(),
        output_type: None,
        body: None,
        call_type: CallableType::Regular,
    }
}

/// The declaration of `__quantum__qis__rx__body`.
pub fn rx_decl() -> (r: Callable)
    ensures
        is_decl(r, "__quantum__qis__rx__body"@, seq![Ty::Prim(Prim::Double), Ty::Prim(Prim::Qubit)], None, CallableType::Regular),
{
    Callable {
        name: name_of("__quantum__qis__rx__body"),
        input_type: types2(Ty::Prim(Prim::Double), Ty::Prim(Prim::Qubit)),
        input_vars: Vec::new(),
        output_type: None,
        body: None,
        call_type: CallableType::Regular,
    }
}

/// The declaration of `__quantum__qis__m__body`.
pub fn m_decl() -> (r: Callable)
    ensures
        is_decl(r, "__quantum__qis__m__body"@, seq![Ty::Prim(Prim::Qubit), Ty::Prim(Prim::Result)], None, CallableType::Measurement),
{
    Callable {
        name: name_of("__quantum__qis__m__body"),
        input_type: types2(Ty::Prim(Prim::Qubit), Ty::Prim(Prim::Result)),
        input_vars: Vec::new(),
        output_type: None,
        body: None,
        call_type: CallableType::Measurement,
    }
}

/// The declaration of `__quantum__qis__mresetz__body`.
pub fn mresetz_decl() -> (r: Callable)
    ensures
        is_decl(r, "__quantum__qis__mresetz__body"@, seq![Ty::Prim(Prim::Qubit), Ty::Prim(Prim::Result)], None, CallableType::Measurement),
{
    Callable {
        name: name_of("__quantum__qis__mresetz__body"),
        input_type: types2(Ty::Prim(Prim::Qubit), Ty::Prim(Prim::Result)),
        input_vars: Vec::new(),
        output_type: None,
        body: None,
        call_type: CallableType::Measurement,
    }
}

/// The declaration of `__quantum__qis__reset__body`.
pub fn reset_decl() -> (r: Callable)
    ensures
        is_decl(r, "__quantum__qis__reset__body"@, seq![Ty::Prim(Prim::Qubit)], None, CallableType::Reset),
{
    Callable {
        name: name_of("__quantum__qis__reset__body"),
        input_type: types1(Ty::Prim(Prim::Qubit)),
        input_vars: Vec::new(),
        output_type: None,
        body: None,
        call_type: CallableType::Reset,
    }
}

/// The declaration of `__quantum__rt__read_result`.
pub fn read_result_decl() -> (r: Callable)
    ensures
        is_decl(r, "__quantum__rt__read_result"@, seq![Ty::Prim(Prim::Result)], Some(Ty::Prim(Prim::Boolean)), CallableType::Readout),
{
    Callable {
        name: name_of("__quantum__rt__read_result"),
        input_type: types1(Ty::Prim(Prim::Result)),
        input_vars: Vec::new(),
        output_type: Some(Ty::Prim(Prim::Boolean)),
        body: None,
        call_type: CallableType::Readout,
    }
}

/// The declaration of `__quantum__rt__initialize`.
pub fn initialize_decl() -> (r: Callable)
    ensures
        is_decl(r, "__quantum__rt__initialize"@, seq![Ty::Prim(Prim::Pointer)], None, CallableType::Regular),
{
    Callable {
        name: name_of("__quantum__rt__initialize"),
        input_type: types1(Ty::Prim(Prim::Pointer)),
        input_vars: Vec::new(),
        output_type: None,
        body: None,
        call_type: CallableType::Regular,
    }
}

/// The declaration of `__quantum__rt__result_record_output`.
pub fn result_record_decl() -> (r: Callable)
    ensures
        is_decl(r, "__quantum__rt__result_record_output"@, seq![Ty::Prim(Prim::Result), Ty::Prim(Prim::Pointer)], None, CallableType::OutputRecording),
{
    Callable {
        name: name_of("__quantum__rt__result_record_output"),
        input_type: types2(Ty::Prim(Prim::Result), Ty::Prim(Prim::Pointer)),
        input_vars: Vec::new(),
        output_type: None,
        body: None,
        call_type: CallableType::OutputRecording,
    }
}

/// The declaration of `__quantum__rt__double_record_output`.
pub fn double_record_decl() -> (r: Callable)
    ensures
        is_decl(r, "__quantum__rt__double_record_output"@, seq![Ty::Prim(Prim::Double), Ty::Prim(Prim::Pointer)], None, CallableType::OutputRecording),
{
    Callable {
        name: name_of("__quantum__rt__double_record_output"),
        input_type: types2(Ty::Prim(Prim::Double), Ty::Prim(Prim::Pointer)),
        input_vars: Vec::new(),
        output_type: None,
        body: None,
        call_type: CallableType::OutputRecording,
    }
}

/// The declaration of `__quantum__rt__int_record_output`.
pub fn int_record_decl() -> (r: Callable)
    ensures
        is_decl(r, "__quantum__rt__int_record_output"@, seq![Ty::Prim(Prim::Integer), Ty::Prim(Prim::Pointer)], None, CallableType::OutputRecording),
{
    Callable {
        name: name_of("__quantum__rt__int_record_output"),
        input_type: types2(Ty::Prim(Prim::Integer), Ty::Prim(Prim::Pointer)),
        input_vars: Vec::new(),
        output_type: None,
        body: None,
        call_type: CallableType::OutputRecording,
    }
}

/// The declaration of `__quantum__rt__bool_record_output`.
pub fn bool_record_decl() -> (r: Callable)
    ensures
        is_decl(r, "__quantum__rt__bool_record_output"@, seq![Ty::Prim(Prim::Boolean), Ty::Prim(Prim::Pointer)], None, CallableType::OutputRecording),
{
    Callable {
        name: name_of("__quantum__rt__bool_record_output"),
        input_type: types2(Ty::Prim(Prim::Boolean), Ty::Prim(Prim::Pointer)),
        input_vars: Vec::new(),
        output_type: None,
        body: None,
        call_type: CallableType::OutputRecording,
    }
}

/// The declaration of `__quantum__rt__array_record_output`.
pub fn array_record_decl() -> (r: Callable)
    ensures
        is_decl(r, "__quantum__rt__array_record_output"@, seq![Ty::Prim(Prim::Integer), Ty::Prim(Prim::Pointer)], None, CallableType::OutputRecording),
{
    Callable {
        name: name_of("__quantum__rt__array_record_output"),
        input_type: types2(Ty::Prim(Prim::Integer), Ty::Prim(Prim::Pointer)),
        input_vars: Vec::new(),
        output_type: None,
        body: None,
        call_type: CallableType::OutputRecording,
    }
}

/// The declaration of `__quantum__rt__tuple_record_output`.
pub fn tuple_record_decl() -> (r: Callable)
    ensures
        is_decl(r, "__quantum__rt__tuple_record_output"@, seq![Ty::Prim(Prim::Integer), Ty::Prim(Prim::Pointer)], None, CallableType::OutputRecording),
{
    Callable {
        name: name_of("__quantum__rt__tuple_record_output"),
        input_type: types2(Ty::Prim(Prim::Integer), Ty::Prim(Prim::Pointer)),
        input_vars: Vec::new(),
        output_type: None,
        body: None,
        call_type: CallableType::OutputRecording,
    }
}

/// A new program with a single entry callable, `main`, whose body is block 0.
pub fn new_program() -> (p: Program)
    ensures
        p.well_formed(),
        p.entry == CallableId(0),
        p.callables@.len() == 1,
        p.callables.has(0),
        is_bodied(p.callables.at(0), "main"@, Seq::empty(), Seq::empty(), Some(Ty::Prim(Prim::Integer)), 0),
        p.blocks@.len() == 0,
        p.config.capabilities.bits == 0,
        p.num_qubits == 0,
        p.num_results == 0,
        p.tags@.len() == 0,
        p.array_literals@.len() == 0,
        !p.use_dynamic_qubit_management,
{
    let mut program = Program::new();
    program.entry = CallableId(0);
    program.callables.insert(
        CallableId(0),
        Callable {
            name: name_of("main"),
            input_type: Vec::new(),
            input_vars: Vec::new(),
            output_type: Some(Ty::Prim(Prim::Integer)),
            body: Some(BlockId(0)),
            call_type: CallableType::Regular,
        },
    );
    program
}

/// A program that entangles two qubits in a Bell state and records both measurements.
pub fn bell_program() -> (p: Program)
    ensures
        p.well_formed(),
        p.entry == CallableId(5),
        p.config.capabilities.bits == 0,
        p.num_qubits == 2,
        p.num_results == 2,
        p.tags@.len() == 3,
        p.tags@[0]@ == "0_a"@,
        p.tags@[1]@ == "1_a0r"@,
        p.tags@[2]@ == "2_a1r"@,
        p.array_literals@.len() == 0,
        !p.use_dynamic_qubit_management,
        p.callables@.len() == 6,
        p.callables.has(0),
        is_decl(p.callables.at(0), "__quantum__qis__h__body"@, seq![Ty::Prim(Prim::Qubit)], None, CallableType::Regular),
        p.callables.has(1),
        is_decl(p.callables.at(1), "__quantum__qis__cx__body"@, seq![Ty::Prim(Prim::Qubit), Ty::Prim(Prim::Qubit)], None, CallableType::Regular),
        p.callables.has(2),
        is_decl(p.callables.at(2), "__quantum__qis__m__body"@, seq![Ty::Prim(Prim::Qubit), Ty::Prim(Prim::Result)], None, CallableType::Measurement),
        p.callables.has(3),
        is_decl(p.callables.at(3), "__quantum__rt__array_record_output"@, seq![Ty::Prim(Prim::Integer), Ty::Prim(Prim::Pointer)], None, CallableType::OutputRecording),
        p.callables.has(4),
        is_decl(p.callables.at(4), "__quantum__rt__result_record_output"@, seq![Ty::Prim(Prim::Result), Ty::Prim(Prim::Pointer)], None, CallableType::OutputRecording),
        p.callables.has(5),
        is_bodied(p.callables.at(5), "main"@, Seq::empty(), Seq::empty(), Some(Ty::Prim(Prim::Integer)), 0),
        p.blocks@.len() == 1,
        p.blocks.has(0),
        p.blocks.at(0).0@.len() == 8,
        is_call(p.blocks.at(0).0@[0], 0, seq![qubit(0)], None),
        is_call(p.blocks.at(0).0@[1], 1, seq![qubit(0), qubit(1)], None),
        is_call(p.blocks.at(0).0@[2], 2, seq![qubit(0), result(0)], None),
        is_call(p.blocks.at(0).0@[3], 2, seq![qubit(1), result(1)], None),
        is_call(p.blocks.at(0).0@[4], 3, seq![integer(2), Operand::Literal(Literal::Tag(0, 3))], None),
        is_call(p.blocks.at(0).0@[5], 4, seq![result(0), Operand::Literal(Literal::Tag(1, 5))], None),
        is_call(p.blocks.at(0).0@[6], 4, seq![result(1), Operand::Literal(Literal::Tag(2, 5))], None),
        p.blocks.at(0).0@[7] == Instruction::Return(Some(integer(0))),
{
    let mut program = Program::new();
    program.callables.insert(CallableId(0), h_decl());
    program.callables.insert(CallableId(1), cx_decl());
    program.callables.insert(CallableId(2), m_decl());
    program.callables.insert(CallableId(3), array_record_decl());
    program.callables.insert(CallableId(4), result_record_decl());
    program.callables.insert(
        CallableId(5),
        Callable {
            name: name_of("main"),
            input_type: Vec::new(),
            input_vars: Vec::new(),
            output_type: Some(Ty::Prim(Prim::Integer)),
            body: Some(BlockId(0)),
            call_type: CallableType::Regular,
        },
    );
    let mut tags: Vec<String> = Vec::new();
    tags.push(name_of("0_a"));
    tags.push(name_of("1_a0r"));
    tags.push(name_of("2_a1r"));
    program.tags = tags;
    program.entry = CallableId(5);
    let mut b0: Vec<Instruction> = Vec::new();
    b0.push(Instruction::Call(CallableId(0), operands1(Operand::Literal(Literal::Qubit(0))), None, None));
    b0.push(Instruction::Call(CallableId(1), operands2(Operand::Literal(Literal::Qubit(0)), Operand::Literal(Literal::Qubit(1))), None, None));
    b0.push(Instruction::Call(CallableId(2), operands2(Operand::Literal(Literal::Qubit(0)), Operand::Literal(Literal::Result(0))), None, None));
    b0.push(Instruction::Call(CallableId(2), operands2(Operand::Literal(Literal::Qubit(1)), Operand::Literal(Literal::Result(1))), None, None));
    b0.push(Instruction::Call(CallableId(3), operands2(Operand::Literal(Literal::Integer(2)), Operand::Literal(Literal::Tag(0, 3))), None, None));
    b0.push(Instruction::Call(CallableId(4), operands2(Operand::Literal(Literal::Result(0)), Operand::Literal(Literal::Tag(1, 5))), None, None));
    b0.push(Instruction::Call(CallableId(4), operands2(Operand::Literal(Literal::Result(1)), Operand::Literal(Literal::Tag(2, 5))), None, None));
    b0.push(Instruction::Return(Some(Operand::Literal(Literal::Integer(0)))));
    program.blocks.insert(BlockId(0), Block(b0));
    program.num_qubits = 2;
    program.num_results = 2;
    program
}

/// A program that teleports the state of one qubit to another, correcting on measured results.
#[verifier::rlimit(50)]
pub fn teleport_program() -> (p: Program)
    ensures
        p.well_formed(),
        p.entry == CallableId(7),
        p.config.capabilities.bits == ADAPTIVE_BIT,
        p.num_qubits == 3,
        p.num_results == 3,
        p.tags@.len() == 1,
        p.tags@[0]@ == "0_r"@,
        p.array_literals@.len() == 0,
        !p.use_dynamic_qubit_management,
        p.callables@.len() == 8,
        p.callables.has(0),
        is_decl(p.callables.at(0), "__quantum__qis__h__body"@, seq![Ty::Prim(Prim::Qubit)], None, CallableType::Regular),
        p.callables.has(1),
        is_decl(p.callables.at(1), "__quantum__qis__z__body"@, seq![Ty::Prim(Prim::Qubit)], None, CallableType::Regular),
        p.callables.has(2),
        is_decl(p.callables.at(2), "__quantum__qis__x__body"@, seq![Ty::Prim(Prim::Qubit)], None, CallableType::Regular),
        p.callables.has(3),
        is_decl(p.callables.at(3), "__quantum__qis__cx__body"@, seq![Ty::Prim(Prim::Qubit), Ty::Prim(Prim::Qubit)], None, CallableType::Regular),
        p.callables.has(4),
        is_decl(p.callables.at(4), "__quantum__qis__mresetz__body"@, seq![Ty::Prim(Prim::Qubit), Ty::Prim(Prim::Result)], None, CallableType::Measurement),
        p.callables.has(5),
        is_decl(p.callables.at(5), "__quantum__rt__read_result"@, seq![Ty::Prim(Prim::Result)], Some(Ty::Prim(Prim::Boolean)), CallableType::Readout),
        p.callables.has(6),
        is_decl(p.callables.at(6), "__quantum__rt__result_record_output"@, seq![Ty::Prim(Prim::Result), Ty::Prim(Prim::Pointer)], None, CallableType::OutputRecording),
        p.callables.has(7),
        is_bodied(p.callables.at(7), "main"@, Seq::empty(), Seq::empty(), Some(Ty::Prim(Prim::Integer)), 0),
        p.blocks@.len() == 5,
        p.blocks.has(0),
        p.blocks.at(0).0@.len() == 8,
        is_call(p.blocks.at(0).0@[0], 2, seq![qubit(0)], None),
        is_call(p.blocks.at(0).0@[1], 0, seq![qubit(2)], None),
        is_call(p.blocks.at(0).0@[2], 3, seq![qubit(2), qubit(1)], None),
        is_call(p.blocks.at(0).0@[3], 3, seq![qubit(0), qubit(2)], None),
        is_call(p.blocks.at(0).0@[4], 0, seq![qubit(0)], None),
        is_call(p.blocks.at(0).0@[5], 4, seq![qubit(0), result(0)], None),
        is_call(p.blocks.at(0).0@[6], 5, seq![result(0)], Some(var(0, Prim::Boolean))),
        p.blocks.at(0).0@[7] == Instruction::Branch(var(0, Prim::Boolean), BlockId(1), BlockId(2), None),
        p.blocks.has(1),
        p.blocks.at(1).0@.len() == 2,
        is_call(p.blocks.at(1).0@[0], 1, seq![qubit(1)], None),
        p.blocks.at(1).0@[1] == Instruction::Jump(BlockId(2)),
        p.blocks.has(2),
        p.blocks.at(2).0@.len() == 3,
        is_call(p.blocks.at(2).0@[0], 4, seq![qubit(2), result(1)], None),
        is_call(p.blocks.at(2).0@[1], 5, seq![result(1)], Some(var(1, Prim::Boolean))),
        p.blocks.at(2).0@[2] == Instruction::Branch(var(1, Prim::Boolean), BlockId(3), BlockId(4), None),
        p.blocks.has(3),
        p.blocks.at(3).0@.len() == 2,
        is_call(p.blocks.at(3).0@[0], 2, seq![qubit(1)], None),
        p.blocks.at(3).0@[1] == Instruction::Jump(BlockId(4)),
        p.blocks.has(4),
        p.blocks.at(4).0@.len() == 3,
        is_call(p.blocks.at(4).0@[0], 4, seq![qubit(1), result(2)], None),
        is_call(p.blocks.at(4).0@[1], 6, seq![result(2), Operand::Literal(Literal::Tag(0, 3))], None),
        p.blocks.at(4).0@[2] == Instruction::Return(Some(integer(0))),
{
    let mut program = Program::new();
    program.config.capabilities = TargetCapabilityFlags::adaptive();
    program.callables.insert(CallableId(0), h_decl());
    program.callables.insert(CallableId(1), z_decl());
    program.callables.insert(CallableId(2), x_decl());
    program.callables.insert(CallableId(3), cx_decl());
    program.callables.insert(CallableId(4), mresetz_decl());
    program.callables.insert(CallableId(5), read_result_decl());
    program.callables.insert(CallableId(6), result_record_decl());
    program.callables.insert(
        CallableId(7),
        Callable {
            name: name_of("main"),
            input_type: Vec::new(),
            input_vars: Vec::new(),
            output_type: Some(Ty::Prim(Prim::Integer)),
            body: Some(BlockId(0)),
            call_type: CallableType::Regular,
        },
    );
    let mut tags: Vec<String> = Vec::new();
    tags.push(name_of("0_r"));
    program.tags = tags;
    program.entry = CallableId(7);
    let mut b0: Vec<Instruction> = Vec::new();
    b0.push(Instruction::Call(CallableId(2), operands1(Operand::Literal(Literal::Qubit(0))), None, None));
    b0.push(Instruction::Call(CallableId(0), operands1(Operand::Literal(Literal::Qubit(2))), None, None));
    b0.push(Instruction::Call(CallableId(3), operands2(Operand::Literal(Literal::Qubit(2)), Operand::Literal(Literal::Qubit(1))), None, None));
    b0.push(Instruction::Call(CallableId(3), operands2(Operand::Literal(Literal::Qubit(0)), Operand::Literal(Literal::Qubit(2))), None, None));
    b0.push(Instruction::Call(CallableId(0), operands1(Operand::Literal(Literal::Qubit(0))), None, None));
    b0.push(Instruction::Call(CallableId(4), operands2(Operand::Literal(Literal::Qubit(0)), Operand::Literal(Literal::Result(0))), None, None));
    b0.push(Instruction::Call(CallableId(5), operands1(Operand::Literal(Literal::Result(0))), Some(Variable { variable_id: VariableId(0), ty: Ty::Prim(Prim::Boolean) }), None));
    b0.push(Instruction::Branch(Variable { variable_id: VariableId(0), ty: Ty::Prim(Prim::Boolean) }, BlockId(1), BlockId(2), None));
    program.blocks.insert(BlockId(0), Block(b0));
    let mut b1: Vec<Instruction> = Vec::new();
    b1.push(Instruction::Call(CallableId(1), operands1(Operand::Literal(Literal::Qubit(1))), None, None));
    b1.push(Instruction::Jump(BlockId(2)));
    program.blocks.insert(BlockId(1), Block(b1));
    let mut b2: Vec<Instruction> = Vec::new();
    b2.push(Instruction::Call(CallableId(4), operands2(Operand::Literal(Literal::Qubit(2)), Operand::Literal(Literal::Result(1))), None, None));
    b2.push(Instruction::Call(CallableId(5), operands1(Operand::Literal(Literal::Result(1))), Some(Variable { variable_id: VariableId(1), ty: Ty::Prim(Prim::Boolean) }), None));
    b2.push(Instruction::Branch(Variable { variable_id: VariableId(1), ty: Ty::Prim(Prim::Boolean) }, BlockId(3), BlockId(4), None));
    program.blocks.insert(BlockId(2), Block(b2));
    let mut b3: Vec<Instruction> = Vec::new();
    b3.push(Instruction::Call(CallableId(2), operands1(Operand::Literal(Literal::Qubit(1))), None, None));
    b3.push(Instruction::Jump(BlockId(4)));
    program.blocks.insert(BlockId(3), Block(b3));
    let mut b4: Vec<Instruction> = Vec::new();
    b4.push(Instruction::Call(CallableId(4), operands2(Operand::Literal(Literal::Qubit(1)), Operand::Literal(Literal::Result(2))), None, None));
    b4.push(Instruction::Call(CallableId(6), operands2(Operand::Literal(Literal::Result(2)), Operand::Literal(Literal::Tag(0, 3))), None, None));
    b4.push(Instruction::Return(Some(Operand::Literal(Literal::Integer(0)))));
    program.blocks.insert(BlockId(4), Block(b4));
    program.num_qubits = 3;
    program.num_results = 3;
    program
}

/// A program with two callables with bodies: the entry callable, whose body is block 2, calls a
/// helper whose body, block 0, adds one to its integer parameter and returns the sum.
pub fn two_body_program() -> (p: Program)
    ensures
        p.well_formed(),
        p.entry == CallableId(0),
        p.config.capabilities.bits == profile_bits(Profile::AdaptiveRIF),
        p.num_qubits == 0,
        p.num_results == 0,
        p.tags@.len() == 0,
        p.array_literals@.len() == 0,
        !p.use_dynamic_qubit_management,
        p.callables@.len() == 2,
        p.callables.has(0),
        is_bodied(p.callables.at(0), "main"@, Seq::empty(), Seq::empty(), Some(Ty::Prim(Prim::Integer)), 2),
        p.callables.has(1),
        is_bodied(p.callables.at(1), "helper"@, seq![Ty::Prim(Prim::Integer)], seq![VariableId(0)], Some(Ty::Prim(Prim::Integer)), 0),
        p.blocks@.len() == 3,
        !p.blocks.has(1),
        p.blocks.has(0),
        p.blocks.at(0).0@.len() == 2,
        p.blocks.at(0).0@[0] == Instruction::Add(Operand::Variable(var(0, Prim::Integer)), integer(1), var(1, Prim::Integer)),
        p.blocks.at(0).0@[1] == Instruction::Return(Some(Operand::Variable(var(1, Prim::Integer)))),
        p.blocks.has(2),
        p.blocks.at(2).0@.len() == 2,
        is_call(p.blocks.at(2).0@[0], 1, seq![integer(7)], Some(var(2, Prim::Integer))),
        p.blocks.at(2).0@[1] == Instruction::Return(Some(Operand::Variable(var(2, Prim::Integer)))),
{
    let mut program = Program::new();
    program.config.capabilities = TargetCapabilityFlags::from_profile(Profile::AdaptiveRIF);
    program.callables.insert(
        CallableId(0),
        Callable {
            name: name_of("main"),
            input_type: Vec::new(),
            input_vars: Vec::new(),
            output_type: Some(Ty::Prim(Prim::Integer)),
            body: Some(BlockId(2)),
            call_type: CallableType::Regular,
        },
    );
    let mut input_vars: Vec<VariableId> = Vec::new();
    input_vars.push(VariableId(0));
    program.callables.insert(
        CallableId(1),
        Callable {
            name: name_of("helper"),
            input_type: types1(Ty::Prim(Prim::Integer)),
            input_vars: input_vars,
            output_type: Some(Ty::Prim(Prim::Integer)),
            body: Some(BlockId(0)),
            call_type: CallableType::Regular,
        },
    );
    program.entry = CallableId(0);
    let mut b0: Vec<Instruction> = Vec::new();
    b0.push(Instruction::Add(Operand::Variable(Variable { variable_id: VariableId(0), ty: Ty::Prim(Prim::Integer) }), Operand::Literal(Literal::Integer(1)), Variable { variable_id: VariableId(1), ty: Ty::Prim(Prim::Integer) }));
    b0.push(Instruction::Return(Some(Operand::Variable(Variable { variable_id: VariableId(1), ty: Ty::Prim(Prim::Integer) }))));
    program.blocks.insert(BlockId(0), Block(b0));
    let mut b2: Vec<Instruction> = Vec::new();
    b2.push(Instruction::Call(CallableId(1), operands1(Operand::Literal(Literal::Integer(7))), Some(Variable { variable_id: VariableId(2), ty: Ty::Prim(Prim::Integer) }), None));
    b2.push(Instruction::Return(Some(Operand::Variable(Variable { variable_id: VariableId(2), ty: Ty::Prim(Prim::Integer) }))));
    program.blocks.insert(BlockId(2), Block(b2));
    program.num_qubits = 0;
    program.num_results = 0;
    program
}

/// A program with two callables with bodies, where the helper branches forward on its boolean
/// parameter to one of two blocks that each return a value.
pub fn two_body_program_with_branch() -> (p: Program)
    ensures
        p.well_formed(),
        p.entry == CallableId(0),
        p.config.capabilities.bits == profile_bits(Profile::AdaptiveRIF),
        p.num_qubits == 0,
        p.num_results == 0,
        p.tags@.len() == 0,
        p.array_literals@.len() == 0,
        !p.use_dynamic_qubit_management,
        p.callables@.len() == 2,
        p.callables.has(0),
        is_bodied(p.callables.at(0), "main"@, Seq::empty(), Seq::empty(), Some(Ty::Prim(Prim::Integer)), 3),
        p.callables.has(1),
        is_bodied(p.callables.at(1), "helper"@, seq![Ty::Prim(Prim::Boolean)], seq![VariableId(0)], Some(Ty::Prim(Prim::Integer)), 0),
        p.blocks@.len() == 4,
        p.blocks.has(0),
        p.blocks.at(0).0@.len() == 1,
        p.blocks.at(0).0@[0] == Instruction::Branch(var(0, Prim::Boolean), BlockId(1), BlockId(2), None),
        p.blocks.has(1),
        p.blocks.at(1).0@.len() == 1,
        p.blocks.at(1).0@[0] == Instruction::Return(Some(integer(1))),
        p.blocks.has(2),
        p.blocks.at(2).0@.len() == 1,
        p.blocks.at(2).0@[0] == Instruction::Return(Some(integer(0))),
        p.blocks.has(3),
        p.blocks.at(3).0@.len() == 2,
        is_call(p.blocks.at(3).0@[0], 1, seq![Operand::Literal(Literal::Bool(true))], Some(var(1, Prim::Integer))),
        p.blocks.at(3).0@[1] == Instruction::Return(Some(Operand::Variable(var(1, Prim::Integer)))),
{
    let mut program = Program::new();
    program.config.capabilities = TargetCapabilityFlags::from_profile(Profile::AdaptiveRIF);
    program.callables.insert(
        CallableId(0),
        Callable {
            name: name_of("main"),
            input_type: Vec::new(),
            input_vars: Vec::new(),
            output_type: Some(Ty::Prim(Prim::Integer)),
            body: Some(BlockId(3)),
            call_type: CallableType::Regular,
        },
    );
    let mut input_vars: Vec<VariableId> = Vec::new();
    input_vars.push(VariableId(0));
    program.callables.insert(
        CallableId(1),
        Callable {
            name: name_of("helper"),
            input_type: types1(Ty::Prim(Prim::Boolean)),
            input_vars: input_vars,
            output_type: Some(Ty::Prim(Prim::Integer)),
            body: Some(BlockId(0)),
            call_type: CallableType::Regular,
        },
    );
    program.entry = CallableId(0);
    let mut b0: Vec<Instruction> = Vec::new();
    b0.push(Instruction::Branch(Variable { variable_id: VariableId(0), ty: Ty::Prim(Prim::Boolean) }, BlockId(1), BlockId(2), None));
    program.blocks.insert(BlockId(0), Block(b0));
    let mut b1: Vec<Instruction> = Vec::new();
    b1.push(Instruction::Return(Some(Operand::Literal(Literal::Integer(1)))));
    program.blocks.insert(BlockId(1), Block(b1));
    let mut b2: Vec<Instruction> = Vec::new();
    b2.push(Instruction::Return(Some(Operand::Literal(Literal::Integer(0)))));
    program.blocks.insert(BlockId(2), Block(b2));
    let mut b3: Vec<Instruction> = Vec::new();
    b3.push(Instruction::Call(CallableId(1), operands1(Operand::Literal(Literal::Bool(true))), Some(Variable { variable_id: VariableId(1), ty: Ty::Prim(Prim::Integer) }), None));
    b3.push(Instruction::Return(Some(Operand::Variable(Variable { variable_id: VariableId(1), ty: Ty::Prim(Prim::Integer) }))));
    program.blocks.insert(BlockId(3), Block(b3));
    program.num_qubits = 0;
    program.num_results = 0;
    program
}

/// A program with two callables with bodies, where the helper holds a loop: a counter stored
/// before the loop is incremented and stored again in its body, which branches back to the header.
#[verifier::rlimit(50)]
pub fn two_body_program_with_loop() -> (p: Program)
    ensures
        p.well_formed(),
        p.entry == CallableId(0),
        p.config.capabilities.bits == profile_bits(Profile::AdaptiveRIF),
        p.num_qubits == 0,
        p.num_results == 0,
        p.tags@.len() == 0,
        p.array_literals@.len() == 0,
        !p.use_dynamic_qubit_management,
        p.callables@.len() == 2,
        p.callables.has(0),
        is_bodied(p.callables.at(0), "main"@, Seq::empty(), Seq::empty(), Some(Ty::Prim(Prim::Integer)), 4),
        p.callables.has(1),
        is_bodied(p.callables.at(1), "helper"@, seq![Ty::Prim(Prim::Boolean)], seq![VariableId(0)], Some(Ty::Prim(Prim::Integer)), 0),
        p.blocks@.len() == 5,
        p.blocks.has(0),
        p.blocks.at(0).0@.len() == 2,
        p.blocks.at(0).0@[0] == Instruction::Store(integer(0), var(1, Prim::Integer)),
        p.blocks.at(0).0@[1] == Instruction::Jump(BlockId(1)),
        p.blocks.has(1),
        p.blocks.at(1).0@.len() == 1,
        p.blocks.at(1).0@[0] == Instruction::Branch(var(0, Prim::Boolean), BlockId(2), BlockId(3), None),
        p.blocks.has(2),
        p.blocks.at(2).0@.len() == 3,
        p.blocks.at(2).0@[0] == Instruction::Add(Operand::Variable(var(1, Prim::Integer)), integer(1), var(2, Prim::Integer)),
        p.blocks.at(2).0@[1] == Instruction::Store(Operand::Variable(var(2, Prim::Integer)), var(1, Prim::Integer)),
        p.blocks.at(2).0@[2] == Instruction::Jump(BlockId(1)),
        p.blocks.has(3),
        p.blocks.at(3).0@.len() == 1,
        p.blocks.at(3).0@[0] == Instruction::Return(Some(Operand::Variable(var(1, Prim::Integer)))),
        p.blocks.has(4),
        p.blocks.at(4).0@.len() == 2,
        is_call(p.blocks.at(4).0@[0], 1, seq![Operand::Literal(Literal::Bool(true))], Some(var(3, Prim::Integer))),
        p.blocks.at(4).0@[1] == Instruction::Return(Some(Operand::Variable(var(3, Prim::Integer)))),
{
    let mut program = Program::new();
    program.config.capabilities = TargetCapabilityFlags::from_profile(Profile::AdaptiveRIF);
    program.callables.insert(
        CallableId(0),
        Callable {
            name: name_of("main"),
            input_type: Vec::new(),
            input_vars: Vec::new(),
            output_type: Some(Ty::Prim(Prim::Integer)),
            body: Some(BlockId(4)),
            call_type: CallableType::Regular,
        },
    );
    let mut input_vars: Vec<VariableId> = Vec::new();
    input_vars.push(VariableId(0));
    program.callables.insert(
        CallableId(1),
        Callable {
            name: name_of("helper"),
            input_type: types1(Ty::Prim(Prim::Boolean)),
            input_vars: input_vars,
            output_type: Some(Ty::Prim(Prim::Integer)),
            body: Some(BlockId(0)),
            call_type: CallableType::Regular,
        },
    );
    program.entry = CallableId(0);
    let mut b0: Vec<Instruction> = Vec::new();
    b0.push(Instruction::Store(Operand::Literal(Literal::Integer(0)), Variable { variable_id: VariableId(1), ty: Ty::Prim(Prim::Integer) }));
    b0.push(Instruction::Jump(BlockId(1)));
    program.blocks.insert(BlockId(0), Block(b0));
    let mut b1: Vec<Instruction> = Vec::new();
    b1.push(Instruction::Branch(Variable { variable_id: VariableId(0), ty: Ty::Prim(Prim::Boolean) }, BlockId(2), BlockId(3), None));
    program.blocks.insert(BlockId(1), Block(b1));
    let mut b2: Vec<Instruction> = Vec::new();
    b2.push(Instruction::Add(Operand::Variable(Variable { variable_id: VariableId(1), ty: Ty::Prim(Prim::Integer) }), Operand::Literal(Literal::Integer(1)), Variable { variable_id: VariableId(2), ty: Ty::Prim(Prim::Integer) }));
    b2.push(Instruction::Store(Operand::Variable(Variable { variable_id: VariableId(2), ty: Ty::Prim(Prim::Integer) }), Variable { variable_id: VariableId(1), ty: Ty::Prim(Prim::Integer) }));
    b2.push(Instruction::Jump(BlockId(1)));
    program.blocks.insert(BlockId(2), Block(b2));
    let mut b3: Vec<Instruction> = Vec::new();
    b3.push(Instruction::Return(Some(Operand::Variable(Variable { variable_id: VariableId(1), ty: Ty::Prim(Prim::Integer) }))));
    program.blocks.insert(BlockId(3), Block(b3));
    let mut b4: Vec<Instruction> = Vec::new();
    b4.push(Instruction::Call(CallableId(1), operands1(Operand::Literal(Literal::Bool(true))), Some(Variable { variable_id: VariableId(3), ty: Ty::Prim(Prim::Integer) }), None));
    b4.push(Instruction::Return(Some(Operand::Variable(Variable { variable_id: VariableId(3), ty: Ty::Prim(Prim::Integer) }))));
    program.blocks.insert(BlockId(4), Block(b4));
    program.num_qubits = 0;
    program.num_results = 0;
    program
}

/// A program with two callables with bodies, where the helper stores a value derived from its
/// integer parameter back into that parameter and returns it.
pub fn two_body_mutable_param_program() -> (p: Program)
    ensures
        p.well_formed(),
        p.entry == CallableId(0),
        p.config.capabilities.bits == profile_bits(Profile::AdaptiveRIF),
        p.num_qubits == 0,
        p.num_results == 0,
        p.tags@.len() == 0,
        p.array_literals@.len() == 0,
        !p.use_dynamic_qubit_management,
        p.callables@.len() == 2,
        p.callables.has(0),
        is_bodied(p.callables.at(0), "main"@, Seq::empty(), Seq::empty(), Some(Ty::Prim(Prim::Integer)), 1),
        p.callables.has(1),
        is_bodied(p.callables.at(1), "helper"@, seq![Ty::Prim(Prim::Integer)], seq![VariableId(0)], Some(Ty::Prim(Prim::Integer)), 0),
        p.blocks@.len() == 2,
        p.blocks.has(0),
        p.blocks.at(0).0@.len() == 3,
        p.blocks.at(0).0@[0] == Instruction::Add(Operand::Variable(var(0, Prim::Integer)), integer(1), var(1, Prim::Integer)),
        p.blocks.at(0).0@[1] == Instruction::Store(Operand::Variable(var(1, Prim::Integer)), var(0, Prim::Integer)),
        p.blocks.at(0).0@[2] == Instruction::Return(Some(Operand::Variable(var(0, Prim::Integer)))),
        p.blocks.has(1),
        p.blocks.at(1).0@.len() == 2,
        is_call(p.blocks.at(1).0@[0], 1, seq![integer(5)], Some(var(2, Prim::Integer))),
        p.blocks.at(1).0@[1] == Instruction::Return(Some(Operand::Variable(var(2, Prim::Integer)))),
{
    let mut program = Program::new();
    program.config.capabilities = TargetCapabilityFlags::from_profile(Profile::AdaptiveRIF);
    program.callables.insert(
        CallableId(0),
        Callable {
            name: name_of("main"),
            input_type: Vec::new(),
            input_vars: Vec::new(),
            output_type: Some(Ty::Prim(Prim::Integer)),
            body: Some(BlockId(1)),
            call_type: CallableType::Regular,
        },
    );
    let mut input_vars: Vec<VariableId> = Vec::new();
    input_vars.push(VariableId(0));
    program.callables.insert(
        CallableId(1),
        Callable {
            name: name_of("helper"),
            input_type: types1(Ty::Prim(Prim::Integer)),
            input_vars: input_vars,
            output_type: Some(Ty::Prim(Prim::Integer)),
            body: Some(BlockId(0)),
            call_type: CallableType::Regular,
        },
    );
    program.entry = CallableId(0);
    let mut b0: Vec<Instruction> = Vec::new();
    b0.push(Instruction::Add(Operand::Variable(Variable { variable_id: VariableId(0), ty: Ty::Prim(Prim::Integer) }), Operand::Literal(Literal::Integer(1)), Variable { variable_id: VariableId(1), ty: Ty::Prim(Prim::Integer) }));
    b0.push(Instruction::Store(Operand::Variable(Variable { variable_id: VariableId(1), ty: Ty::Prim(Prim::Integer) }), Variable { variable_id: VariableId(0), ty: Ty::Prim(Prim::Integer) }));
    b0.push(Instruction::Return(Some(Operand::Variable(Variable { variable_id: VariableId(0), ty: Ty::Prim(Prim::Integer) }))));
    program.blocks.insert(BlockId(0), Block(b0));
    let mut b1: Vec<Instruction> = Vec::new();
    b1.push(Instruction::Call(CallableId(1), operands1(Operand::Literal(Literal::Integer(5))), Some(Variable { variable_id: VariableId(2), ty: Ty::Prim(Prim::Integer) }), None));
    b1.push(Instruction::Return(Some(Operand::Variable(Variable { variable_id: VariableId(2), ty: Ty::Prim(Prim::Integer) }))));
    program.blocks.insert(BlockId(1), Block(b1));
    program.num_qubits = 0;
    program.num_results = 0;
    program
}

} // verus!
