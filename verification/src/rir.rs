use crate::index_map::{slots_insert, IndexKey, IndexMap};
use crate::target::TargetCapabilityFlags;
use vstd::prelude::*;

verus! {

/// A unique identifier for a block in a RIR program.
#[derive(Clone, Copy, Debug, Default, Hash, PartialEq, Eq, Structural, PartialOrd, Ord)]
pub struct BlockId(pub u32);

/// A unique identifier for a callable in a RIR program.
#[derive(Clone, Copy, Debug, Default, Hash, PartialEq, Eq, Structural, PartialOrd, Ord)]
pub struct CallableId(pub u32);

/// A unique identifier for a variable in a RIR program.
#[derive(Clone, Copy, Debug, Default, Hash, PartialEq, Eq, Structural, PartialOrd, Ord)]
pub struct VariableId(pub u32);

impl IndexKey for BlockId {
    open spec fn key_nat(self) -> nat {
        self.0 as nat
    }

    fn to_index(&self) -> (r: usize) {
        self.0 as usize
    }

    fn from_index(i: usize) -> (r: Self) {
        BlockId(i as u32)
    }

    proof fn lemma_key_injective(a: Self, b: Self) {
    }

    proof fn lemma_key_bound(a: Self) {
    }
}

impl IndexKey for CallableId {
    open spec fn key_nat(self) -> nat {
        self.0 as nat
    }

    fn to_index(&self) -> (r: usize) {
        self.0 as usize
    }

    fn from_index(i: usize) -> (r: Self) {
        CallableId(i as u32)
    }

    proof fn lemma_key_injective(a: Self, b: Self) {
    }

    proof fn lemma_key_bound(a: Self) {
    }
}

impl IndexKey for VariableId {
    open spec fn key_nat(self) -> nat {
        self.0 as nat
    }

    fn to_index(&self) -> (r: usize) {
        self.0 as usize
    }

    fn from_index(i: usize) -> (r: Self) {
        VariableId(i as u32)
    }

    proof fn lemma_key_injective(a: Self, b: Self) {
    }

    proof fn lemma_key_bound(a: Self) {
    }
}

impl BlockId {
    /// The id that follows this one.
    pub fn successor(self) -> (r: Self)
        requires
            self.0 < u32::MAX,
        ensures
            r.0 == self.0 + 1,
    {
        BlockId(self.0 + 1)
    }
}

impl CallableId {
    /// The id that follows this one.
    pub fn successor(self) -> (r: Self)
        requires
            self.0 < u32::MAX,
        ensures
            r.0 == self.0 + 1,
    {
        CallableId(self.0 + 1)
    }
}

impl VariableId {
    /// The id that follows this one.
    pub fn successor(self) -> (r: Self)
        requires
            self.0 < u32::MAX,
        ensures
            r.0 == self.0 + 1,
    {
        VariableId(self.0 + 1)
    }
}

/// Where an instruction came from in the source program.
#[derive(Clone, Copy, Debug, PartialEq, Eq, Structural)]
pub struct InstructionDbgMetadata {
    /// The debug location that the instruction belongs to.
    pub dbg_location: usize,
}

/// A primitive type of the RIR.
#[derive(Clone, Copy, Debug, PartialEq, Eq, Structural)]
pub enum Prim {
    Qubit,
    Result,
    Boolean,
    Integer,
    Double,
    Pointer,
}

/// A type of the RIR.
#[derive(Clone, Copy, Debug, PartialEq, Eq, Structural)]
pub enum Ty {
    Prim(Prim),
    Array(usize, Prim),
}

/// A literal value. A double is held as the bits of its IEEE 754 binary64 encoding.
#[derive(Clone, Copy, Debug, PartialEq, Eq, Structural)]
pub enum Literal {
    Qubit(u32),
    Result(u32),
    Bool(bool),
    Integer(i64),
    Double(u64),
    Tag(usize, usize),
    Array(usize),
    NullPointer,
}

/// A typed variable.
#[derive(Clone, Copy, Debug, PartialEq, Eq, Structural)]
pub struct Variable {
    pub variable_id: VariableId,
    pub ty: Ty,
}

/// An operand of an instruction: a literal or a variable.
#[derive(Clone, Copy, Debug, PartialEq, Eq, Structural)]
pub enum Operand {
    Literal(Literal),
    Variable(Variable),
}

/// The condition of an integer comparison.
#[derive(Clone, Copy, Debug, PartialEq, Eq, Structural)]
pub enum ConditionCode {
    Eq,
    Ne,
    Slt,
    Sle,
    Sgt,
    Sge,
}

/// The condition of a floating point comparison.
#[derive(Clone, Copy, Debug, PartialEq, Eq, Structural)]
pub enum FcmpConditionCode {
    False,
    OrderedAndEqual,
    OrderedAndGreaterThan,
    OrderedAndGreaterThanOrEqual,
    OrderedAndLessThan,
    OrderedAndLessThanOrEqual,
    OrderedAndNotEqual,
    Ordered,
    UnorderedOrEqual,
    UnorderedOrGreaterThan,
    UnorderedOrGreaterThanOrEqual,
    UnorderedOrLessThan,
    UnorderedOrLessThanOrEqual,
    UnorderedOrNotEqual,
    Unordered,
    True,
}

/// The type of callable.
#[derive(Clone, Copy, Debug, PartialEq, Eq, Structural)]
pub enum CallableType {
    Measurement,
    NoiseIntrinsic,
    Reset,
    Readout,
    OutputRecording,
    Regular,
}

/// A RIR instruction.
#[derive(Clone, Debug, PartialEq)]
pub enum Instruction {
    Store(Operand, Variable),
    Call(CallableId, Vec<Operand>, Option<Variable>, Option<Box<InstructionDbgMetadata>>),
    Jump(BlockId),
    Branch(Variable, BlockId, BlockId, Option<Box<InstructionDbgMetadata>>),
    Add(Operand, Operand, Variable),
    Sub(Operand, Operand, Variable),
    Mul(Operand, Operand, Variable),
    Sdiv(Operand, Operand, Variable),
    Srem(Operand, Operand, Variable),
    Shl(Operand, Operand, Variable),
    Ashr(Operand, Operand, Variable),
    Fadd(Operand, Operand, Variable),
    Fsub(Operand, Operand, Variable),
    Fmul(Operand, Operand, Variable),
    Fdiv(Operand, Operand, Variable),
    Frem(Operand, Operand, Variable),
    Fcmp(FcmpConditionCode, Operand, Operand, Variable),
    Icmp(ConditionCode, Operand, Operand, Variable),
    LogicalNot(Operand, Variable),
    LogicalAnd(Operand, Operand, Variable),
    LogicalOr(Operand, Operand, Variable),
    BitwiseNot(Operand, Variable),
    BitwiseAnd(Operand, Operand, Variable),
    BitwiseOr(Operand, Operand, Variable),
    BitwiseXor(Operand, Operand, Variable),
    Phi(Vec<(Operand, BlockId)>, Variable),
    Convert(Operand, Variable),
    Load(Variable, Variable),
    Alloca(Variable),
    Index(Operand, Operand, Variable),
    Return(Option<Operand>),
}

/// A block is a sequence of instructions.
#[derive(Clone, Debug, Default, PartialEq)]
pub struct Block(pub Vec<Instruction>);

/// A callable.
#[derive(Clone, Debug, PartialEq)]
pub struct Callable {
    /// The name of the callable.
    pub name: String,
    /// The input type of the callable.
    pub input_type: Vec<Ty>,
    /// The body-local variable ids bound to the input parameters, in order.
    pub input_vars: Vec<VariableId>,
    /// The output type of the callable.
    pub output_type: Option<Ty>,
    /// The callable body; `None` marks an intrinsic.
    pub body: Option<BlockId>,
    /// What type of callable this is.
    pub call_type: CallableType,
}

/// An array literal: its elements and their primitive type.
#[derive(Clone, Debug, PartialEq)]
pub struct ArrayLiteral {
    pub contents: Vec<Literal>,
    pub ty: Prim,
}

/// The target configuration of a program.
#[derive(Clone, Copy, Debug, Default, PartialEq, Eq, Structural)]
pub struct Config {
    pub capabilities: TargetCapabilityFlags,
}

/// The root of the RIR.
pub struct Program {
    pub entry: CallableId,
    pub callables: IndexMap<CallableId, Callable>,
    pub blocks: IndexMap<BlockId, Block>,
    pub config: Config,
    pub num_qubits: u32,
    pub num_results: u32,
    pub tags: Vec<String>,
    pub array_literals: Vec<ArrayLiteral>,
    /// Whether the program emits dynamic qubit allocation and release calls.
    pub use_dynamic_qubit_management: bool,
}

impl Instruction {
    /// The debug metadata of a call or a branch.
    pub fn metadata(&self) -> (r: Option<&InstructionDbgMetadata>)
        ensures
            r == match self {
                Instruction::Call(_, _, _, Some(m)) => Some(&**m),
                Instruction::Branch(_, _, _, Some(m)) => Some(&**m),
                _ => None,
            },
    {
        match self {
            Instruction::Call(_, _, _, Some(m)) => Some(&**m),
            Instruction::Branch(_, _, _, Some(m)) => Some(&**m),
            _ => None,
        }
    }
}

impl Variable {
    pub fn new_boolean(id: VariableId) -> (r: Self)
        ensures
            r == (Variable { variable_id: id, ty: Ty::Prim(Prim::Boolean) }),
    {
        Variable { variable_id: id, ty: Ty::Prim(Prim::Boolean) }
    }

    pub fn new_integer(id: VariableId) -> (r: Self)
        ensures
            r == (Variable { variable_id: id, ty: Ty::Prim(Prim::Integer) }),
    {
        Variable { variable_id: id, ty: Ty::Prim(Prim::Integer) }
    }

    pub fn new_double(id: VariableId) -> (r: Self)
        ensures
            r == (Variable { variable_id: id, ty: Ty::Prim(Prim::Double) }),
    {
        Variable { variable_id: id, ty: Ty::Prim(Prim::Double) }
    }

    pub fn new_ptr(id: VariableId) -> (r: Self)
        ensures
            r == (Variable { variable_id: id, ty: Ty::Prim(Prim::Pointer) }),
    {
        Variable { variable_id: id, ty: Ty::Prim(Prim::Pointer) }
    }
}

/// The type of a literal.
pub open spec fn literal_type(lit: Literal) -> Ty {
    match lit {
        Literal::Qubit(_) => Ty::Prim(Prim::Qubit),
        Literal::Result(_) => Ty::Prim(Prim::Result),
        Literal::Bool(_) => Ty::Prim(Prim::Boolean),
        Literal::Integer(_) => Ty::Prim(Prim::Integer),
        Literal::Double(_) => Ty::Prim(Prim::Double),
        Literal::NullPointer | Literal::Tag(..) | Literal::Array(_) => Ty::Prim(Prim::Pointer),
    }
}

/// The type of an operand.
pub open spec fn operand_type(op: Operand) -> Ty {
    match op {
        Operand::Literal(lit) => literal_type(lit),
        Operand::Variable(var) => var.ty,
    }
}

impl Operand {
    pub fn get_type(&self) -> (r: Ty)
        ensures
            r == operand_type(*self),
    {
        match self {
            Operand::Literal(lit) => match lit {
                Literal::Qubit(_) => Ty::Prim(Prim::Qubit),
                Literal::Result(_) => Ty::Prim(Prim::Result),
                Literal::Bool(_) => Ty::Prim(Prim::Boolean),
                Literal::Integer(_) => Ty::Prim(Prim::Integer),
                Literal::Double(_) => Ty::Prim(Prim::Double),
                Literal::NullPointer | Literal::Tag(..) | Literal::Array(_) => Ty::Prim(
                    Prim::Pointer,
                ),
            },
            Operand::Variable(var) => var.ty,
        }
    }
}

impl Config {
    /// Whether the target is the base profile, with no extra capability.
    pub fn is_base(&self) -> (r: bool)
        ensures
            r == (self.capabilities.bits == 0),
    {
        self.capabilities.is_empty()
    }
}

/// The block slots that a sequence of `(id, block)` pairs fills, later pairs overwriting earlier ones.
pub open spec fn slots_from_pairs(s: Seq<(BlockId, Block)>) -> Seq<Option<Block>>
    decreases s.len(),
{
    if s.len() == 0 {
        Seq::empty()
    } else {
        slots_insert(slots_from_pairs(s.drop_last()), s.last().0.0 as nat, s.last().1)
    }
}

impl Program {
    pub open spec fn well_formed(&self) -> bool {
        self.callables.well_formed() && self.blocks.well_formed()
    }

    /// Whether `c` is the entry callable made for a program built from blocks whose first id is `first`.
    pub open spec fn is_entry_callable_for(c: Callable, first: BlockId) -> bool {
        &&& c.name@ == "entry"@
        &&& c.input_type@.len() == 0
        &&& c.input_vars@.len() == 0
        &&& c.output_type is None
        &&& c.body == Some(first)
        &&& c.call_type == CallableType::Regular
    }

    /// An empty program.
    pub fn new() -> (p: Self)
        ensures
            p.well_formed(),
            p.entry == CallableId(0),
            p.callables@.len() == 0,
            p.blocks@.len() == 0,
            p.config.capabilities.bits == 0,
            p.num_qubits == 0,
            p.num_results == 0,
            p.tags@.len() == 0,
            p.array_literals@.len() == 0,
            !p.use_dynamic_qubit_management,
    {
        Program {
            entry: CallableId(0),
            callables: IndexMap::new(),
            blocks: IndexMap::new(),
            config: Config { capabilities: TargetCapabilityFlags::empty() },
            num_qubits: 0,
            num_results: 0,
            tags: Vec::new(),
            array_literals: Vec::new(),
            use_dynamic_qubit_management: false,
        }
    }

    /// A program with the given blocks and, when there is at least one block, an entry
    /// callable (id 0) whose body is the first block given.
    pub fn with_blocks(blocks: Vec<(BlockId, Block)>) -> (p: Self)
        ensures
            p.well_formed(),
            p.blocks@ == slots_from_pairs(blocks@),
            p.entry == CallableId(0),
            blocks@.len() == 0 ==> p.callables@.len() == 0,
            blocks@.len() > 0 ==> {
                &&& p.callables@.len() == 1
                &&& p.callables.has(0)
                &&& Self::is_entry_callable_for(p.callables.at(0), blocks@[0].0)
            },
            p.config.capabilities.bits == 0,
            p.num_qubits == 0,
            p.num_results == 0,
            p.tags@.len() == 0,
            p.array_literals@.len() == 0,
            !p.use_dynamic_qubit_management,
    {
        let mut program = Self::new();
        let mut entry_block_id: Option<BlockId> = None;
        let ghost pairs = blocks@;
        let mut rest = blocks;
        let ghost n = pairs.len();
        while rest.len() > 0
            invariant
                program.well_formed(),
                n == pairs.len(),
                rest@.len() <= n,
                rest@ =~= pairs.subrange(n - rest@.len(), n as int),
                program.blocks@ == slots_from_pairs(pairs.subrange(0, n - rest@.len())),
                entry_block_id is None <==> rest@.len() == n,
                entry_block_id is Some ==> entry_block_id == Some(pairs[0].0),
                program.entry == CallableId(0),
                program.callables@.len() == 0,
                program.config.capabilities.bits == 0,
                program.num_qubits == 0,
                program.num_results == 0,
                program.tags@.len() == 0,
                program.array_literals@.len() == 0,
                !program.use_dynamic_qubit_management,
            decreases rest@.len(),
        {
            let ghost done = n - rest@.len();
            let (id, block) = rest.remove(0);
            proof {
                assert(pairs[done] == (id, block));
                assert(pairs.subrange(0, done + 1).drop_last() =~= pairs.subrange(0, done));
                assert(rest@ =~= pairs.subrange(n - rest@.len(), n as int));
            }
            if entry_block_id.is_none() {
                entry_block_id = Some(id);
            }
            program.blocks.insert(id, block);
        }
        proof {
            assert(pairs.subrange(0, n as int) =~= pairs);
        }
        if let Some(entry_block_id) = entry_block_id {
            program.entry = CallableId(0);
            program.callables.insert(
                CallableId(0),
                Callable {
                    name: "entry".to_owned(),
                    input_type: Vec::new(),
                    input_vars: Vec::new(),
                    output_type: None,
                    body: Some(entry_block_id),
                    call_type: CallableType::Regular,
                },
            );
            proof {
                reveal_strlit("entry");
            }
        }
        program
    }

    /// The ids of all callables, in ascending order.
    pub fn all_callable_ids(&self) -> (r: Vec<CallableId>)
        requires
            self.well_formed(),
        ensures
            r@.map_values(|k: CallableId| k.key_nat()) == self.callables.key_seq(),
    {
        self.callables.keys()
    }

    /// The callable with the given id, which must be present.
    pub fn get_callable(&self, id: CallableId) -> (r: &Callable)
        requires
            self.callables.has(id.0 as nat),
        ensures
            *r == self.callables.at(id.0 as nat),
    {
        self.callables.get(id).unwrap()
    }

    /// The block with the given id, which must be present.
    pub fn get_block(&self, id: BlockId) -> (r: &Block)
        requires
            self.blocks.has(id.0 as nat),
        ensures
            *r == self.blocks.at(id.0 as nat),
    {
        self.blocks.get(id).unwrap()
    }

    /// A mutable reference to the block with the given id, which must be present.
    pub fn get_block_mut(&mut self, id: BlockId) -> (r: &mut Block)
        requires
            old(self).blocks.has(id.0 as nat),
        ensures
            *r == old(self).blocks.at(id.0 as nat),
            final(self).blocks@ == old(self).blocks@.update(id.0 as int, Some(*final(r))),
            final(self).callables == old(self).callables,
            final(self).entry == old(self).entry,
            final(self).config == old(self).config,
            final(self).num_qubits == old(self).num_qubits,
            final(self).num_results == old(self).num_results,
            final(self).tags == old(self).tags,
            final(self).array_literals == old(self).array_literals,
            final(self).use_dynamic_qubit_management == old(self).use_dynamic_qubit_management,
    {
        self.blocks.get_mut(id)
    }
}

/// The values that an instruction reads, left to right: the stored value, the call arguments,
/// the branch condition, the left then the right operand of a binary instruction, the single
/// operand of a unary one, the incoming values of a phi, and the returned value. A load reads
/// memory, not a value, and an allocation reads nothing.
pub open spec fn operands_read(i: Instruction) -> Seq<Operand> {
    match i {
        Instruction::Store(a, _) => seq![a],
        Instruction::Call(_, args, _, _) => args@,
        Instruction::Jump(_) => seq![],
        Instruction::Branch(c, _, _, _) => seq![Operand::Variable(c)],
        Instruction::Add(a, b, _) | Instruction::Sub(a, b, _) | Instruction::Mul(a, b, _)
        | Instruction::Sdiv(a, b, _) | Instruction::Srem(a, b, _) | Instruction::Shl(a, b, _)
        | Instruction::Ashr(a, b, _) | Instruction::Fadd(a, b, _) | Instruction::Fsub(a, b, _)
        | Instruction::Fmul(a, b, _) | Instruction::Fdiv(a, b, _) | Instruction::Frem(a, b, _)
        | Instruction::Fcmp(_, a, b, _) | Instruction::Icmp(_, a, b, _)
        | Instruction::LogicalAnd(a, b, _) | Instruction::LogicalOr(a, b, _)
        | Instruction::BitwiseAnd(a, b, _) | Instruction::BitwiseOr(a, b, _)
        | Instruction::BitwiseXor(a, b, _) | Instruction::Index(a, b, _) => seq![a, b],
        Instruction::LogicalNot(a, _) | Instruction::BitwiseNot(a, _) | Instruction::Convert(a, _) => seq![a],
        Instruction::Phi(args, _) => args@.map_values(|p: (Operand, BlockId)| p.0),
        Instruction::Load(..) | Instruction::Alloca(_) | Instruction::Return(None) => seq![],
        Instruction::Return(Some(a)) => seq![a],
    }
}

/// Whether `j` is the same operation as `i`, with the same target variable, condition code,
/// callee, jump targets, phi predecessors and metadata, and as many values read; only the
/// values read may differ.
pub open spec fn same_shape(i: Instruction, j: Instruction) -> bool {
    match i {
        Instruction::Store(_, v) => j matches Instruction::Store(_, w) && w == v,
        Instruction::Call(c, args, v, md) => j matches Instruction::Call(c2, args2, v2, md2) && c2 == c
            && args2@.len() == args@.len() && v2 == v && md2 == md,
        Instruction::Jump(t) => j == Instruction::Jump(t),
        Instruction::Branch(_, t, e, md) => j matches Instruction::Branch(_, t2, e2, md2) && t2 == t && e2 == e
            && md2 == md,
        Instruction::Add(_, _, v) => j matches Instruction::Add(_, _, w) && w == v,
        Instruction::Sub(_, _, v) => j matches Instruction::Sub(_, _, w) && w == v,
        Instruction::Mul(_, _, v) => j matches Instruction::Mul(_, _, w) && w == v,
        Instruction::Sdiv(_, _, v) => j matches Instruction::Sdiv(_, _, w) && w == v,
        Instruction::Srem(_, _, v) => j matches Instruction::Srem(_, _, w) && w == v,
        Instruction::Shl(_, _, v) => j matches Instruction::Shl(_, _, w) && w == v,
        Instruction::Ashr(_, _, v) => j matches Instruction::Ashr(_, _, w) && w == v,
        Instruction::Fadd(_, _, v) => j matches Instruction::Fadd(_, _, w) && w == v,
        Instruction::Fsub(_, _, v) => j matches Instruction::Fsub(_, _, w) && w == v,
        Instruction::Fmul(_, _, v) => j matches Instruction::Fmul(_, _, w) && w == v,
        Instruction::Fdiv(_, _, v) => j matches Instruction::Fdiv(_, _, w) && w == v,
        Instruction::Frem(_, _, v) => j matches Instruction::Frem(_, _, w) && w == v,
        Instruction::Fcmp(c, _, _, v) => j matches Instruction::Fcmp(c2, _, _, w) && c2 == c && w == v,
        Instruction::Icmp(c, _, _, v) => j matches Instruction::Icmp(c2, _, _, w) && c2 == c && w == v,
        Instruction::LogicalNot(_, v) => j matches Instruction::LogicalNot(_, w) && w == v,
        Instruction::LogicalAnd(_, _, v) => j matches Instruction::LogicalAnd(_, _, w) && w == v,
        Instruction::LogicalOr(_, _, v) => j matches Instruction::LogicalOr(_, _, w) && w == v,
        Instruction::BitwiseNot(_, v) => j matches Instruction::BitwiseNot(_, w) && w == v,
        Instruction::BitwiseAnd(_, _, v) => j matches Instruction::BitwiseAnd(_, _, w) && w == v,
        Instruction::BitwiseOr(_, _, v) => j matches Instruction::BitwiseOr(_, _, w) && w == v,
        Instruction::BitwiseXor(_, _, v) => j matches Instruction::BitwiseXor(_, _, w) && w == v,
        Instruction::Phi(args, v) => j matches Instruction::Phi(args2, w) && w == v
            && args2@.map_values(|p: (Operand, BlockId)| p.1) == args@.map_values(|p: (Operand, BlockId)| p.1),
        Instruction::Convert(_, v) => j matches Instruction::Convert(_, w) && w == v,
        Instruction::Load(a, v) => j == Instruction::Load(a, v),
        Instruction::Alloca(v) => j == Instruction::Alloca(v),
        Instruction::Index(_, _, v) => j matches Instruction::Index(_, _, w) && w == v,
        Instruction::Return(None) => j == Instruction::Return(None),
        Instruction::Return(Some(_)) => j matches Instruction::Return(Some(_)),
    }
}

} // verus!
