//! Explicit memory for stored variables: every stored variable gets an `Alloca` at the entry
//! of its callable, and every read of it a `Load` (reused within a block until the next store).
use crate::fx::OperandMap;
use crate::fx::NumberSet;
use crate::utils::{
    assigned_below, lemma_filter_take_push, next_variable_id, not_in, program_assigns, block_ok, block_successors, closed_from, copy_metadata, edge, get_block_successors,
    lemma_closed_set_holds_reachable, lemma_distinct_ids_bounded, lemma_reach_step, reach_n, reaches,
    terminator_successors, reach_set, lemma_below_bounded,
};
use crate::index_map::{slots_insert, IndexMap};
use crate::rir::{operands_read, same_shape, Block, BlockId, CallableId, Instruction, Operand, Program, Variable, VariableId};
use vstd::prelude::*;

verus! {

/// The state threaded through a block while loads are inserted: the instructions written so
/// far, the loaded value of each variable in this block, the variables that need memory, and
/// the next free variable number.
pub struct AllocaState {
    pub out: Seq<Instruction>,
    pub var_map: Map<u32, Operand>,
    pub allocas: Seq<Option<Variable>>,
    pub next: nat,
    /// The operands of each call written so far, by its position in `out`; the call in `out`
    /// itself still holds its operands from before the rewrite.
    pub call_args: Map<int, Seq<Operand>>,
}

/// Whether the instructions `out` are those the state describes, each call with the operands
/// the state records for it.
pub open spec fn out_matches(out: Seq<Instruction>, s: AllocaState) -> bool {
    &&& out.len() == s.out.len()
    &&& forall|k: int|
        0 <= k < out.len() ==> match s.out[k] {
            Instruction::Call(c, _, v, md) => match #[trigger] out[k] {
                Instruction::Call(c2, args2, v2, md2) => c2 == c && v2 == v && md2 == md
                    && s.call_args.contains_key(k) && args2@ == s.call_args[k],
                _ => false,
            },
            _ => out[k] == s.out[k],
        }
}

/// Whether `allocas` holds the variable numbered `id`.
pub open spec fn alloca_has(allocas: Seq<Option<Variable>>, id: u32) -> bool {
    (id as nat) < allocas.len() && allocas[id as int] is Some
}

/// The operands of an instruction with two operands.
pub open spec fn binary_operands(i: Instruction) -> Option<(Operand, Operand)> {
    match i {
        Instruction::Add(a, b, _) | Instruction::Sub(a, b, _) | Instruction::Mul(a, b, _)
        | Instruction::Sdiv(a, b, _) | Instruction::Srem(a, b, _) | Instruction::Shl(a, b, _)
        | Instruction::Ashr(a, b, _) | Instruction::Fadd(a, b, _) | Instruction::Fsub(a, b, _)
        | Instruction::Fmul(a, b, _) | Instruction::Fdiv(a, b, _) | Instruction::Frem(a, b, _)
        | Instruction::Fcmp(_, a, b, _) | Instruction::Icmp(_, a, b, _)
        | Instruction::LogicalAnd(a, b, _) | Instruction::LogicalOr(a, b, _)
        | Instruction::BitwiseAnd(a, b, _) | Instruction::BitwiseOr(a, b, _)
        | Instruction::BitwiseXor(a, b, _) => Some((a, b)),
        _ => None,
    }
}

/// An instruction with two operands, with its operands replaced.
pub open spec fn with_binary_operands(i: Instruction, a: Operand, b: Operand) -> Instruction {
    match i {
        Instruction::Add(_, _, v) => Instruction::Add(a, b, v),
        Instruction::Sub(_, _, v) => Instruction::Sub(a, b, v),
        Instruction::Mul(_, _, v) => Instruction::Mul(a, b, v),
        Instruction::Sdiv(_, _, v) => Instruction::Sdiv(a, b, v),
        Instruction::Srem(_, _, v) => Instruction::Srem(a, b, v),
        Instruction::Shl(_, _, v) => Instruction::Shl(a, b, v),
        Instruction::Ashr(_, _, v) => Instruction::Ashr(a, b, v),
        Instruction::Fadd(_, _, v) => Instruction::Fadd(a, b, v),
        Instruction::Fsub(_, _, v) => Instruction::Fsub(a, b, v),
        Instruction::Fmul(_, _, v) => Instruction::Fmul(a, b, v),
        Instruction::Fdiv(_, _, v) => Instruction::Fdiv(a, b, v),
        Instruction::Frem(_, _, v) => Instruction::Frem(a, b, v),
        Instruction::Fcmp(c, _, _, v) => Instruction::Fcmp(c, a, b, v),
        Instruction::Icmp(c, _, _, v) => Instruction::Icmp(c, a, b, v),
        Instruction::LogicalAnd(_, _, v) => Instruction::LogicalAnd(a, b, v),
        Instruction::LogicalOr(_, _, v) => Instruction::LogicalOr(a, b, v),
        Instruction::BitwiseAnd(_, _, v) => Instruction::BitwiseAnd(a, b, v),
        Instruction::BitwiseOr(_, _, v) => Instruction::BitwiseOr(a, b, v),
        Instruction::BitwiseXor(_, _, v) => Instruction::BitwiseXor(a, b, v),
        _ => i,
    }
}

/// The operand of an instruction with one operand.
pub open spec fn unary_operand(i: Instruction) -> Option<Operand> {
    match i {
        Instruction::BitwiseNot(a, _) | Instruction::LogicalNot(a, _) | Instruction::Convert(
            a,
            _,
        ) | Instruction::Return(Some(a)) => Some(a),
        _ => None,
    }
}

/// An instruction with one operand, with its operand replaced.
pub open spec fn with_unary_operand(i: Instruction, a: Operand) -> Instruction {
    match i {
        Instruction::BitwiseNot(_, v) => Instruction::BitwiseNot(a, v),
        Instruction::LogicalNot(_, v) => Instruction::LogicalNot(a, v),
        Instruction::Convert(_, v) => Instruction::Convert(a, v),
        Instruction::Return(Some(_)) => Instruction::Return(Some(a)),
        _ => i,
    }
}

/// Reads `v` from memory into a fresh variable, which becomes its value in this block.
pub open spec fn load_var(s: AllocaState, v: Variable) -> (AllocaState, Variable) {
    let fresh = Variable { variable_id: VariableId(s.next as u32), ty: v.ty };
    (
        AllocaState {
            out: s.out.push(Instruction::Load(v, fresh)),
            var_map: s.var_map.insert(v.variable_id.0, Operand::Variable(fresh)),
            allocas: s.allocas,
            next: s.next + 1,
            call_args: s.call_args,
        },
        fresh,
    )
}

/// The value of an operand in this block: the loaded value when there is one, else a load
/// when the variable lives in memory, else the operand itself.
pub open spec fn map_or_load_operand(s: AllocaState, op: Operand) -> (AllocaState, Operand) {
    match op {
        Operand::Literal(_) => (s, op),
        Operand::Variable(v) => if s.var_map.contains_key(v.variable_id.0) {
            (s, s.var_map[v.variable_id.0])
        } else if alloca_has(s.allocas, v.variable_id.0) {
            let (s2, fresh) = load_var(s, v);
            (s2, Operand::Variable(fresh))
        } else {
            (s, op)
        },
    }
}

/// The values of a list of operands, taken left to right.
pub open spec fn map_or_load_operands(s: AllocaState, args: Seq<Operand>) -> (AllocaState, Seq<Operand>)
    decreases args.len(),
{
    if args.len() == 0 {
        (s, Seq::empty())
    } else {
        let (s1, pre) = map_or_load_operands(s, args.drop_last());
        let (s2, o) = map_or_load_operand(s1, args.last());
        (s2, pre.push(o))
    }
}

/// The value of a variable used as a branch condition.
pub open spec fn map_or_load_variable(s: AllocaState, v: Variable) -> (AllocaState, Variable) {
    if s.var_map.contains_key(v.variable_id.0) {
        (s, s.var_map[v.variable_id.0]->Variable_0)
    } else if alloca_has(s.allocas, v.variable_id.0) {
        load_var(s, v)
    } else {
        (s, v)
    }
}

/// The state after one more instruction of the block.
pub open spec fn alloca_step(s: AllocaState, i: Instruction) -> AllocaState {
    match i {
        Instruction::Store(op, var) => {
            let s1 = AllocaState {
                allocas: slots_insert(s.allocas, var.variable_id.0 as nat, var),
                ..s
            };
            let (s2, o) = map_or_load_operand(s1, op);
            AllocaState {
                out: s2.out.push(Instruction::Store(o, var)),
                var_map: s2.var_map.remove(var.variable_id.0),
                allocas: s2.allocas,
                next: s2.next + 1,
                call_args: s2.call_args,
            }
        },
        Instruction::Call(c, args, v, md) => {
            let (s2, new_args) = map_or_load_operands(s, args@);
            AllocaState {
                out: s2.out.push(i),
                call_args: s2.call_args.insert(s2.out.len() as int, new_args),
                ..s2
            }
        },
        Instruction::Branch(c, t, e, md) => {
            let (s2, c2) = map_or_load_variable(s, c);
            AllocaState { out: s2.out.push(Instruction::Branch(c2, t, e, md)), ..s2 }
        },
        Instruction::Index(arr, op, var) => {
            let (s2, o) = map_or_load_operand(s, op);
            let s3 = AllocaState { out: s2.out.push(Instruction::Index(arr, o, var)), ..s2 };
            load_var(s3, var).0
        },
        _ => if binary_operands(i) is Some {
            let (a, b) = binary_operands(i)->0;
            let (s1, a2) = map_or_load_operand(s, a);
            let (s2, b2) = map_or_load_operand(s1, b);
            AllocaState { out: s2.out.push(with_binary_operands(i, a2, b2)), ..s2 }
        } else if unary_operand(i) is Some {
            let (s1, a2) = map_or_load_operand(s, unary_operand(i)->0);
            AllocaState { out: s1.out.push(with_unary_operand(i, a2)), ..s1 }
        } else {
            AllocaState { out: s.out.push(i), ..s }
        },
    }
}

/// The state after the instructions `instrs`, from `s0`.
pub open spec fn alloca_fold(s0: AllocaState, instrs: Seq<Instruction>) -> AllocaState
    decreases instrs.len(),
{
    if instrs.len() == 0 {
        s0
    } else {
        alloca_step(alloca_fold(s0, instrs.drop_last()), instrs.last())
    }
}

/// Whether the written instructions, the loaded values and the next free variable are those
/// that the state `s` describes.
pub open spec fn exec_matches(out: Seq<Instruction>, var_map: Map<u32, Operand>, next: VariableId, s: AllocaState) -> bool {
    &&& out_matches(out, s)
    &&& var_map == s.var_map
    &&& next.0 as nat == s.next
}

/// Whether every loaded value is a variable.
pub open spec fn vars_only(m: Map<u32, Operand>) -> bool {
    forall|k: u32| #[trigger] m.contains_key(k) ==> m[k] is Variable
}

/// How many fresh variables one instruction may use up.
pub open spec fn alloca_budget(i: Instruction) -> nat {
    match i {
        Instruction::Store(..) => 2,
        Instruction::Call(_, args, _, _) => args@.len(),
        Instruction::Branch(..) => 1,
        Instruction::Index(..) => 2,
        _ => if binary_operands(i) is Some {
            2
        } else if unary_operand(i) is Some {
            1
        } else {
            0
        },
    }
}

/// How many fresh variables a sequence of instructions may use up.
pub open spec fn alloca_budget_seq(s: Seq<Instruction>) -> nat
    decreases s.len(),
{
    if s.len() == 0 {
        0
    } else {
        alloca_budget_seq(s.drop_last()) + alloca_budget(s.last())
    }
}

/// How many fresh variables the instruction may use up.
fn instruction_budget(i: &Instruction) -> (r: usize)
    ensures
        r == alloca_budget(*i),
{
    match i {
        Instruction::Store(..) => 2,
        Instruction::Call(_, args, _, _) => args.len(),
        Instruction::Branch(..) => 1,
        Instruction::Index(..) => 2,
        Instruction::Add(..) | Instruction::Sub(..) | Instruction::Mul(..) | Instruction::Sdiv(..)
        | Instruction::Srem(..) | Instruction::Shl(..) | Instruction::Ashr(..) | Instruction::Fadd(..)
        | Instruction::Fsub(..) | Instruction::Fmul(..) | Instruction::Fdiv(..) | Instruction::Frem(..)
        | Instruction::Fcmp(..) | Instruction::Icmp(..) | Instruction::LogicalAnd(..)
        | Instruction::LogicalOr(..) | Instruction::BitwiseAnd(..) | Instruction::BitwiseOr(..)
        | Instruction::BitwiseXor(..) => 2,
        Instruction::BitwiseNot(..) | Instruction::LogicalNot(..) | Instruction::Convert(..)
        | Instruction::Return(Some(_)) => 1,
        _ => 0,
    }
}

/// How many fresh variables the pass may use up on the block, or `u64::MAX` when that does
/// not fit in 64 bits.
pub fn block_budget(block: &Block) -> (r: u64)
    ensures
        alloca_budget_seq(block.0@) <= u64::MAX ==> r as nat == alloca_budget_seq(block.0@),
        alloca_budget_seq(block.0@) > u64::MAX ==> r == u64::MAX,
{
    let mut total: u64 = 0;
    for j in 0..block.0.len()
        invariant
            total as nat == alloca_budget_seq(block.0@.take(j as int)),
    {
        proof {
            assert(block.0@.take(j + 1).drop_last() =~= block.0@.take(j as int));
            assert(block.0@.take(j + 1).last() == block.0@[j as int]);
            lemma_budget_prefix(block.0@, (j + 1) as int);
        }
        let b: u64 = instruction_budget(&block.0[j]) as u64;
        if b > u64::MAX - total {
            return u64::MAX;
        }
        total = total + b;
    }
    proof {
        assert(block.0@.take(block.0@.len() as int) =~= block.0@);
    }
    total
}

/// Whether the instruction is one that this pass does not expect to meet.
pub open spec fn is_memory_instruction(i: Instruction) -> bool {
    i is Alloca || i is Load
}

proof fn lemma_push_matches(out: Seq<Instruction>, s: AllocaState, i: Instruction)
    requires
        out_matches(out, s),
        !(i is Call),
    ensures
        out_matches(out.push(i), AllocaState { out: s.out.push(i), ..s }),
{
    let s2 = AllocaState { out: s.out.push(i), ..s };
    assert forall|k: int| 0 <= k < out.push(i).len() implies match s2.out[k] {
        Instruction::Call(c, _, v, md) => match #[trigger] out.push(i)[k] {
            Instruction::Call(c2, args2, v2, md2) => c2 == c && v2 == v && md2 == md
                && s2.call_args.contains_key(k) && args2@ == s2.call_args[k],
            _ => false,
        },
        _ => out.push(i)[k] == s2.out[k],
    } by {
        if k < out.len() {
            assert(out.push(i)[k] == out[k]);
            assert(s2.out[k] == s.out[k]);
        }
    }
}

fn load_from_variable(
    variable: &Variable,
    var_map: &mut OperandMap,
    instrs: &mut Vec<Instruction>,
    next_var_id: &mut VariableId,
    Ghost(s): Ghost<AllocaState>,
) -> (r: Operand)
    requires
        exec_matches(old(instrs)@, old(var_map).contents(), *old(next_var_id), s),
        vars_only(old(var_map).contents()),
        old(next_var_id).0 < u32::MAX,
    ensures
        exec_matches(final(instrs)@, final(var_map).contents(), *final(next_var_id), load_var(s, *variable).0),
        vars_only(final(var_map).contents()),
        r == Operand::Variable(load_var(s, *variable).1),
{
    let new_var = Variable { variable_id: *next_var_id, ty: variable.ty };
    let ghost before = instrs@;
    instrs.push(Instruction::Load(*variable, new_var));
    proof {
        lemma_push_matches(before, s, Instruction::Load(*variable, new_var));
    }
    var_map.insert(variable.variable_id.0, Operand::Variable(new_var));
    *next_var_id = next_var_id.successor();
    Operand::Variable(new_var)
}

fn map_or_load_variable_to_operand(
    variable: Variable,
    var_map: &mut OperandMap,
    instrs: &mut Vec<Instruction>,
    next_var_id: &mut VariableId,
    should_load: bool,
    Ghost(s): Ghost<AllocaState>,
) -> (r: Operand)
    requires
        exec_matches(old(instrs)@, old(var_map).contents(), *old(next_var_id), s),
        vars_only(old(var_map).contents()),
        old(next_var_id).0 < u32::MAX,
        should_load == alloca_has(s.allocas, variable.variable_id.0),
    ensures
        exec_matches(
            final(instrs)@,
            final(var_map).contents(),
            *final(next_var_id),
            map_or_load_operand(s, Operand::Variable(variable)).0,
        ),
        vars_only(final(var_map).contents()),
        r == map_or_load_operand(s, Operand::Variable(variable)).1,
        map_or_load_operand(s, Operand::Variable(variable)).0.next <= s.next + 1,
{
    if let Some(operand) = var_map.get(variable.variable_id.0) {
        operand
    } else if should_load {
        load_from_variable(&variable, var_map, instrs, next_var_id, Ghost(s))
    } else {
        Operand::Variable(variable)
    }
}

fn map_or_load_operand_exec(
    operand: &Operand,
    var_map: &mut OperandMap,
    instrs: &mut Vec<Instruction>,
    next_var_id: &mut VariableId,
    should_load: bool,
    Ghost(s): Ghost<AllocaState>,
) -> (r: Operand)
    requires
        exec_matches(old(instrs)@, old(var_map).contents(), *old(next_var_id), s),
        vars_only(old(var_map).contents()),
        old(next_var_id).0 < u32::MAX,
        should_load == match *operand {
            Operand::Literal(_) => false,
            Operand::Variable(v) => alloca_has(s.allocas, v.variable_id.0),
        },
    ensures
        exec_matches(
            final(instrs)@,
            final(var_map).contents(),
            *final(next_var_id),
            map_or_load_operand(s, *operand).0,
        ),
        vars_only(final(var_map).contents()),
        r == map_or_load_operand(s, *operand).1,
        map_or_load_operand(s, *operand).0.next <= s.next + 1,
        map_or_load_operand(s, *operand).0.allocas == s.allocas,
{
    match operand {
        Operand::Literal(_) => *operand,
        Operand::Variable(var) => map_or_load_variable_to_operand(
            *var,
            var_map,
            instrs,
            next_var_id,
            should_load,
            Ghost(s),
        ),
    }
}

fn map_or_load_variable_exec(
    variable: Variable,
    var_map: &mut OperandMap,
    instrs: &mut Vec<Instruction>,
    next_var_id: &mut VariableId,
    should_load: bool,
    Ghost(s): Ghost<AllocaState>,
) -> (r: Variable)
    requires
        exec_matches(old(instrs)@, old(var_map).contents(), *old(next_var_id), s),
        vars_only(old(var_map).contents()),
        old(next_var_id).0 < u32::MAX,
        should_load == alloca_has(s.allocas, variable.variable_id.0),
    ensures
        exec_matches(
            final(instrs)@,
            final(var_map).contents(),
            *final(next_var_id),
            map_or_load_variable(s, variable).0,
        ),
        vars_only(final(var_map).contents()),
        r == map_or_load_variable(s, variable).1,
        map_or_load_variable(s, variable).0.next <= s.next + 1,
{
    match var_map.get(variable.variable_id.0) {
        Some(Operand::Variable(var)) => var,
        Some(Operand::Literal(_)) => {
            proof {
                assert(s.var_map.contains_key(variable.variable_id.0));
            }
            vstd::pervasive::unreached()
        },
        None => {
            if should_load {
                let r = load_from_variable(&variable, var_map, instrs, next_var_id, Ghost(s));
                match r {
                    Operand::Variable(v) => v,
                    Operand::Literal(_) => vstd::pervasive::unreached(),
                }
            } else {
                variable
            }
        },
    }
}

fn should_load_operand(operand: &Operand, vars_to_alloca: &IndexMap<VariableId, Variable>) -> (r: bool)
    ensures
        r == match *operand {
            Operand::Literal(_) => false,
            Operand::Variable(v) => alloca_has(vars_to_alloca@, v.variable_id.0),
        },
{
    match operand {
        Operand::Literal(_) => false,
        Operand::Variable(var) => vars_to_alloca.contains_key(var.variable_id),
    }
}

proof fn lemma_operands_preserve(s: AllocaState, args: Seq<Operand>)
    ensures
        map_or_load_operands(s, args).0.allocas == s.allocas,
        map_or_load_operands(s, args).0.call_args == s.call_args,
        map_or_load_operands(s, args).1.len() == args.len(),
        map_or_load_operands(s, args).0.next <= s.next + args.len(),
        map_or_load_operands(s, args).0.next >= s.next,
        map_or_load_operands(s, args).0.out.len() >= s.out.len(),
    decreases args.len(),
{
    if args.len() > 0 {
        lemma_operands_preserve(s, args.drop_last());
    }
}

fn map_or_load_call_args(
    args: &Vec<Operand>,
    var_map: &mut OperandMap,
    instrs: &mut Vec<Instruction>,
    next_var_id: &mut VariableId,
    vars_to_alloca: &IndexMap<VariableId, Variable>,
    Ghost(s): Ghost<AllocaState>,
) -> (r: Vec<Operand>)
    requires
        exec_matches(old(instrs)@, old(var_map).contents(), *old(next_var_id), s),
        vars_only(old(var_map).contents()),
        s.next + args@.len() <= u32::MAX,
        s.allocas == vars_to_alloca@,
    ensures
        exec_matches(
            final(instrs)@,
            final(var_map).contents(),
            *final(next_var_id),
            map_or_load_operands(s, args@).0,
        ),
        vars_only(final(var_map).contents()),
        r@ == map_or_load_operands(s, args@).1,
{
    let mut r: Vec<Operand> = Vec::new();
    for i in 0..args.len()
        invariant
            exec_matches(
                instrs@,
                var_map.contents(),
                *next_var_id,
                map_or_load_operands(s, args@.take(i as int)).0,
            ),
            vars_only(var_map.contents()),
            r@ == map_or_load_operands(s, args@.take(i as int)).1,
            s.next + args@.len() <= u32::MAX,
            s.allocas == vars_to_alloca@,
    {
        let ghost cur = map_or_load_operands(s, args@.take(i as int)).0;
        proof {
            assert(args@.take(i + 1).drop_last() =~= args@.take(i as int));
            assert(args@.take(i + 1).last() == args@[i as int]);
            lemma_operands_preserve(s, args@.take(i as int));
        }
        let arg = &args[i];
        let should_load = should_load_operand(arg, vars_to_alloca);
        let o = map_or_load_operand_exec(arg, var_map, instrs, next_var_id, should_load, Ghost(cur));
        r.push(o);
    }
    proof {
        assert(args@.take(args@.len() as int) =~= args@);
    }
    r
}

fn binary_operands_of(i: &Instruction) -> (r: Option<(Operand, Operand)>)
    ensures
        r == binary_operands(*i),
{
    match i {
        Instruction::Add(a, b, _) | Instruction::Sub(a, b, _) | Instruction::Mul(a, b, _)
        | Instruction::Sdiv(a, b, _) | Instruction::Srem(a, b, _) | Instruction::Shl(a, b, _)
        | Instruction::Ashr(a, b, _) | Instruction::Fadd(a, b, _) | Instruction::Fsub(a, b, _)
        | Instruction::Fmul(a, b, _) | Instruction::Fdiv(a, b, _) | Instruction::Frem(a, b, _)
        | Instruction::Fcmp(_, a, b, _) | Instruction::Icmp(_, a, b, _)
        | Instruction::LogicalAnd(a, b, _) | Instruction::LogicalOr(a, b, _)
        | Instruction::BitwiseAnd(a, b, _) | Instruction::BitwiseOr(a, b, _)
        | Instruction::BitwiseXor(a, b, _) => Some((*a, *b)),
        _ => None,
    }
}

fn rebuild_binary(i: &Instruction, a: Operand, b: Operand) -> (r: Instruction)
    requires
        binary_operands(*i) is Some,
    ensures
        r == with_binary_operands(*i, a, b),
{
    match i {
        Instruction::Add(_, _, v) => Instruction::Add(a, b, *v),
        Instruction::Sub(_, _, v) => Instruction::Sub(a, b, *v),
        Instruction::Mul(_, _, v) => Instruction::Mul(a, b, *v),
        Instruction::Sdiv(_, _, v) => Instruction::Sdiv(a, b, *v),
        Instruction::Srem(_, _, v) => Instruction::Srem(a, b, *v),
        Instruction::Shl(_, _, v) => Instruction::Shl(a, b, *v),
        Instruction::Ashr(_, _, v) => Instruction::Ashr(a, b, *v),
        Instruction::Fadd(_, _, v) => Instruction::Fadd(a, b, *v),
        Instruction::Fsub(_, _, v) => Instruction::Fsub(a, b, *v),
        Instruction::Fmul(_, _, v) => Instruction::Fmul(a, b, *v),
        Instruction::Fdiv(_, _, v) => Instruction::Fdiv(a, b, *v),
        Instruction::Frem(_, _, v) => Instruction::Frem(a, b, *v),
        Instruction::Fcmp(c, _, _, v) => Instruction::Fcmp(*c, a, b, *v),
        Instruction::Icmp(c, _, _, v) => Instruction::Icmp(*c, a, b, *v),
        Instruction::LogicalAnd(_, _, v) => Instruction::LogicalAnd(a, b, *v),
        Instruction::LogicalOr(_, _, v) => Instruction::LogicalOr(a, b, *v),
        Instruction::BitwiseAnd(_, _, v) => Instruction::BitwiseAnd(a, b, *v),
        Instruction::BitwiseOr(_, _, v) => Instruction::BitwiseOr(a, b, *v),
        Instruction::BitwiseXor(_, _, v) => Instruction::BitwiseXor(a, b, *v),
        _ => vstd::pervasive::unreached(),
    }
}

fn unary_operand_of(i: &Instruction) -> (r: Option<Operand>)
    ensures
        r == unary_operand(*i),
{
    match i {
        Instruction::BitwiseNot(a, _) | Instruction::LogicalNot(a, _) | Instruction::Convert(
            a,
            _,
        ) | Instruction::Return(Some(a)) => Some(*a),
        _ => None,
    }
}

fn rebuild_unary(i: &Instruction, a: Operand) -> (r: Instruction)
    requires
        unary_operand(*i) is Some,
    ensures
        r == with_unary_operand(*i, a),
{
    match i {
        Instruction::BitwiseNot(_, v) => Instruction::BitwiseNot(a, *v),
        Instruction::LogicalNot(_, v) => Instruction::LogicalNot(a, *v),
        Instruction::Convert(_, v) => Instruction::Convert(a, *v),
        Instruction::Return(Some(_)) => Instruction::Return(Some(a)),
        _ => vstd::pervasive::unreached(),
    }
}

fn is_passthrough(i: &Instruction) -> (r: bool)
    ensures
        r == (i is Phi || i is Jump || *i == Instruction::Return(None)),
{
    match i {
        Instruction::Phi(..) | Instruction::Jump(..) | Instruction::Return(None) => true,
        _ => false,
    }
}

proof fn lemma_budget_prefix(s: Seq<Instruction>, i: int)
    requires
        0 <= i <= s.len(),
    ensures
        alloca_budget_seq(s.take(i)) <= alloca_budget_seq(s),
    decreases s.len(),
{
    if i < s.len() {
        assert(s.drop_last().take(i) =~= s.take(i));
        lemma_budget_prefix(s.drop_last(), i);
    } else {
        assert(s.take(i) =~= s);
    }
}

proof fn lemma_push_call_matches(out: Seq<Instruction>, s: AllocaState, i: Instruction, j: Instruction, args: Seq<Operand>)
    requires
        out_matches(out, s),
        i matches Instruction::Call(c, _, v, md) && j matches Instruction::Call(c2, args2, v2, md2)
            && c2 == c && v2 == v && md2 == md && args2@ == args,
    ensures
        out_matches(
            out.push(j),
            AllocaState { out: s.out.push(i), call_args: s.call_args.insert(s.out.len() as int, args), ..s },
        ),
{
    let s2 = AllocaState { out: s.out.push(i), call_args: s.call_args.insert(s.out.len() as int, args), ..s };
    assert forall|k: int| 0 <= k < out.push(j).len() implies match s2.out[k] {
        Instruction::Call(c, _, v, md) => match #[trigger] out.push(j)[k] {
            Instruction::Call(c2, args2, v2, md2) => c2 == c && v2 == v && md2 == md
                && s2.call_args.contains_key(k) && args2@ == s2.call_args[k],
            _ => false,
        },
        _ => out.push(j)[k] == s2.out[k],
    } by {
        if k < out.len() {
            assert(out.push(j)[k] == out[k]);
            assert(s2.out[k] == s.out[k]);
        }
    }
}

/// The state at the start of a block: nothing written or loaded yet.
pub open spec fn block_start(allocas: Seq<Option<Variable>>, next: nat) -> AllocaState {
    AllocaState {
        out: Seq::empty(),
        var_map: Map::empty(),
        allocas,
        next,
        call_args: Map::empty(),
    }
}

proof fn lemma_step_next(s: AllocaState, i: Instruction)
    ensures
        alloca_step(s, i).next <= s.next + alloca_budget(i),
        alloca_step(s, i).allocas == (match i {
            Instruction::Store(_, var) => slots_insert(s.allocas, var.variable_id.0 as nat, var),
            _ => s.allocas,
        }),
{
    match i {
        Instruction::Call(c, args, v, md) => {
            lemma_operands_preserve(s, args@);
        },
        _ => {},
    }
}

/// Rewrites one block: every stored variable is recorded in `vars_to_alloca`, and every read
/// of a variable held in memory gets a load, reused within the block until the next store.
pub fn add_alloca_load_to_block(
    program: &mut Program,
    block_id: BlockId,
    vars_to_alloca: &mut IndexMap<VariableId, Variable>,
    next_var_id: &mut VariableId,
)
    requires
        old(program).well_formed(),
        old(vars_to_alloca).well_formed(),
        old(program).blocks.has(block_id.0 as nat),
        forall|j: int|
            0 <= j < old(program).blocks.at(block_id.0 as nat).0@.len() ==> !is_memory_instruction(
                #[trigger] old(program).blocks.at(block_id.0 as nat).0@[j],
            ),
        old(next_var_id).0 + alloca_budget_seq(old(program).blocks.at(block_id.0 as nat).0@) <= u32::MAX,
    ensures
        ({
            let sf = alloca_fold(
                block_start(old(vars_to_alloca)@, old(next_var_id).0 as nat),
                old(program).blocks.at(block_id.0 as nat).0@,
            );
            &&& final(program).blocks.has(block_id.0 as nat)
            &&& out_matches(final(program).blocks.at(block_id.0 as nat).0@, sf)
            &&& final(vars_to_alloca)@ == sf.allocas
            &&& final(next_var_id).0 as nat == sf.next
        }),
        final(vars_to_alloca).well_formed(),
        final(program).well_formed(),
        final(program).blocks@.len() == old(program).blocks@.len(),
        forall|k: int| 0 <= k < old(program).blocks@.len() && k != block_id.0 ==> final(program).blocks@[k] == old(program).blocks@[k],
        same_except_blocks(old(program), final(program)),
{
    let ghost old_blocks = program.blocks@;
    let mut block = program.blocks.remove(block_id).unwrap();
    let mut instrs: Vec<Instruction> = Vec::new();
    std::mem::swap(&mut instrs, &mut block.0);
    let ghost s0 = block_start(vars_to_alloca@, next_var_id.0 as nat);
    let ghost all = instrs@;
    let mut var_map = OperandMap::new();
    proof {
        assert(block.0@ =~= Seq::<Instruction>::empty());
        assert(all.take(0) =~= Seq::<Instruction>::empty());
    }
    let n = instrs.len();
    for i in 0..n
        invariant
            n == all.len(),
            all.len() == instrs@.len(),
            forall|j: int| i <= j < all.len() ==> instrs@[j] == all[j],
            forall|j: int| 0 <= j < all.len() ==> !is_memory_instruction(#[trigger] all[j]),
            s0.next + alloca_budget_seq(all) <= u32::MAX,
            exec_matches(block.0@, var_map.contents(), *next_var_id, alloca_fold(s0, all.take(i as int))),
            vars_only(var_map.contents()),
            vars_to_alloca@ == alloca_fold(s0, all.take(i as int)).allocas,
            vars_to_alloca.well_formed(),
            alloca_fold(s0, all.take(i as int)).next <= s0.next + alloca_budget_seq(all.take(i as int)),
    {
        let ghost cur = alloca_fold(s0, all.take(i as int));
        proof {
            assert(all.take(i + 1).drop_last() =~= all.take(i as int));
            assert(all.take(i + 1).last() == all[i as int]);
            lemma_budget_prefix(all, i + 1);
            lemma_step_next(cur, all[i as int]);
            assert(!is_memory_instruction(all[i as int]));
        }
        let mut taken = Instruction::Return(None);
        std::mem::swap(&mut taken, &mut instrs[i]);
        proof {
            assert(taken == all[i as int]);
        }
        if is_passthrough(&taken) {
            let ghost before = block.0@;
            proof {
                lemma_push_matches(before, cur, taken);
            }
            block.0.push(taken);
        } else {
        let instr = &taken;
        match instr {
            Instruction::Store(operand, var) => {
                vars_to_alloca.insert(var.variable_id, *var);
                let ghost s1 = AllocaState {
                    allocas: slots_insert(cur.allocas, var.variable_id.0 as nat, *var),
                    ..cur
                };
                let should_load = should_load_operand(operand, vars_to_alloca);
                let new_operand = map_or_load_operand_exec(
                    operand,
                    &mut var_map,
                    &mut block.0,
                    next_var_id,
                    should_load,
                    Ghost(s1),
                );
                let ghost s2 = map_or_load_operand(s1, *operand).0;
                let ghost before = block.0@;
                block.0.push(Instruction::Store(new_operand, *var));
                proof {
                    lemma_push_matches(before, s2, Instruction::Store(new_operand, *var));
                }
                var_map.remove(var.variable_id.0);
                *next_var_id = next_var_id.successor();
            },
            Instruction::Call(c, args, v, md) => {
                let new_args = map_or_load_call_args(
                    args,
                    &mut var_map,
                    &mut block.0,
                    next_var_id,
                    vars_to_alloca,
                    Ghost(cur),
                );
                let ghost s2 = map_or_load_operands(cur, args@).0;
                let ghost before = block.0@;
                let new_call = Instruction::Call(*c, new_args, *v, copy_metadata(md));
                proof {
                    lemma_push_call_matches(before, s2, *instr, new_call, new_args@);
                }
                block.0.push(new_call);
            },
            Instruction::Branch(var, t, e, md) => {
                let should_load = vars_to_alloca.contains_key(var.variable_id);
                let new_var = map_or_load_variable_exec(
                    *var,
                    &mut var_map,
                    &mut block.0,
                    next_var_id,
                    should_load,
                    Ghost(cur),
                );
                let ghost s2 = map_or_load_variable(cur, *var).0;
                let ghost before = block.0@;
                let new_branch = Instruction::Branch(new_var, *t, *e, copy_metadata(md));
                proof {
                    lemma_push_matches(before, s2, new_branch);
                }
                block.0.push(new_branch);
            },
            Instruction::Index(array, operand, variable) => {
                let should_load = should_load_operand(operand, vars_to_alloca);
                let new_operand = map_or_load_operand_exec(
                    operand,
                    &mut var_map,
                    &mut block.0,
                    next_var_id,
                    should_load,
                    Ghost(cur),
                );
                let ghost s2 = map_or_load_operand(cur, *operand).0;
                let ghost before = block.0@;
                block.0.push(Instruction::Index(*array, new_operand, *variable));
                proof {
                    lemma_push_matches(before, s2, Instruction::Index(*array, new_operand, *variable));
                }
                let ghost s3 = AllocaState {
                    out: s2.out.push(Instruction::Index(*array, new_operand, *variable)),
                    ..s2
                };
                load_from_variable(variable, &mut var_map, &mut block.0, next_var_id, Ghost(s3));
            },
            _ => {
                let bin = binary_operands_of(instr);
                if let Some((a, b)) = bin {
                    let sa = should_load_operand(&a, vars_to_alloca);
                    let a2 = map_or_load_operand_exec(
                        &a,
                        &mut var_map,
                        &mut block.0,
                        next_var_id,
                        sa,
                        Ghost(cur),
                    );
                    let ghost s1 = map_or_load_operand(cur, a).0;
                    let sb = should_load_operand(&b, vars_to_alloca);
                    let b2 = map_or_load_operand_exec(
                        &b,
                        &mut var_map,
                        &mut block.0,
                        next_var_id,
                        sb,
                        Ghost(s1),
                    );
                    let ghost s2 = map_or_load_operand(s1, b).0;
                    let ghost before = block.0@;
                    let rebuilt = rebuild_binary(instr, a2, b2);
                    proof {
                        lemma_push_matches(before, s2, rebuilt);
                    }
                    block.0.push(rebuilt);
                } else {
                    let un = unary_operand_of(instr);
                    if let Some(a) = un {
                        let sa = should_load_operand(&a, vars_to_alloca);
                        let a2 = map_or_load_operand_exec(
                            &a,
                            &mut var_map,
                            &mut block.0,
                            next_var_id,
                            sa,
                            Ghost(cur),
                        );
                        let ghost s1 = map_or_load_operand(cur, a).0;
                        let ghost before = block.0@;
                        let rebuilt = rebuild_unary(instr, a2);
                        proof {
                            lemma_push_matches(before, s1, rebuilt);
                        }
                        block.0.push(rebuilt);
                    } else {
                        proof {
                            assert(false);
                        }
                    }
                }
            },
        }
        }
    }
    proof {
        assert(all.take(all.len() as int) =~= all);
    }
    program.blocks.insert(block_id, block);
    proof {
        assert(program.blocks@ =~= old_blocks.update(block_id.0 as int, Some(block)));
    }
}

proof fn lemma_step_last(s: AllocaState, i: Instruction)
    ensures
        alloca_step(s, i).out.len() > 0,
        terminator_successors(alloca_step(s, i).out.last()) == terminator_successors(i),
        alloca_step(s, i).out.last() is Call ==> i is Call,
{
    match i {
        Instruction::Call(c, args, v, md) => {
            lemma_operands_preserve(s, args@);
        },
        _ => {},
    }
}

proof fn lemma_fold_successors(s0: AllocaState, instrs: Seq<Instruction>, out: Seq<Instruction>)
    requires
        instrs.len() > 0,
        out_matches(out, alloca_fold(s0, instrs)),
    ensures
        out.len() > 0,
        terminator_successors(out.last()) == terminator_successors(instrs.last()),
{
    let sf = alloca_fold(s0, instrs);
    lemma_step_last(alloca_fold(s0, instrs.drop_last()), instrs.last());
    let k = out.len() - 1;
    assert(out[k] == out.last());
    match sf.out[k] {
        Instruction::Call(..) => {
            assert(out[k] is Call);
        },
        _ => {
            assert(out[k] == sf.out[k]);
        },
    }
}

/// The fields other than the blocks are the same in both programs.
pub open spec fn same_except_blocks(p: &Program, q: &Program) -> bool {
    &&& q.entry == p.entry
    &&& q.callables == p.callables
    &&& q.config == p.config
    &&& q.num_qubits == p.num_qubits
    &&& q.num_results == p.num_results
    &&& q.tags == p.tags
    &&& q.array_literals == p.array_literals
    &&& q.use_dynamic_qubit_management == p.use_dynamic_qubit_management
}

/// The states after each block of `order` is rewritten in turn, the first from an empty
/// record of variables in memory and the variable number `n0`, each later one from where
/// the one before it ended.
pub open spec fn visit_states(p: &Program, order: Seq<BlockId>, n0: nat) -> Seq<AllocaState>
    decreases order.len(),
{
    if order.len() == 0 {
        Seq::empty()
    } else {
        let prev = visit_states(p, order.drop_last(), n0);
        let start = if prev.len() == 0 {
            block_start(Seq::empty(), n0)
        } else {
            block_start(prev.last().allocas, prev.last().next)
        };
        prev.push(alloca_fold(start, p.blocks.at(order.last().0 as nat).0@))
    }
}

/// One `Alloca` for each variable in `allocas`, in ascending order of number.
pub open spec fn allocas_prefix(allocas: Seq<Option<Variable>>) -> Seq<Instruction>
    decreases allocas.len(),
{
    if allocas.len() == 0 {
        Seq::empty()
    } else {
        allocas_prefix(allocas.drop_last()) + match allocas.last() {
            Some(v) => seq![Instruction::Alloca(v)],
            None => Seq::empty(),
        }
    }
}

/// Whether `order` lists each block reachable from `entry` once, starting with `entry`.
pub open spec fn visit_order_ok(p: &Program, entry: BlockId, order: Seq<BlockId>) -> bool {
    &&& order.no_duplicates()
    &&& order.len() > 0
    &&& order[0] == entry
    &&& forall|b: BlockId| #[trigger] order.contains(b) <==> reaches(p, entry, b)
}

/// One step of a depth-first walk over (visited blocks in order, stack): the top of the stack
/// is popped and, unless it was visited already, visited, and those of its successors not
/// yet visited are pushed in order, the last one on top.
pub open spec fn dfs_step(p: &Program, st: (Seq<BlockId>, Seq<BlockId>)) -> (Seq<BlockId>, Seq<BlockId>) {
    let order = st.0;
    let stack = st.1;
    if stack.len() == 0 {
        st
    } else {
        let b = stack.last();
        let rest = stack.drop_last();
        if order.contains(b) {
            (order, rest)
        } else {
            let visited = order.push(b);
            (visited, rest + block_successors(p.blocks.at(b.0 as nat)).filter(not_in(visited)))
        }
    }
}

/// The depth-first walk after `n` steps from a stack holding `entry` alone.
pub open spec fn dfs_walk(p: &Program, entry: BlockId, n: nat) -> (Seq<BlockId>, Seq<BlockId>)
    decreases n,
{
    if n == 0 {
        (Seq::empty(), seq![entry])
    } else {
        dfs_step(p, dfs_walk(p, entry, (n - 1) as nat))
    }
}

/// Whether `order` is the order in which the depth-first walk from `entry` visits blocks,
/// once its stack is empty.
pub open spec fn is_dfs_order(p: &Program, entry: BlockId, order: Seq<BlockId>) -> bool {
    exists|n: nat| #[trigger] dfs_walk(p, entry, n).1.len() == 0 && dfs_walk(p, entry, n).0 == order
}

/// Once its stack is empty the walk stays where it is.
proof fn lemma_dfs_walk_stays(p: &Program, entry: BlockId, n: nat, m: nat)
    requires
        dfs_walk(p, entry, n).1.len() == 0,
        n <= m,
    ensures
        dfs_walk(p, entry, m) == dfs_walk(p, entry, n),
    decreases m - n,
{
    if m > n {
        lemma_dfs_walk_stays(p, entry, n, (m - 1) as nat);
    }
}

/// The depth-first walk from a block visits blocks in one order only.
pub proof fn lemma_dfs_order_unique(p: &Program, entry: BlockId, o1: Seq<BlockId>, o2: Seq<BlockId>)
    requires
        is_dfs_order(p, entry, o1),
        is_dfs_order(p, entry, o2),
    ensures
        o1 == o2,
{
    let n1 = choose|n: nat| #[trigger] dfs_walk(p, entry, n).1.len() == 0 && dfs_walk(p, entry, n).0 == o1;
    let n2 = choose|n: nat| #[trigger] dfs_walk(p, entry, n).1.len() == 0 && dfs_walk(p, entry, n).0 == o2;
    if n1 <= n2 {
        lemma_dfs_walk_stays(p, entry, n1, n2);
    } else {
        lemma_dfs_walk_stays(p, entry, n2, n1);
    }
}

/// Whether `p1` is `p0` with the blocks of `order` rewritten in that order, starting from the
/// variable number `n0` and ending at `n1`, and the allocas placed at the head of `entry`.
pub open spec fn processed_along(
    p0: &Program,
    p1: &Program,
    entry: BlockId,
    order: Seq<BlockId>,
    n0: nat,
    n1: nat,
) -> bool {
    let st = visit_states(p0, order, n0);
    let prefix = allocas_prefix(st.last().allocas);
    &&& same_except_blocks(p0, p1)
    &&& p1.blocks@.len() == p0.blocks@.len()
    &&& forall|k: nat| #[trigger] p1.blocks.has(k) == p0.blocks.has(k)
    &&& forall|k: int|
        0 <= k < p0.blocks@.len() && !order.contains(BlockId(k as u32)) ==> #[trigger] p1.blocks@[k]
            == p0.blocks@[k]
    &&& forall|t: int|
        1 <= t < order.len() ==> out_matches(p1.blocks.at((#[trigger] order[t]).0 as nat).0@, st[t])
    &&& p1.blocks.at(entry.0 as nat).0@.len() >= prefix.len()
    &&& p1.blocks.at(entry.0 as nat).0@.take(prefix.len() as int) == prefix
    &&& out_matches(p1.blocks.at(entry.0 as nat).0@.skip(prefix.len() as int), st[0])
    &&& n1 == st.last().next
}

/// Whether `p1` is `p0` with the callable whose body starts at `entry` given explicit memory,
/// its blocks visited in the order of the depth-first walk from `entry`, which reaches each
/// of them once.
pub open spec fn callable_processed(p0: &Program, p1: &Program, entry: BlockId, n0: nat, n1: nat) -> bool {
    exists|order: Seq<BlockId>|
        #[trigger] visit_order_ok(p0, entry, order) && is_dfs_order(p0, entry, order)
            && processed_along(p0, p1, entry, order, n0, n1)
}

/// The budget of the block numbered `k`.
pub open spec fn block_budget_at(p: &Program, k: int) -> nat {
    alloca_budget_seq(p.blocks.at(k as nat).0@)
}

/// The total budget of the blocks numbered below `n` that `s` holds.
pub open spec fn budget_sum(p: &Program, s: Set<int>, n: nat) -> nat
    decreases n,
{
    if n == 0 {
        0
    } else {
        budget_sum(p, s, (n - 1) as nat) + if s.contains(n - 1) {
            block_budget_at(p, n - 1)
        } else {
            0
        }
    }
}

/// The total budget of the blocks listed in `order`.
pub open spec fn order_budget(p: &Program, order: Seq<BlockId>) -> nat
    decreases order.len(),
{
    if order.len() == 0 {
        0
    } else {
        order_budget(p, order.drop_last()) + block_budget_at(p, order.last().0 as int)
    }
}

proof fn lemma_budget_sum_agree(p: &Program, q: &Program, s1: Set<int>, s2: Set<int>, n: nat)
    requires
        forall|k: int| 0 <= k < n ==> (#[trigger] s1.contains(k)) == s2.contains(k),
        forall|k: int| 0 <= k < n && s1.contains(k) ==> #[trigger] block_budget_at(p, k) == block_budget_at(q, k),
    ensures
        budget_sum(p, s1, n) == budget_sum(q, s2, n),
    decreases n,
{
    if n > 0 {
        lemma_budget_sum_agree(p, q, s1, s2, (n - 1) as nat);
        assert(s1.contains(n - 1) == s2.contains(n - 1));
        if s1.contains(n - 1) {
            assert(block_budget_at(p, n - 1) == block_budget_at(q, n - 1));
        }
    }
}

proof fn lemma_budget_sum_remove(p: &Program, s: Set<int>, n: nat, x: int)
    requires
        s.contains(x),
        0 <= x < n,
    ensures
        budget_sum(p, s, n) == budget_sum(p, s.remove(x), n) + block_budget_at(p, x),
    decreases n,
{
    if x == n - 1 {
        lemma_budget_sum_agree(p, p, s, s.remove(x), (n - 1) as nat);
    } else {
        lemma_budget_sum_remove(p, s, (n - 1) as nat, x);
    }
}

proof fn lemma_budget_sum_subset(p: &Program, s1: Set<int>, s2: Set<int>, n: nat)
    requires
        s1.subset_of(s2),
    ensures
        budget_sum(p, s1, n) <= budget_sum(p, s2, n),
    decreases n,
{
    if n > 0 {
        lemma_budget_sum_subset(p, s1, s2, (n - 1) as nat);
    }
}

proof fn lemma_budget_sum_union(p: &Program, a: Set<int>, b: Set<int>, n: nat)
    requires
        a.disjoint(b),
    ensures
        budget_sum(p, a + b, n) == budget_sum(p, a, n) + budget_sum(p, b, n),
    decreases n,
{
    if n > 0 {
        lemma_budget_sum_union(p, a, b, (n - 1) as nat);
        assert(!(a.contains(n - 1) && b.contains(n - 1)));
    }
}

/// Distinct blocks of `s`, numbered below `n`, have a total budget no larger than all of `s`.
proof fn lemma_order_budget_within(p: &Program, order: Seq<BlockId>, s: Set<int>, n: nat)
    requires
        order.no_duplicates(),
        forall|i: int| 0 <= i < order.len() ==> s.contains((#[trigger] order[i]).0 as int) && order[i].0 < n,
    ensures
        order_budget(p, order) <= budget_sum(p, s, n),
    decreases order.len(),
{
    if order.len() > 0 {
        let x = order.last().0 as int;
        let rest = order.drop_last();
        assert(s.contains(order[order.len() - 1].0 as int));
        assert forall|i: int| 0 <= i < rest.len() implies s.remove(x).contains((#[trigger] rest[i]).0 as int)
            && rest[i].0 < n by {
            assert(rest[i] == order[i]);
            assert(order[i] != order[order.len() - 1]);
            assert(s.contains(order[i].0 as int));
        }
        assert(rest.no_duplicates()) by {
            assert forall|i: int, j: int| 0 <= i < rest.len() && 0 <= j < rest.len() && i != j implies rest[i] != rest[j] by {
                assert(rest[i] == order[i] && rest[j] == order[j]);
            }
        }
        lemma_order_budget_within(p, rest, s.remove(x), n);
        lemma_budget_sum_remove(p, s, n, x);
    }
}

proof fn lemma_visit_states_len(p: &Program, order: Seq<BlockId>, n0: nat)
    ensures
        visit_states(p, order, n0).len() == order.len(),
    decreases order.len(),
{
    if order.len() > 0 {
        lemma_visit_states_len(p, order.drop_last(), n0);
    }
}

proof fn lemma_visit_states_prefix(p: &Program, order: Seq<BlockId>, b: BlockId, n0: nat)
    ensures
        visit_states(p, order.push(b), n0).drop_last() == visit_states(p, order, n0),
        visit_states(p, order.push(b), n0).len() == order.len() + 1,
{
    lemma_visit_states_len(p, order, n0);
    assert(order.push(b).drop_last() =~= order);
}

proof fn lemma_allocas_prefix_take(a: Seq<Option<Variable>>, i: int)
    requires
        0 <= i < a.len(),
    ensures
        allocas_prefix(a.take(i + 1)) == allocas_prefix(a.take(i)) + match a[i] {
            Some(v) => seq![Instruction::Alloca(v)],
            None => Seq::<Instruction>::empty(),
        },
{
    assert(a.take(i + 1).drop_last() =~= a.take(i));
}

/// One `Alloca` for each variable recorded in `vars_to_alloca`, in ascending order of number.
fn alloca_instructions(vars_to_alloca: &IndexMap<VariableId, Variable>) -> (r: Vec<Instruction>)
    requires
        vars_to_alloca.well_formed(),
    ensures
        r@ == allocas_prefix(vars_to_alloca@),
{
    let mut r: Vec<Instruction> = Vec::new();
    let n = vars_to_alloca.len_slots();
    for i in 0..n
        invariant
            n == vars_to_alloca@.len(),
            vars_to_alloca.well_formed(),
            r@ == allocas_prefix(vars_to_alloca@.take(i as int)),
    {
        proof {
            lemma_allocas_prefix_take(vars_to_alloca@, i as int);
        }
        let key = <VariableId as crate::index_map::IndexKey>::from_index(i);
        match vars_to_alloca.get(key) {
            Some(v) => {
                let ghost before = r@;
                r.push(Instruction::Alloca(*v));
                proof {
                    assert(r@ =~= before + seq![Instruction::Alloca(*v)]);
                }
            },
            None => {
                proof {
                    assert(r@ =~= allocas_prefix(vars_to_alloca@.take(i as int)) + Seq::<Instruction>::empty());
                }
            },
        }
    }
    proof {
        assert(vars_to_alloca@.take(n as int) =~= vars_to_alloca@);
    }
    r
}

/// Gives the callable explicit memory: walks the blocks reachable from its body depth first,
/// rewriting each once, then places an `Alloca` for every stored variable at the head of the body.
fn process_callable(
    program: &mut Program,
    callable_id: CallableId,
    next_var_id: &mut VariableId,
)
    requires
        old(program).well_formed(),
        old(program).callables.has(callable_id.0 as nat),
        old(program).callables.at(callable_id.0 as nat).body matches Some(entry) ==> {
            &&& closed_from(old(program), entry)
            &&& forall|b: BlockId, j: int|
                reaches(old(program), entry, b) && 0 <= j < old(program).blocks.at(b.0 as nat).0@.len()
                    ==> !is_memory_instruction(#[trigger] old(program).blocks.at(b.0 as nat).0@[j])
            &&& old(next_var_id).0 + budget_sum(old(program), reach_set(old(program), entry), old(program).blocks@.len())
                <= u32::MAX
        },
    ensures
        final(program).well_formed(),
        old(program).callables.at(callable_id.0 as nat).body is None ==> *final(program) == *old(program)
            && *final(next_var_id) == *old(next_var_id),
        old(program).callables.at(callable_id.0 as nat).body matches Some(entry) ==> callable_processed(
            old(program),
            final(program),
            entry,
            old(next_var_id).0 as nat,
            final(next_var_id).0 as nat,
        ),
        old(program).callables.at(callable_id.0 as nat).body matches Some(entry) ==> final(next_var_id).0
            <= old(next_var_id).0 + budget_sum(old(program), reach_set(old(program), entry), old(program).blocks@.len()),
{
    let callable = program.get_callable(callable_id);
    let entry_block_id = match callable.body {
        Some(b) => b,
        None => {
            return ;
        },
    };
    let ghost p0 = *program;
    let ghost n0 = next_var_id.0 as nat;
    let ghost slots = p0.blocks@.len();
    let mut vars_to_alloca: IndexMap<VariableId, Variable> = IndexMap::new();
    let mut visited = NumberSet::new();
    let mut blocks_to_visit: Vec<BlockId> = Vec::new();
    blocks_to_visit.push(entry_block_id);
    let ghost mut order: Seq<BlockId> = Seq::empty();
    let ghost mut steps: nat = 0;
    proof {
        assert(blocks_to_visit@ =~= seq![entry_block_id]);
        assert(reach_n(&p0, entry_block_id, entry_block_id, 0));
        assert(reaches(&p0, entry_block_id, entry_block_id));
        assert(blocks_to_visit@[0] == entry_block_id);
    }
    while blocks_to_visit.len() > 0
        invariant
            closed_from(&p0, entry_block_id),
            forall|b: BlockId, j: int|
                reaches(&p0, entry_block_id, b) && 0 <= j < p0.blocks.at(b.0 as nat).0@.len()
                    ==> !is_memory_instruction(#[trigger] p0.blocks.at(b.0 as nat).0@[j]),
            n0 + budget_sum(&p0, reach_set(&p0, entry_block_id), slots) <= u32::MAX,
            slots == p0.blocks@.len(),
            p0.well_formed(),
            program.well_formed(),
            same_except_blocks(&p0, program),
            program.blocks@.len() == slots,
            forall|k: nat| #[trigger] program.blocks.has(k) == p0.blocks.has(k),
            order.no_duplicates(),
            order.len() <= slots,
            order.len() > 0 ==> order[0] == entry_block_id,
            order.len() == 0 ==> blocks_to_visit@ == seq![entry_block_id],
            forall|x: BlockId| #[trigger] order.contains(x) <==> visited.contents().contains(x.0),
            forall|x: BlockId| #[trigger] order.contains(x) ==> reaches(&p0, entry_block_id, x),
            forall|x: BlockId| #[trigger] blocks_to_visit@.contains(x) ==> reaches(&p0, entry_block_id, x),
            forall|x: BlockId, y: BlockId|
                order.contains(x) && #[trigger] edge(&p0, x, y) ==> order.contains(y)
                    || blocks_to_visit@.contains(y),
            order.contains(entry_block_id) || blocks_to_visit@.contains(entry_block_id),
            forall|k: int|
                0 <= k < slots && !order.contains(BlockId(k as u32)) ==> #[trigger] program.blocks@[k]
                    == p0.blocks@[k],
            visit_states(&p0, order, n0).len() == order.len(),
            forall|t: int|
                0 <= t < order.len() ==> out_matches(
                    program.blocks.at((#[trigger] order[t]).0 as nat).0@,
                    visit_states(&p0, order, n0)[t],
                ),
            vars_to_alloca.well_formed(),
            order.len() == 0 ==> vars_to_alloca@ == Seq::<Option<Variable>>::empty() && next_var_id.0 == n0,
            order.len() > 0 ==> vars_to_alloca@ == visit_states(&p0, order, n0).last().allocas
                && next_var_id.0 == visit_states(&p0, order, n0).last().next,
            next_var_id.0 <= n0 + order_budget(&p0, order),
            dfs_walk(&p0, entry_block_id, steps) == (order, blocks_to_visit@),
        decreases 3 * (slots - order.len()) + blocks_to_visit@.len(),
    {
        let ghost old_stack = blocks_to_visit@;
        let block_id = blocks_to_visit.pop().unwrap();
        proof {
            assert(old_stack == blocks_to_visit@.push(block_id));
            assert(old_stack.contains(block_id));
            assert forall|x: BlockId| blocks_to_visit@.contains(x) implies old_stack.contains(x) by {
                let i = choose|i: int| 0 <= i < blocks_to_visit@.len() && blocks_to_visit@[i] == x;
                assert(old_stack[i] == x);
            }
            assert forall|y: BlockId| old_stack.contains(y) && y != block_id implies blocks_to_visit@.contains(y) by {
                let i = choose|i: int| 0 <= i < old_stack.len() && old_stack[i] == y;
                assert(blocks_to_visit@[i] == y);
            }
        }
        if visited.contains(block_id.0) {
            proof {
                assert(order.contains(block_id));
                assert forall|x: BlockId, y: BlockId|
                    order.contains(x) && #[trigger] edge(&p0, x, y) implies order.contains(y)
                        || blocks_to_visit@.contains(y) by {
                    assert(order.contains(y) || old_stack.contains(y));
                }
                assert(order.contains(entry_block_id) || old_stack.contains(entry_block_id));
                assert forall|x: BlockId| #[trigger] blocks_to_visit@.contains(x) implies reaches(&p0, entry_block_id, x) by {
                    assert(old_stack.contains(x));
                }
                assert(old_stack.drop_last() =~= blocks_to_visit@);
                steps = steps + 1;
            }
            continue;
        }
        proof {
            assert(!order.contains(block_id));
            assert(reaches(&p0, entry_block_id, block_id));
            assert(block_ok(&p0, block_id));
            assert(program.blocks@[block_id.0 as int] == p0.blocks@[block_id.0 as int]);
            assert(order.push(block_id).no_duplicates()) by {
                assert forall|i: int, j: int|
                    0 <= i < order.push(block_id).len() && 0 <= j < order.push(block_id).len() && i != j
                    implies order.push(block_id)[i] != order.push(block_id)[j] by {
                    if i < order.len() && j < order.len() {
                    } else if i == order.len() {
                        assert(order.contains(order.push(block_id)[j]));
                    } else {
                        assert(order.contains(order.push(block_id)[i]));
                    }
                }
            }
            assert forall|i: int| 0 <= i < order.push(block_id).len() implies (#[trigger] order.push(block_id)[i]).0 < slots by {
                let x = order.push(block_id)[i];
                if i < order.len() {
                    assert(order.contains(x));
                }
                assert(reaches(&p0, entry_block_id, x));
                assert(block_ok(&p0, x));
            }
            lemma_distinct_ids_bounded(order.push(block_id), slots);
            assert forall|i: int| 0 <= i < order.push(block_id).len() implies reaches(
                &p0,
                entry_block_id,
                #[trigger] order.push(block_id)[i],
            ) && block_ok(&p0, order.push(block_id)[i]) by {
                let x = order.push(block_id)[i];
                if i < order.len() {
                    assert(order.contains(x));
                }
                assert(block_ok(&p0, x));
            }
            assert forall|i: int| 0 <= i < order.push(block_id).len() implies reach_set(&p0, entry_block_id).contains(
                (#[trigger] order.push(block_id)[i]).0 as int,
            ) && order.push(block_id)[i].0 < slots by {
                let x = order.push(block_id)[i];
                assert(BlockId(((x.0 as int) as u32)) == x);
            }
            lemma_order_budget_within(&p0, order.push(block_id), reach_set(&p0, entry_block_id), slots);
            assert(order.push(block_id).drop_last() =~= order);
            assert(next_var_id.0 + alloca_budget_seq(p0.blocks.at(block_id.0 as nat).0@) <= u32::MAX);
        }
        visited.insert(block_id.0);
        let ghost old_order = order;
        let ghost before_prog = *program;
        let ghost old_states = visit_states(&p0, order, n0);
        let ghost before_next = next_var_id.0 as nat;
        add_alloca_load_to_block(program, block_id, &mut vars_to_alloca, next_var_id);
        proof {
            order = order.push(block_id);
            lemma_visit_states_prefix(&p0, old_order, block_id, n0);
            let st = visit_states(&p0, order, n0);
            assert(st.last() == alloca_fold(
                if old_states.len() == 0 { block_start(Seq::empty(), n0) } else { block_start(old_states.last().allocas, old_states.last().next) },
                p0.blocks.at(block_id.0 as nat).0@,
            ));
            lemma_fold_successors(
                if old_states.len() == 0 { block_start(Seq::empty(), n0) } else { block_start(old_states.last().allocas, old_states.last().next) },
                p0.blocks.at(block_id.0 as nat).0@,
                program.blocks.at(block_id.0 as nat).0@,
            );
            assert forall|x: BlockId| #[trigger] order.contains(x) <==> visited.contents().contains(x.0) by {
                if order.contains(x) && x != block_id {
                    let i = choose|i: int| 0 <= i < order.len() && order[i] == x;
                    assert(old_order[i] == x);
                }
                if visited.contents().contains(x.0) && x.0 != block_id.0 {
                    assert(old_order.contains(x));
                    let i = choose|i: int| 0 <= i < old_order.len() && old_order[i] == x;
                    assert(order[i] == x);
                }
                if x.0 == block_id.0 {
                    assert(x == block_id);
                    assert(order[order.len() - 1] == block_id);
                }
            }
            assert forall|x: BlockId| #[trigger] order.contains(x) implies reaches(&p0, entry_block_id, x) by {
                let i = choose|i: int| 0 <= i < order.len() && order[i] == x;
                if i < old_order.len() {
                    assert(old_order[i] == x);
                    assert(old_order.contains(x));
                }
            }
            assert forall|t: int| 0 <= t < order.len() implies out_matches(
                program.blocks.at((#[trigger] order[t]).0 as nat).0@,
                visit_states(&p0, order, n0)[t],
            ) by {
                if t < old_order.len() {
                    assert(old_order[t] == order[t]);
                    assert(old_order[t] != block_id);
                    assert(visit_states(&p0, order, n0)[t] == old_states[t]);
                }
            }
            assert forall|k: int|
                0 <= k < slots && !order.contains(BlockId(k as u32)) implies #[trigger] program.blocks@[k]
                    == p0.blocks@[k] by {
                assert(BlockId(k as u32) != block_id);
                if old_order.contains(BlockId(k as u32)) {
                    let i = choose|i: int| 0 <= i < old_order.len() && old_order[i] == BlockId(k as u32);
                    assert(order[i] == BlockId(k as u32));
                }
            }
            assert(order[0] == entry_block_id) by {
                if old_order.len() == 0 {
                    assert(old_stack == seq![entry_block_id]);
                    assert(block_id == entry_block_id);
                } else {
                    assert(order[0] == old_order[0]);
                }
            }
            lemma_fold_next(
                if old_states.len() == 0 { block_start(Seq::empty(), n0) } else { block_start(old_states.last().allocas, old_states.last().next) },
                p0.blocks.at(block_id.0 as nat).0@,
            );
            assert(order.drop_last() =~= old_order);
            assert(next_var_id.0 <= n0 + order_budget(&p0, order));
        }
        proof {
            assert forall|k: nat| #[trigger] program.blocks.has(k) == p0.blocks.has(k) by {
                assert(before_prog.blocks.has(k) == p0.blocks.has(k));
                if k != block_id.0 as nat && k < slots {
                    assert(program.blocks@[k as int] == before_prog.blocks@[k as int]);
                }
            }
        }
        let succs = get_block_successors(program.get_block(block_id));
        let ghost bsuccs = succs@;
        let ghost rest = old_stack.drop_last();
        proof {
            assert(rest =~= blocks_to_visit@);
            assert(bsuccs.take(0).filter(not_in(order)) =~= Seq::<BlockId>::empty()) by {
                reveal_with_fuel(Seq::<_>::filter, 1);
            }
            assert(blocks_to_visit@ =~= rest + bsuccs.take(0).filter(not_in(order)));
            assert(bsuccs == block_successors(p0.blocks.at(block_id.0 as nat)));
            assert forall|x: BlockId| #[trigger] blocks_to_visit@.contains(x) implies reaches(&p0, entry_block_id, x) by {
                assert(old_stack.contains(x));
            }
        }
        for si in 0..succs.len()
            invariant
                bsuccs == succs@,
                bsuccs == block_successors(p0.blocks.at(block_id.0 as nat)),
                p0.blocks.has(block_id.0 as nat),
                order.contains(block_id),
                reaches(&p0, entry_block_id, block_id),
                forall|x: BlockId| #[trigger] order.contains(x) <==> visited.contents().contains(x.0),
                forall|x: BlockId| #[trigger] old_stack.contains(x) && x != block_id ==> blocks_to_visit@.contains(x),
                forall|x: BlockId| #[trigger] blocks_to_visit@.contains(x) ==> reaches(&p0, entry_block_id, x),
                forall|i: int| 0 <= i < si ==> order.contains(#[trigger] bsuccs[i]) || blocks_to_visit@.contains(bsuccs[i]),
                blocks_to_visit@.len() <= old_stack.len() - 1 + si,
                rest == old_stack.drop_last(),
                blocks_to_visit@ == rest + bsuccs.take(si as int).filter(not_in(order)),
        {
            let t = succs[si];
            proof {
                assert(bsuccs[si as int] == t);
                assert(bsuccs.contains(t));
                assert(edge(&p0, block_id, t));
                let k = choose|k: nat| reach_n(&p0, entry_block_id, block_id, k);
                lemma_reach_step(&p0, entry_block_id, block_id, t, k);
                assert(reach_n(&p0, entry_block_id, t, k + 1));
                lemma_filter_take_push(bsuccs, not_in(order), si as int);
            }
            if !visited.contains(t.0) {
                let ghost before = blocks_to_visit@;
                blocks_to_visit.push(t);
                proof {
                    assert forall|x: BlockId| #[trigger] old_stack.contains(x) && x != block_id implies blocks_to_visit@.contains(x) by {
                        assert(before.contains(x));
                        let i = choose|i: int| 0 <= i < before.len() && before[i] == x;
                        assert(blocks_to_visit@[i] == x);
                    }
                    assert forall|x: BlockId| #[trigger] blocks_to_visit@.contains(x) implies reaches(&p0, entry_block_id, x) by {
                        let i = choose|i: int| 0 <= i < blocks_to_visit@.len() && blocks_to_visit@[i] == x;
                        if i < before.len() {
                            assert(before[i] == x);
                            assert(before.contains(x));
                        }
                    }
                    assert forall|i: int| 0 <= i < si + 1 implies order.contains(#[trigger] bsuccs[i]) || blocks_to_visit@.contains(bsuccs[i]) by {
                        if i < si {
                            if before.contains(bsuccs[i]) {
                                let j = choose|j: int| 0 <= j < before.len() && before[j] == bsuccs[i];
                                assert(blocks_to_visit@[j] == bsuccs[i]);
                            }
                        } else {
                            assert(blocks_to_visit@[blocks_to_visit@.len() - 1] == t);
                        }
                    }
                    assert(blocks_to_visit@ =~= rest + bsuccs.take(si + 1).filter(not_in(order)));
                }
            } else {
                proof {
                    assert(order.contains(t));
                }
            }
        }
        proof {
            assert(bsuccs.take(bsuccs.len() as int) =~= bsuccs);
            assert(old_stack.last() == block_id);
            steps = steps + 1;
        }
        proof {
            assert forall|x: BlockId, y: BlockId|
                order.contains(x) && #[trigger] edge(&p0, x, y) implies order.contains(y)
                    || blocks_to_visit@.contains(y) by {
                if x == block_id {
                    let i = choose|i: int| 0 <= i < bsuccs.len() && bsuccs[i] == y;
                    assert(order.contains(bsuccs[i]) || blocks_to_visit@.contains(bsuccs[i]));
                } else {
                    let i = choose|i: int| 0 <= i < order.len() && order[i] == x;
                    assert(old_order[i] == x);
                    assert(old_order.contains(x));
                    assert(old_order.contains(y) || old_stack.contains(y));
                    if old_order.contains(y) {
                        let j = choose|j: int| 0 <= j < old_order.len() && old_order[j] == y;
                        assert(order[j] == y);
                    }
                }
            }
        }
    }
    proof {
        let s = Set::new(|x: BlockId| order.contains(x));
        assert forall|b: BlockId| reaches(&p0, entry_block_id, b) implies order.contains(b) by {
            let n = choose|n: nat| reach_n(&p0, entry_block_id, b, n);
            assert(s.contains(entry_block_id));
            lemma_closed_set_holds_reachable(&p0, s, entry_block_id, b, n);
        }
        assert(order.len() > 0);
        assert(reaches(&p0, entry_block_id, entry_block_id));
        assert(block_ok(&p0, entry_block_id));
    }
    let mut alloca_instrs = alloca_instructions(&vars_to_alloca);
    let ghost before_entry_prog = *program;
    let entry_block = program.get_block_mut(entry_block_id);
    let ghost entry_before = entry_block.0@;
    alloca_instrs.append(&mut entry_block.0);
    let ghost prefix = allocas_prefix(vars_to_alloca@);
    std::mem::swap(&mut entry_block.0, &mut alloca_instrs);
    proof {
        assert(entry_block.0@ == prefix + entry_before);
    }
    proof {
        let p1 = *program;
        assert(p1.blocks.at(entry_block_id.0 as nat).0@ == prefix + entry_before);
        assert((prefix + entry_before).take(prefix.len() as int) =~= prefix);
        assert((prefix + entry_before).skip(prefix.len() as int) =~= entry_before);
        assert(order[0] == entry_block_id);
        assert(visit_order_ok(&p0, entry_block_id, order));
        assert(dfs_walk(&p0, entry_block_id, steps).1.len() == 0);
        assert(is_dfs_order(&p0, entry_block_id, order));
        assert(p1.blocks@ == before_entry_prog.blocks@.update(entry_block_id.0 as int, Some(p1.blocks.at(entry_block_id.0 as nat))));
        assert forall|t: int| 1 <= t < order.len() implies out_matches(
            p1.blocks.at((#[trigger] order[t]).0 as nat).0@,
            visit_states(&p0, order, n0)[t],
        ) by {
            assert(order[t] != order[0]);
            assert(order[t].0 != entry_block_id.0);
            assert(order.contains(order[t]));
            assert(reaches(&p0, entry_block_id, order[t]));
            assert(block_ok(&p0, order[t]));
            assert(p1.blocks@[order[t].0 as int] == before_entry_prog.blocks@[order[t].0 as int]);
        }
        assert(entry_before == before_entry_prog.blocks.at(entry_block_id.0 as nat).0@);
        assert(out_matches(entry_before, visit_states(&p0, order, n0)[0]));
        assert forall|k: int|
            0 <= k < p0.blocks@.len() && !order.contains(BlockId(k as u32)) implies #[trigger] p1.blocks@[k]
                == p0.blocks@[k] by {
            assert(BlockId(k as u32) != entry_block_id);
        }
        assert(same_except_blocks(&p0, &p1));
        assert forall|k: nat| #[trigger] p1.blocks.has(k) == p0.blocks.has(k) by {
            assert(before_entry_prog.blocks.has(k) == p0.blocks.has(k));
            if k != entry_block_id.0 as nat && k < slots {
                assert(p1.blocks@[k as int] == before_entry_prog.blocks@[k as int]);
            }
        }
        assert forall|k: int|
            0 <= k < p0.blocks@.len() && !order.contains(BlockId(k as u32)) implies #[trigger] p1.blocks@[k]
                == p0.blocks@[k] by {
            assert(BlockId(k as u32) != entry_block_id);
            assert(p1.blocks@[k] == before_entry_prog.blocks@[k]);
        }
        assert(processed_along(&p0, &p1, entry_block_id, order, n0, next_var_id.0 as nat));
        assert forall|i: int| 0 <= i < order.len() implies reaches(&p0, entry_block_id, #[trigger] order[i])
            && block_ok(&p0, order[i]) by {
            assert(order.contains(order[i]));
        }
        assert forall|i: int| 0 <= i < order.len() implies reach_set(&p0, entry_block_id).contains(
            (#[trigger] order[i]).0 as int,
        ) && order[i].0 < slots by {
            assert(BlockId(((order[i].0 as int) as u32)) == order[i]);
        }
        lemma_order_budget_within(&p0, order, reach_set(&p0, entry_block_id), slots);
    }
}

proof fn lemma_fold_next(s0: AllocaState, instrs: Seq<Instruction>)
    ensures
        alloca_fold(s0, instrs).next <= s0.next + alloca_budget_seq(instrs),
    decreases instrs.len(),
{
    if instrs.len() > 0 {
        lemma_fold_next(s0, instrs.drop_last());
        lemma_step_next(alloca_fold(s0, instrs.drop_last()), instrs.last());
    }
}

/// Each state of `visit_states` is the rewriting of its block from some start.
proof fn lemma_visit_state_at(p: &Program, order: Seq<BlockId>, n0: nat, t: int)
    requires
        0 <= t < order.len(),
    ensures
        exists|s: AllocaState|
            visit_states(p, order, n0)[t] == alloca_fold(s, p.blocks.at(order[t].0 as nat).0@),
    decreases order.len(),
{
    lemma_visit_states_len(p, order, n0);
    let prev = visit_states(p, order.drop_last(), n0);
    lemma_visit_states_len(p, order.drop_last(), n0);
    if t == order.len() - 1 {
        let start = if prev.len() == 0 {
            block_start(Seq::empty(), n0)
        } else {
            block_start(prev.last().allocas, prev.last().next)
        };
        assert(visit_states(p, order, n0)[t] == alloca_fold(start, p.blocks.at(order[t].0 as nat).0@));
    } else {
        lemma_visit_state_at(p, order.drop_last(), n0, t);
        assert(visit_states(p, order, n0)[t] == prev[t]);
        assert(order.drop_last()[t] == order[t]);
    }
}

/// Whether some instruction of `s` stores into the variable numbered `k`.
pub open spec fn stores_var(s: Seq<Instruction>, k: u32) -> bool {
    exists|j: int| 0 <= j < s.len() && is_store_to(#[trigger] s[j], k)
}

/// Whether the instruction stores into the variable numbered `k`.
pub open spec fn is_store_to(i: Instruction, k: u32) -> bool {
    match i {
        Instruction::Store(_, v) => v.variable_id.0 == k,
        _ => false,
    }
}

/// Whether every variable that `allocas` holds sits at its own number.
pub open spec fn slots_by_id(allocas: Seq<Option<Variable>>) -> bool {
    forall|k: int| 0 <= k < allocas.len() ==> (#[trigger] allocas[k] matches Some(v) ==> v.variable_id.0 == k)
}

/// Rewriting a block adds to the variables in memory exactly those that it stores into, each
/// at its own number.
proof fn lemma_fold_allocas(s0: AllocaState, instrs: Seq<Instruction>)
    requires
        slots_by_id(s0.allocas),
    ensures
        slots_by_id(alloca_fold(s0, instrs).allocas),
        forall|k: u32| #[trigger] alloca_has(alloca_fold(s0, instrs).allocas, k) <==> alloca_has(s0.allocas, k)
            || stores_var(instrs, k),
    decreases instrs.len(),
{
    if instrs.len() > 0 {
        let pre = instrs.drop_last();
        let i = instrs.last();
        lemma_fold_allocas(s0, pre);
        let s = alloca_fold(s0, pre);
        lemma_step_next(s, i);
        let a = alloca_fold(s0, instrs).allocas;
        assert(a == alloca_step(s, i).allocas);
        assert forall|k: u32| #[trigger] alloca_has(a, k) <==> alloca_has(s.allocas, k) || is_store_to(i, k) by {
            if let Instruction::Store(_, v) = i {
                let id = v.variable_id.0;
                assert(a == slots_insert(s.allocas, id as nat, v));
                if k == id {
                    assert(a[k as int] == Some(v));
                } else if (k as nat) < a.len() {
                    assert(a[k as int] == if (k as int) < s.allocas.len() { s.allocas[k as int] } else { None::<Variable> });
                }
            }
        }
        assert forall|k: int| 0 <= k < a.len() implies (#[trigger] a[k] matches Some(w) ==> w.variable_id.0 == k) by {
            if let Instruction::Store(_, v) = i {
                let id = v.variable_id.0;
                assert(a == slots_insert(s.allocas, id as nat, v));
                if k != id as int && k < s.allocas.len() {
                    assert(a[k] == s.allocas[k]);
                }
            }
        }
        assert forall|k: u32| #[trigger] alloca_has(a, k) <==> alloca_has(s0.allocas, k) || stores_var(instrs, k) by {
            assert(alloca_has(a, k) <==> alloca_has(s.allocas, k) || is_store_to(i, k));
            if is_store_to(i, k) {
                assert(is_store_to(instrs[instrs.len() - 1], k));
            }
            if stores_var(pre, k) {
                let j = choose|j: int| 0 <= j < pre.len() && is_store_to(#[trigger] pre[j], k);
                assert(instrs[j] == pre[j]);
            }
            if stores_var(instrs, k) {
                let j = choose|j: int| 0 <= j < instrs.len() && is_store_to(#[trigger] instrs[j], k);
                if j < pre.len() {
                    assert(pre[j] == instrs[j]);
                }
            }
            if let Instruction::Store(_, v) = i {
                if v.variable_id.0 == k {
                    assert(instrs[instrs.len() - 1] == i);
                }
            }
        }
    }
}

/// After the blocks of `order` up to the one at `t`, the variables in memory are exactly those
/// that one of these blocks stores into, each at its own number.
proof fn lemma_visit_allocas(p: &Program, order: Seq<BlockId>, n0: nat, t: int)
    requires
        0 <= t < order.len(),
    ensures
        slots_by_id(visit_states(p, order, n0)[t].allocas),
        forall|k: u32|
            #[trigger] alloca_has(visit_states(p, order, n0)[t].allocas, k) <==> exists|u: int|
                0 <= u <= t && stores_var(p.blocks.at((#[trigger] order[u]).0 as nat).0@, k),
    decreases order.len(),
{
    lemma_visit_states_len(p, order, n0);
    let prev = visit_states(p, order.drop_last(), n0);
    lemma_visit_states_len(p, order.drop_last(), n0);
    if t == order.len() - 1 {
        let start = if prev.len() == 0 {
            block_start(Seq::empty(), n0)
        } else {
            block_start(prev.last().allocas, prev.last().next)
        };
        if prev.len() > 0 {
            lemma_visit_allocas(p, order.drop_last(), n0, t - 1);
        }
        let blk = p.blocks.at(order[t].0 as nat).0@;
        assert(visit_states(p, order, n0)[t] == alloca_fold(start, blk));
        lemma_fold_allocas(start, blk);
        assert forall|k: u32| #[trigger] alloca_has(visit_states(p, order, n0)[t].allocas, k) <==> exists|u: int|
            0 <= u <= t && stores_var(p.blocks.at((#[trigger] order[u]).0 as nat).0@, k) by {
            if prev.len() > 0 {
                if alloca_has(start.allocas, k) {
                    let u = choose|u: int| 0 <= u <= t - 1 && stores_var(p.blocks.at((#[trigger] order.drop_last()[u]).0 as nat).0@, k);
                    assert(order.drop_last()[u] == order[u]);
                }
                if exists|u: int| 0 <= u <= t && stores_var(p.blocks.at((#[trigger] order[u]).0 as nat).0@, k) {
                    let u = choose|u: int| 0 <= u <= t && stores_var(p.blocks.at((#[trigger] order[u]).0 as nat).0@, k);
                    if u < t {
                        assert(order.drop_last()[u] == order[u]);
                    }
                }
            } else {
                if exists|u: int| 0 <= u <= t && stores_var(p.blocks.at((#[trigger] order[u]).0 as nat).0@, k) {
                    let u = choose|u: int| 0 <= u <= t && stores_var(p.blocks.at((#[trigger] order[u]).0 as nat).0@, k);
                    assert(u == t);
                }
            }
        }
    } else {
        lemma_visit_allocas(p, order.drop_last(), n0, t);
        assert(visit_states(p, order, n0)[t] == prev[t]);
        assert forall|k: u32| #[trigger] alloca_has(visit_states(p, order, n0)[t].allocas, k) <==> exists|u: int|
            0 <= u <= t && stores_var(p.blocks.at((#[trigger] order[u]).0 as nat).0@, k) by {
            if exists|u: int| 0 <= u <= t && stores_var(p.blocks.at((#[trigger] order[u]).0 as nat).0@, k) {
                let u = choose|u: int| 0 <= u <= t && stores_var(p.blocks.at((#[trigger] order[u]).0 as nat).0@, k);
                assert(order.drop_last()[u] == order[u]);
            }
            if exists|u: int| 0 <= u <= t && stores_var(p.blocks.at((#[trigger] order.drop_last()[u]).0 as nat).0@, k) {
                let u = choose|u: int| 0 <= u <= t && stores_var(p.blocks.at((#[trigger] order.drop_last()[u]).0 as nat).0@, k);
                assert(order.drop_last()[u] == order[u]);
            }
        }
    }
}

/// Whether the block that `entry` names in `p1` opens with one `Alloca` for each variable that
/// a block reachable from `entry` in `p0` stores into, in ascending order of number.
pub open spec fn opens_with_allocas(p0: &Program, p1: &Program, entry: BlockId, allocas: Seq<Option<Variable>>) -> bool {
    let prefix = allocas_prefix(allocas);
    &&& slots_by_id(allocas)
    &&& forall|k: u32|
        #[trigger] alloca_has(allocas, k) <==> exists|b: BlockId|
            reaches(p0, entry, b) && stores_var(#[trigger] p0.blocks.at(b.0 as nat).0@, k)
    &&& p1.blocks.at(entry.0 as nat).0@.len() >= prefix.len()
    &&& p1.blocks.at(entry.0 as nat).0@.take(prefix.len() as int) == prefix
}

/// Giving a callable explicit memory places at the head of its body one `Alloca` for each
/// variable that a block of the body stores into, and for no other, in ascending order of
/// number.
pub proof fn lemma_one_alloca_per_stored_variable(p0: &Program, p1: &Program, entry: BlockId, n0: nat, n1: nat)
    requires
        callable_processed(p0, p1, entry, n0, n1),
    ensures
        exists|allocas: Seq<Option<Variable>>| #[trigger] opens_with_allocas(p0, p1, entry, allocas),
{
    let order = choose|order: Seq<BlockId>|
        #[trigger] visit_order_ok(p0, entry, order) && is_dfs_order(p0, entry, order)
            && processed_along(p0, p1, entry, order, n0, n1);
    let st = visit_states(p0, order, n0);
    lemma_visit_states_len(p0, order, n0);
    let t = order.len() - 1;
    lemma_visit_allocas(p0, order, n0, t);
    let allocas = st.last().allocas;
    assert(st.last() == st[t]);
    assert forall|k: u32| #[trigger] alloca_has(allocas, k) <==> exists|b: BlockId|
        reaches(p0, entry, b) && stores_var(#[trigger] p0.blocks.at(b.0 as nat).0@, k) by {
        if alloca_has(allocas, k) {
            let u = choose|u: int| 0 <= u <= t && stores_var(p0.blocks.at((#[trigger] order[u]).0 as nat).0@, k);
            assert(order.contains(order[u]));
        }
        if exists|b: BlockId| reaches(p0, entry, b) && stores_var(#[trigger] p0.blocks.at(b.0 as nat).0@, k) {
            let b = choose|b: BlockId| reaches(p0, entry, b) && stores_var(#[trigger] p0.blocks.at(b.0 as nat).0@, k);
            assert(order.contains(b));
            let u = choose|u: int| 0 <= u < order.len() && order[u] == b;
            assert(stores_var(p0.blocks.at((order[u]).0 as nat).0@, k));
        }
    }
    assert(opens_with_allocas(p0, p1, entry, allocas));
}

/// Giving a callable explicit memory keeps the successors of every block.
pub proof fn lemma_processed_keeps_successors(pa: &Program, pb: &Program, e: BlockId, na: nat, nb: nat)
    requires
        pa.well_formed(),
        callable_processed(pa, pb, e, na, nb),
        closed_from(pa, e),
    ensures
        forall|k: nat| #[trigger] pb.blocks.has(k) ==> block_successors(pb.blocks.at(k))
            == block_successors(pa.blocks.at(k)),
{
    let order = choose|order: Seq<BlockId>|
        #[trigger] visit_order_ok(pa, e, order) && processed_along(pa, pb, e, order, na, nb);
    let st = visit_states(pa, order, na);
    lemma_visit_states_len(pa, order, na);
    assert forall|k: nat| #[trigger] pb.blocks.has(k) implies block_successors(pb.blocks.at(k))
        == block_successors(pa.blocks.at(k)) by {
        let b = BlockId(k as u32);
        assert(pa.blocks.has(k));
        assert(b.0 as nat == k);
        if order.contains(b) {
            let t = choose|t: int| 0 <= t < order.len() && order[t] == b;
            assert(reaches(pa, e, b));
            assert(block_ok(pa, b));
            lemma_visit_state_at(pa, order, na, t);
            let s0 = choose|s: AllocaState| st[t] == alloca_fold(s, pa.blocks.at(order[t].0 as nat).0@);
            let instrs = pa.blocks.at(k).0@;
            if t == 0 {
                let prefix = allocas_prefix(st.last().allocas);
                let whole = pb.blocks.at(e.0 as nat).0@;
                let out = whole.skip(prefix.len() as int);
                assert(b == e);
                lemma_fold_successors(s0, instrs, out);
                assert(whole.last() == out.last());
            } else {
                assert(out_matches(pb.blocks.at((order[t]).0 as nat).0@, st[t]));
                lemma_fold_successors(s0, instrs, pb.blocks.at(k).0@);
            }
        } else {
            assert(pb.blocks@[k as int] == pa.blocks@[k as int]);
        }
    }
}

/// The body of callable `c`, when `p` holds that callable and it has one.
pub open spec fn body_of(p: &Program, c: nat) -> Option<BlockId> {
    if p.callables.has(c) {
        p.callables.at(c).body
    } else {
        None
    }
}

/// Whether callable `c` has a body from which block `b` can be reached.
pub open spec fn body_reaches(p: &Program, c: nat, b: BlockId) -> bool {
    match body_of(p, c) {
        Some(e) => reaches(p, e, b),
        None => false,
    }
}

/// Whether some callable among `ids` has a body from which the block numbered `k` can be reached.
pub open spec fn reached_from_bodies(p: &Program, ids: Seq<nat>, k: int) -> bool {
    exists|i: int| 0 <= i < ids.len() && #[trigger] body_reaches(p, ids[i], BlockId(k as u32))
}

/// The numbers of the blocks that the bodies of callables `ids` reach.
pub open spec fn reached_set(p: &Program, ids: Seq<nat>) -> Set<int> {
    Set::new(|k: int| 0 <= k < p.blocks@.len() && reached_from_bodies(p, ids, k))
}

/// Adding callable `c` to `ids` adds the blocks that its body reaches; when the bodies of
/// distinct callables reach no common block and `c` is not among `ids`, their numbers add up,
/// and in any case they stay within the number of block slots.
pub proof fn lemma_reached_set_step(p: &Program, ids: Seq<nat>, c: nat)
    requires
        !ids.contains(c),
        forall|c1: nat, c2: nat, b: BlockId|
            #[trigger] body_reaches(p, c1, b) && #[trigger] body_reaches(p, c2, b) ==> c1 == c2,
    ensures
        reached_set(p, ids).finite(),
        reached_set(p, ids.push(c)).finite(),
        reached_set(p, ids.push(c)).len() <= p.blocks@.len(),
        body_of(p, c) matches Some(e) ==> reached_set(p, ids.push(c)).len() == reached_set(p, ids).len()
            + reach_set(p, e).len(),
        body_of(p, c) matches Some(e) ==> reached_set(p, ids.push(c)) == reached_set(p, ids) + reach_set(p, e)
            && reached_set(p, ids).disjoint(reach_set(p, e)),
        body_of(p, c) is None ==> reached_set(p, ids.push(c)) == reached_set(p, ids),
{
    let a = reached_set(p, ids);
    let a1 = reached_set(p, ids.push(c));
    lemma_below_bounded(a, p.blocks@.len());
    lemma_below_bounded(a1, p.blocks@.len());
    assert forall|k: int| #[trigger] a1.contains(k) <==> a.contains(k) || (0 <= k < p.blocks@.len() && body_reaches(
        p,
        c,
        BlockId(k as u32),
    )) by {
        if a1.contains(k) {
            let i = choose|i: int|
                0 <= i < ids.push(c).len() && #[trigger] body_reaches(p, ids.push(c)[i], BlockId(k as u32));
            if i < ids.len() {
                assert(ids[i] == ids.push(c)[i]);
            }
        }
        if a.contains(k) {
            let i = choose|i: int| 0 <= i < ids.len() && #[trigger] body_reaches(p, ids[i], BlockId(k as u32));
            assert(ids.push(c)[i] == ids[i]);
        }
        if 0 <= k < p.blocks@.len() && body_reaches(p, c, BlockId(k as u32)) {
            assert(ids.push(c)[ids.len() as int] == c);
        }
    }
    match body_of(p, c) {
        Some(e) => {
            let b = reach_set(p, e);
            lemma_below_bounded(b, p.blocks@.len());
            assert(a1 =~= a + b);
            assert forall|k: int| !(a.contains(k) && #[trigger] b.contains(k)) by {
                if a.contains(k) && b.contains(k) {
                    let i = choose|i: int| 0 <= i < ids.len() && #[trigger] body_reaches(p, ids[i], BlockId(k as u32));
                    assert(body_reaches(p, c, BlockId(k as u32)));
                    assert(ids[i] == c);
                    assert(ids.contains(c));
                }
            }
            assert(a.disjoint(b));
            vstd::set_lib::lemma_set_disjoint_lens(a, b);
        },
        None => {
            assert(a1 =~= a);
        },
    }
}

/// Whether `n` is the first variable number above every variable that `p` assigns.
pub open spec fn is_first_free_variable(p: &Program, n: nat) -> bool {
    &&& assigned_below(p, n)
    &&& (n == 0 || program_assigns(p, (n - 1) as u32))
}

/// The most variables that the pass can number: the total budget of the blocks that the
/// callable bodies reach.
pub open spec fn alloca_room(p: &Program) -> nat {
    budget_sum(p, reached_set(p, p.callables.key_seq()), p.blocks@.len())
}

/// Whether the pass can run on `p`: every callable body reaches only present, non-empty blocks
/// that hold no memory instruction, the bodies of distinct callables reach no common block,
/// and the variable numbers leave room for every load the pass may add.
pub open spec fn alloca_ready(p: &Program) -> bool {
    &&& p.well_formed()
    &&& forall|c: nat| #[trigger] body_of(p, c) matches Some(e) ==> closed_from(p, e)
    &&& forall|c: nat, b: BlockId, j: int|
        #![trigger body_reaches(p, c, b), p.blocks.at(b.0 as nat).0@[j]]
        body_reaches(p, c, b) && 0 <= j < p.blocks.at(b.0 as nat).0@.len() ==> !is_memory_instruction(
            p.blocks.at(b.0 as nat).0@[j],
        )
    &&& forall|c1: nat, c2: nat, b: BlockId|
        #[trigger] body_reaches(p, c1, b) && #[trigger] body_reaches(p, c2, b) ==> c1 == c2
    &&& alloca_room(p) <= u32::MAX
    &&& assigned_below(p, (u32::MAX - alloca_room(p)) as nat)
}

/// One step of the pass: `pb` is `pa` with callable `c` of `p0` given explicit memory, its
/// loads numbered from `na` up to `nb`, or `pa` itself when `c` has no body.
pub open spec fn chain_step(p0: &Program, c: nat, pa: Program, pb: Program, na: nat, nb: nat) -> bool {
    match body_of(p0, c) {
        Some(e) => callable_processed(&pa, &pb, e, na, nb),
        None => pb == pa && nb == na,
    }
}

/// Whether `progs` and `nexts` record the pass over the callables `ids` of `p0`, one after
/// the other: `progs[t + 1]` follows from `progs[t]` by giving callable `ids[t]` explicit memory.
pub open spec fn alloca_chain(p0: &Program, ids: Seq<nat>, progs: Seq<Program>, nexts: Seq<nat>) -> bool {
    &&& progs.len() == ids.len() + 1
    &&& nexts.len() == ids.len() + 1
    &&& progs[0] == *p0
    &&& forall|t: int|
        0 <= t < ids.len() ==> #[trigger] chain_step(p0, ids[t], progs[t], progs[t + 1], nexts[t], nexts[t + 1])
}

/// One more callable body: the budgets of the blocks it reaches are the same before the pass
/// reaches it, and they add to those of the bodies before it, within the room of the program.
proof fn lemma_alloca_budget_step(p0: &Program, before: &Program, key_nats: Seq<nat>, t: int, e: BlockId)
    requires
        alloca_ready(p0),
        key_nats == p0.callables.key_seq(),
        forall|i: int, j: int| 0 <= i < j < key_nats.len() ==> key_nats[i] < key_nats[j],
        0 <= t < key_nats.len(),
        body_of(p0, key_nats[t]) == Some(e),
        before.blocks@.len() == p0.blocks@.len(),
        forall|b: BlockId| #[trigger] reaches(p0, e, b) ==> before.blocks@[b.0 as int] == p0.blocks@[b.0 as int],
        reach_set(before, e) == reach_set(p0, e),
    ensures
        budget_sum(before, reach_set(before, e), before.blocks@.len()) == budget_sum(
            p0,
            reach_set(p0, e),
            p0.blocks@.len(),
        ),
        budget_sum(p0, reached_set(p0, key_nats.take(t + 1)), p0.blocks@.len()) == budget_sum(
            p0,
            reached_set(p0, key_nats.take(t)),
            p0.blocks@.len(),
        ) + budget_sum(p0, reach_set(p0, e), p0.blocks@.len()),
        budget_sum(p0, reached_set(p0, key_nats.take(t + 1)), p0.blocks@.len()) <= alloca_room(p0),
{
    let n = p0.blocks@.len();
    let ids_t = key_nats.take(t);
    let cn = key_nats[t];
    let b = reach_set(p0, e);
    assert forall|k: int| 0 <= k < n && b.contains(k) implies #[trigger] block_budget_at(before, k) == block_budget_at(
        p0,
        k,
    ) by {
        assert(reaches(p0, e, BlockId(k as u32)));
        assert(before.blocks@[k] == p0.blocks@[k]);
    }
    lemma_budget_sum_agree(before, p0, b, b, n);
    assert(key_nats.take(t + 1) =~= ids_t.push(cn));
    assert(!ids_t.contains(cn)) by {
        if ids_t.contains(cn) {
            let i = choose|i: int| 0 <= i < ids_t.len() && ids_t[i] == cn;
            assert(key_nats[i] < key_nats[t]);
        }
    }
    lemma_reached_set_step(p0, ids_t, cn);
    lemma_budget_sum_union(p0, reached_set(p0, ids_t), b, n);
    let all = reached_set(p0, key_nats);
    assert forall|k: int| reached_set(p0, key_nats.take(t + 1)).contains(k) implies all.contains(k) by {
        let i = choose|i: int|
            0 <= i < key_nats.take(t + 1).len() && #[trigger] body_reaches(p0, key_nats.take(t + 1)[i], BlockId(k as u32));
        assert(key_nats.take(t + 1)[i] == key_nats[i]);
    }
    lemma_budget_sum_subset(p0, reached_set(p0, key_nats.take(t + 1)), all, n);
}

/// Gives every callable with a body explicit memory, callable by callable in ascending order
/// of id: stored variables get an `Alloca` at the head of the body and every read of them a
/// `Load` into a fresh variable, numbered upwards from the first number that the program does
/// not assign.
pub fn insert_alloca_load_instrs(program: &mut Program)
    requires
        alloca_ready(old(program)),
    ensures
        final(program).well_formed(),
        same_except_blocks(old(program), final(program)),
        final(program).blocks@.len() == old(program).blocks@.len(),
        forall|k: nat| #[trigger] final(program).blocks.has(k) == old(program).blocks.has(k),
        forall|k: nat|
            #[trigger] final(program).blocks.has(k) ==> block_successors(final(program).blocks.at(k))
                == block_successors(old(program).blocks.at(k)),
        forall|k: int|
            0 <= k < old(program).blocks@.len() && !reached_from_bodies(
                old(program),
                old(program).callables.key_seq(),
                k,
            ) ==> #[trigger] final(program).blocks@[k] == old(program).blocks@[k],
        exists|progs: Seq<Program>, nexts: Seq<nat>|
            {
                &&& #[trigger] alloca_chain(old(program), old(program).callables.key_seq(), progs, nexts)
                &&& is_first_free_variable(old(program), nexts[0])
                &&& progs.last() == *final(program)
            },
{
    let ghost p0 = *program;

    let ghost bslots = p0.blocks.slot_count();
    let ghost room = alloca_room(&p0);
    let mut next_var_id = next_variable_id(program);
    let ghost n0 = next_var_id.0 as nat;
    proof {
        if n0 > 0 {
            crate::utils::lemma_assigned_below_bound(&p0, (u32::MAX - room) as nat, (n0 - 1) as u32);
        }
        assert(n0 + room <= u32::MAX);
        crate::index_map::lemma_key_seq_increasing(p0.callables);
    }
    let ids = program.all_callable_ids();
    let ghost key_nats = p0.callables.key_seq();
    let ghost mut progs: Seq<Program> = seq![p0];
    let ghost mut nexts: Seq<nat> = seq![n0];
    proof {
        assert(ids@.len() == key_nats.len());
        assert(key_nats.take(0) =~= Seq::<nat>::empty());
        assert(reached_set(&p0, key_nats.take(0)) =~= Set::<int>::empty());
        lemma_budget_sum_subset(&p0, reached_set(&p0, key_nats.take(0)), reached_set(&p0, key_nats), bslots);
    }
    for t in 0..ids.len()
        invariant
            alloca_ready(&p0),
            bslots == p0.blocks.slot_count(),
            room == alloca_room(&p0),
            n0 + room <= u32::MAX,
            key_nats == p0.callables.key_seq(),
            ids@.map_values(|k: CallableId| k.0 as nat) == key_nats,
            forall|i: int, j: int| 0 <= i < j < key_nats.len() ==> key_nats[i] < key_nats[j],
            program.well_formed(),
            same_except_blocks(&p0, program),
            program.blocks@.len() == bslots,
            forall|k: nat| #[trigger] program.blocks.has(k) == p0.blocks.has(k),
            forall|k: nat|
                #[trigger] program.blocks.has(k) ==> block_successors(program.blocks.at(k))
                    == block_successors(p0.blocks.at(k)),
            forall|k: int|
                0 <= k < bslots && !reached_from_bodies(&p0, key_nats.take(t as int), k)
                    ==> #[trigger] program.blocks@[k] == p0.blocks@[k],
            alloca_chain(&p0, key_nats.take(t as int), progs, nexts),
            nexts[0] == n0,
            progs.last() == *program,
            nexts.last() == next_var_id.0 as nat,
            reached_set(&p0, key_nats.take(t as int)).finite(),
            budget_sum(&p0, reached_set(&p0, key_nats.take(t as int)), bslots) <= room,
            next_var_id.0 <= n0 + budget_sum(&p0, reached_set(&p0, key_nats.take(t as int)), bslots),
    {
        let c = ids[t];
        let ghost before = *program;
        let ghost nb = next_var_id.0 as nat;
        let ghost cn = key_nats[t as int];
        let ghost ids_t = key_nats.take(t as int);
        proof {
            assert(key_nats.take(t + 1) =~= ids_t.push(cn));
            assert(!ids_t.contains(cn)) by {
                if ids_t.contains(cn) {
                    let i = choose|i: int| 0 <= i < ids_t.len() && ids_t[i] == cn;
                    assert(key_nats[i] < key_nats[t as int]);
                }
            }
            lemma_reached_set_step(&p0, ids_t, cn);
            assert(c.0 as nat == cn);
            crate::utils::lemma_key_seq_has(p0.callables, t as int);
            assert(program.callables.has(cn));
            assert(body_of(&p0, cn) == before.callables.at(cn).body);
            if let Some(e) = before.callables.at(cn).body {
                assert(closed_from(&p0, e));
                assert forall|b: BlockId| #[trigger] reaches(&p0, e, b) implies before.blocks@[b.0 as int]
                    == p0.blocks@[b.0 as int] by {
                    assert(block_ok(&p0, b));
                    assert(body_reaches(&p0, cn, b));
                    if reached_from_bodies(&p0, key_nats.take(t as int), b.0 as int) {
                        let i = choose|i: int|
                            0 <= i < key_nats.take(t as int).len() && #[trigger] body_reaches(
                                &p0,
                                key_nats.take(t as int)[i],
                                BlockId((b.0 as int) as u32),
                            );
                        assert(BlockId((b.0 as int) as u32) == b);
                        assert(key_nats[i] < key_nats[t as int]);
                        assert(false);
                    }
                }
                crate::utils::lemma_reaches_same(&p0, &before, e);
                assert forall|b: BlockId, j: int|
                    reaches(&before, e, b) && 0 <= j < before.blocks.at(b.0 as nat).0@.len()
                        implies !is_memory_instruction(#[trigger] before.blocks.at(b.0 as nat).0@[j]) by {
                    assert(reaches(&p0, e, b));
                    assert(body_reaches(&p0, cn, b));
                    assert(before.blocks@[b.0 as int] == p0.blocks@[b.0 as int]);
                    assert(!is_memory_instruction(p0.blocks.at(b.0 as nat).0@[j]));
                }
                assert(reach_set(&before, e) =~= reach_set(&p0, e));
                lemma_alloca_budget_step(&p0, &before, key_nats, t as int, e);
                assert(nb + budget_sum(&before, reach_set(&before, e), before.blocks@.len()) <= u32::MAX);
            }
        }
        process_callable(program, c, &mut next_var_id);
        proof {
            let after = *program;
            let na = next_var_id.0 as nat;
            let old_progs = progs;
            let old_nexts = nexts;
            progs = progs.push(after);
            nexts = nexts.push(na);
            let ids_t1 = key_nats.take(t + 1);
            assert(ids_t1.drop_last() =~= ids_t);
            assert(ids_t1[t as int] == cn);
            assert(chain_step(&p0, cn, before, after, nb, na));
            assert forall|u: int| 0 <= u < ids_t1.len() implies #[trigger] chain_step(
                &p0,
                ids_t1[u],
                progs[u],
                progs[u + 1],
                nexts[u],
                nexts[u + 1],
            ) by {
                if u < t {
                    assert(ids_t1[u] == ids_t[u]);
                    assert(progs[u] == old_progs[u]);
                    assert(progs[u + 1] == old_progs[u + 1]);
                    assert(nexts[u] == old_nexts[u]);
                    assert(nexts[u + 1] == old_nexts[u + 1]);
                } else {
                    assert(progs[u] == before);
                    assert(nexts[u] == nb);
                }
            }
            match before.callables.at(cn).body {
                None => {
                    assert forall|k: int|
                        0 <= k < bslots && !reached_from_bodies(&p0, ids_t1, k) implies #[trigger] after.blocks@[k]
                            == p0.blocks@[k] by {
                        if reached_from_bodies(&p0, ids_t, k) {
                            let i = choose|i: int|
                                0 <= i < ids_t.len() && #[trigger] body_reaches(&p0, ids_t[i], BlockId(k as u32));
                            assert(ids_t1[i] == ids_t[i]);
                        }
                    }
                    assert(reached_set(&p0, ids_t1) == reached_set(&p0, ids_t));
                },
                Some(e) => {
                    let order = choose|order: Seq<BlockId>|
                        #[trigger] visit_order_ok(&before, e, order) && processed_along(&before, &after, e, order, nb, na);
                    assert(processed_along(&before, &after, e, order, nb, na));
                    lemma_processed_keeps_successors(&before, &after, e, nb, na);
                    assert forall|k: nat| #[trigger] after.blocks.has(k) implies block_successors(after.blocks.at(k))
                        == block_successors(p0.blocks.at(k)) by {
                        assert(before.blocks.has(k));
                    }
                    assert forall|k: int|
                        0 <= k < bslots && !reached_from_bodies(&p0, ids_t1, k) implies #[trigger] after.blocks@[k]
                            == p0.blocks@[k] by {
                        if reached_from_bodies(&p0, ids_t, k) {
                            let i = choose|i: int|
                                0 <= i < ids_t.len() && #[trigger] body_reaches(&p0, ids_t[i], BlockId(k as u32));
                            assert(ids_t1[i] == ids_t[i]);
                        }
                        if order.contains(BlockId(k as u32)) {
                            assert(reaches(&before, e, BlockId(k as u32)));
                            assert(reaches(&p0, e, BlockId(k as u32)));
                            assert(body_reaches(&p0, ids_t1[t as int], BlockId(k as u32)));
                        }
                    }
                    assert(ids_t1 == ids_t.push(cn));
                },
            }
        }
    }
    proof {
        assert(key_nats.take(ids@.len() as int) =~= key_nats);
        assert(alloca_chain(&p0, key_nats, progs, nexts));
        assert(is_first_free_variable(&p0, nexts[0]));
    }
}

/// The two operands of a binary instruction are the two values it reads, the left one first.
pub proof fn lemma_binary_operands_are_read(i: Instruction)
    ensures
        binary_operands(i) matches Some((a, b)) ==> operands_read(i) == seq![a, b],
        unary_operand(i) matches Some(a) ==> operands_read(i) == seq![a],
{
}

/// Giving a binary instruction new operands `a` and `b` puts `a` in the left place and `b` in
/// the right one and changes nothing else; giving it back its own operands gives the
/// instruction itself. The same holds of the single operand of a unary instruction.
pub proof fn lemma_operands_replaced_in_place(i: Instruction, a: Operand, b: Operand)
    ensures
        binary_operands(i) is Some ==> {
            &&& same_shape(i, with_binary_operands(i, a, b))
            &&& operands_read(with_binary_operands(i, a, b)) == seq![a, b]
            &&& binary_operands(with_binary_operands(i, a, b)) == Some((a, b))
        },
        binary_operands(i) matches Some((x, y)) ==> with_binary_operands(i, x, y) == i,
        unary_operand(i) is Some ==> {
            &&& same_shape(i, with_unary_operand(i, a))
            &&& operands_read(with_unary_operand(i, a)) == seq![a]
            &&& unary_operand(with_unary_operand(i, a)) == Some(a)
            &&& with_unary_operand(i, unary_operand(i)->0) == i
        },
{
}

/// The pass rewrites a binary instruction in place: the instruction it writes is the same
/// operation into the same variable, reading on the left the value (loaded if need be) of the
/// original left operand and on the right that of the original right operand, the left one
/// taken first.
pub proof fn lemma_binary_step_in_place(s: AllocaState, i: Instruction)
    requires
        binary_operands(i) is Some,
    ensures
        ({
            let (a, b) = binary_operands(i)->0;
            let (s1, a2) = map_or_load_operand(s, a);
            let (s2, b2) = map_or_load_operand(s1, b);
            let t = alloca_step(s, i);
            &&& t.out.len() == s2.out.len() + 1
            &&& t.out.take(s2.out.len() as int) == s2.out
            &&& same_shape(i, t.out.last())
            &&& operands_read(t.out.last()) == seq![a2, b2]
        }),
{
    let (a, b) = binary_operands(i)->0;
    let (s1, a2) = map_or_load_operand(s, a);
    let (s2, b2) = map_or_load_operand(s1, b);
    lemma_operands_replaced_in_place(i, a2, b2);
    assert(alloca_step(s, i).out == s2.out.push(with_binary_operands(i, a2, b2)));
    assert(s2.out.push(with_binary_operands(i, a2, b2)).take(s2.out.len() as int) =~= s2.out);
}

/// The pass rewrites an instruction with one operand in place as well: the same operation into
/// the same variable, reading the value (loaded if need be) of its original operand.
pub proof fn lemma_unary_step_in_place(s: AllocaState, i: Instruction)
    requires
        unary_operand(i) is Some,
    ensures
        ({
            let (s1, a2) = map_or_load_operand(s, unary_operand(i)->0);
            let t = alloca_step(s, i);
            &&& t.out.len() == s1.out.len() + 1
            &&& t.out.take(s1.out.len() as int) == s1.out
            &&& same_shape(i, t.out.last())
            &&& operands_read(t.out.last()) == seq![a2]
        }),
{
    let (s1, a2) = map_or_load_operand(s, unary_operand(i)->0);
    lemma_operands_replaced_in_place(i, a2, a2);
    assert(binary_operands(i) is None);
    assert(alloca_step(s, i).out == s1.out.push(with_unary_operand(i, a2)));
    assert(s1.out.push(with_unary_operand(i, a2)).take(s1.out.len() as int) =~= s1.out);
}

} // verus!
