use qsc_rir_verified::builder::{two_body_program, two_body_program_with_loop};
use qsc_rir_verified::fx::OperandMap;
use qsc_rir_verified::index_map::IndexMap;
use qsc_rir_verified::insert_alloca_load::insert_alloca_load_instrs;
use qsc_rir_verified::remap_block_ids::remap_block_ids;
use qsc_rir_verified::rir::{
    Block, BlockId, CallableId, Instruction, Literal, Operand, Program, Variable, VariableId,
};
use qsc_rir_verified::ssa_transform::{ensure_acyclic, transform_to_ssa};
use qsc_rir_verified::utils::{
    build_predecessors_map, checked_next_variable_id, get_all_block_successors,
    get_block_successors, map_variable_use_in_block, next_variable_id,
};

fn ivar(id: u32) -> Variable {
    Variable::new_integer(VariableId(id))
}

fn boolean(id: u32) -> Variable {
    Variable::new_boolean(VariableId(id))
}

/// A diamond whose blocks are numbered out of control-flow order: 0 branches to 3 and 1, both
/// of which jump to 2.
fn scrambled_diamond() -> Program {
    Program::with_blocks(vec![
        (
            BlockId(0),
            Block(vec![
                Instruction::Call(CallableId(1), Vec::new(), Some(boolean(0)), None),
                Instruction::Branch(boolean(0), BlockId(3), BlockId(1), None),
            ]),
        ),
        (
            BlockId(1),
            Block(vec![
                Instruction::Store(Operand::Literal(Literal::Integer(1)), ivar(1)),
                Instruction::Jump(BlockId(2)),
            ]),
        ),
        (
            BlockId(2),
            Block(vec![Instruction::Return(Some(Operand::Variable(ivar(1))))]),
        ),
        (
            BlockId(3),
            Block(vec![
                Instruction::Store(Operand::Literal(Literal::Integer(2)), ivar(1)),
                Instruction::Jump(BlockId(2)),
            ]),
        ),
    ])
}

#[test]
fn block_successors_follow_the_terminator() {
    let program = scrambled_diamond();
    assert_eq!(
        get_block_successors(program.get_block(BlockId(0))),
        vec![BlockId(3), BlockId(1)]
    );
    assert_eq!(
        get_block_successors(program.get_block(BlockId(1))),
        vec![BlockId(2)]
    );
    assert!(get_block_successors(program.get_block(BlockId(2))).is_empty());
    let mut all = get_all_block_successors(BlockId(0), &program);
    all.sort();
    assert_eq!(all, vec![BlockId(1), BlockId(2), BlockId(3)]);
    assert!(get_all_block_successors(BlockId(2), &program).is_empty());
}

#[test]
fn predecessors_map_lists_every_edge() {
    let program = scrambled_diamond();
    let preds = build_predecessors_map(&program);
    assert!(!preds.contains_key(BlockId(0)));
    assert_eq!(preds.get(BlockId(1)), Some(&vec![BlockId(0)]));
    assert_eq!(preds.get(BlockId(3)), Some(&vec![BlockId(0)]));
    let mut into_exit = preds.get(BlockId(2)).unwrap().clone();
    into_exit.sort();
    assert_eq!(into_exit, vec![BlockId(1), BlockId(3)]);
}

#[test]
fn next_variable_id_is_past_every_assignment() {
    let program = scrambled_diamond();
    assert_eq!(next_variable_id(&program), VariableId(2));
    let empty = Program::new();
    assert_eq!(next_variable_id(&empty), VariableId(0));
}

#[test]
fn remap_numbers_a_diamond_topologically() {
    let mut program = scrambled_diamond();
    remap_block_ids(&mut program);
    assert_eq!(
        program.blocks.keys(),
        vec![BlockId(0), BlockId(1), BlockId(2), BlockId(3)]
    );
    assert_eq!(
        program.get_block(BlockId(0)).0[1],
        Instruction::Branch(boolean(0), BlockId(1), BlockId(2), None)
    );
    assert_eq!(
        program.get_block(BlockId(1)),
        &Block(vec![
            Instruction::Store(Operand::Literal(Literal::Integer(2)), ivar(1)),
            Instruction::Jump(BlockId(3)),
        ])
    );
    assert_eq!(
        program.get_block(BlockId(2)),
        &Block(vec![
            Instruction::Store(Operand::Literal(Literal::Integer(1)), ivar(1)),
            Instruction::Jump(BlockId(3)),
        ])
    );
    assert_eq!(
        program.get_block(BlockId(3)),
        &Block(vec![Instruction::Return(Some(Operand::Variable(ivar(1))))])
    );
    assert_eq!(program.get_callable(CallableId(0)).body, Some(BlockId(0)));
    // Every edge now goes to a higher id.
    for id in program.blocks.keys() {
        for succ in get_block_successors(program.get_block(id)) {
            assert!(id < succ);
        }
    }
}

#[test]
fn remap_keeps_the_bodies_of_two_callables_apart() {
    let mut program = two_body_program();
    remap_block_ids(&mut program);
    let ids = program.blocks.keys();
    for (index, id) in ids.iter().enumerate() {
        assert_eq!(id.0 as usize, index);
    }
    let entry = program.get_callable(CallableId(0)).body.unwrap();
    let helper = program.get_callable(CallableId(1)).body.unwrap();
    assert_eq!(entry, BlockId(0));
    assert_ne!(entry, helper);
}

#[test]
fn acyclic_guard_tells_loops_apart() {
    // The guard asks every predecessor to have a lower id, so a diamond passes only once its
    // blocks are numbered in control-flow order.
    let mut diamond = scrambled_diamond();
    assert!(!ensure_acyclic(&build_predecessors_map(&diamond)));
    remap_block_ids(&mut diamond);
    assert!(ensure_acyclic(&build_predecessors_map(&diamond)));
    let looping = two_body_program_with_loop();
    assert!(!ensure_acyclic(&build_predecessors_map(&looping)));
}

#[test]
fn ssa_turns_the_diamond_stores_into_a_phi() {
    let mut program = scrambled_diamond();
    remap_block_ids(&mut program);
    let preds = build_predecessors_map(&program);
    transform_to_ssa(&mut program, &preds);
    assert_eq!(
        program.get_block(BlockId(1)),
        &Block(vec![Instruction::Jump(BlockId(3))])
    );
    assert_eq!(
        program.get_block(BlockId(3)),
        &Block(vec![
            Instruction::Phi(
                vec![
                    (Operand::Literal(Literal::Integer(2)), BlockId(1)),
                    (Operand::Literal(Literal::Integer(1)), BlockId(2)),
                ],
                ivar(2),
            ),
            Instruction::Return(Some(Operand::Variable(ivar(2)))),
        ])
    );
    for id in program.blocks.keys() {
        assert!(program
            .get_block(id)
            .0
            .iter()
            .all(|instr| !matches!(instr, Instruction::Store(..))));
    }
}

#[test]
fn alloca_load_leaves_blocks_of_no_body_alone() {
    let mut program = scrambled_diamond();
    program.blocks.insert(
        BlockId(4),
        Block(vec![
            Instruction::Store(Operand::Literal(Literal::Integer(7)), ivar(5)),
            Instruction::Return(Some(Operand::Variable(ivar(5)))),
        ]),
    );
    insert_alloca_load_instrs(&mut program);
    assert_eq!(
        program.get_block(BlockId(4)),
        &Block(vec![
            Instruction::Store(Operand::Literal(Literal::Integer(7)), ivar(5)),
            Instruction::Return(Some(Operand::Variable(ivar(5)))),
        ])
    );
    assert_eq!(
        program.get_block(BlockId(0)).0[0],
        Instruction::Alloca(ivar(1))
    );
    assert_eq!(
        program.get_block(BlockId(2)),
        &Block(vec![
            Instruction::Load(ivar(1), ivar(7)),
            Instruction::Return(Some(Operand::Variable(ivar(7)))),
        ])
    );
}

#[test]
fn variable_uses_follow_stores_and_chains_of_the_map() {
    let mut block = Block(vec![
        Instruction::Store(Operand::Literal(Literal::Integer(5)), ivar(1)),
        Instruction::Add(Operand::Variable(ivar(1)), Operand::Variable(ivar(1)), ivar(2)),
        Instruction::LogicalNot(Operand::Variable(boolean(3)), boolean(6)),
        Instruction::Return(None),
    ]);
    let mut var_map = OperandMap::new();
    var_map.insert(3, Operand::Variable(boolean(4)));
    var_map.insert(4, Operand::Variable(boolean(7)));
    map_variable_use_in_block(&mut block, &mut var_map);
    assert_eq!(
        block,
        Block(vec![
            Instruction::Add(
                Operand::Literal(Literal::Integer(5)),
                Operand::Literal(Literal::Integer(5)),
                ivar(2)
            ),
            Instruction::LogicalNot(Operand::Variable(boolean(7)), boolean(6)),
            Instruction::Return(None),
        ])
    );
    assert_eq!(var_map.get(1), Some(Operand::Literal(Literal::Integer(5))));
    assert_eq!(var_map.get(2), None);
    assert_eq!(var_map.len(), 3);
}

#[test]
fn index_map_holds_what_was_inserted() {
    let mut map: IndexMap<BlockId, u32> = IndexMap::new();
    map.insert(BlockId(3), 30);
    map.insert(BlockId(1), 10);
    assert_eq!(map.get(BlockId(3)), Some(&30));
    assert_eq!(map.get(BlockId(2)), None);
    assert_eq!(map.keys(), vec![BlockId(1), BlockId(3)]);
    assert_eq!(map.remove(BlockId(3)), Some(30));
    assert!(!map.contains_key(BlockId(3)));
    assert_eq!(map.keys(), vec![BlockId(1)]);
}

#[test]
fn alloca_load_loads_the_result_of_an_index() {
    let element = Variable::new_ptr(VariableId(1));
    let mut program = Program::with_blocks(vec![(
        BlockId(0),
        Block(vec![
            Instruction::Index(
                Operand::Literal(Literal::Array(0)),
                Operand::Literal(Literal::Integer(1)),
                element,
            ),
            Instruction::Call(
                CallableId(1),
                vec![Operand::Variable(element)],
                None,
                None,
            ),
            Instruction::Return(None),
        ]),
    )]);
    insert_alloca_load_instrs(&mut program);
    let loaded = Variable::new_ptr(VariableId(2));
    assert_eq!(
        program.get_block(BlockId(0)),
        &Block(vec![
            Instruction::Index(
                Operand::Literal(Literal::Array(0)),
                Operand::Literal(Literal::Integer(1)),
                element,
            ),
            Instruction::Load(element, loaded),
            Instruction::Call(
                CallableId(1),
                vec![Operand::Variable(loaded)],
                None,
                None,
            ),
            Instruction::Return(None),
        ])
    );
}

#[test]
fn checked_next_variable_id_refuses_the_last_number() {
    let program = scrambled_diamond();
    assert_eq!(checked_next_variable_id(&program), Some(VariableId(2)));
    let full = Program::with_blocks(vec![(
        BlockId(0),
        Block(vec![
            Instruction::Store(Operand::Literal(Literal::Integer(1)), ivar(u32::MAX)),
            Instruction::Return(None),
        ]),
    )]);
    assert_eq!(checked_next_variable_id(&full), None);
}
