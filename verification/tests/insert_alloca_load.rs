use qsc_rir_verified::insert_alloca_load::insert_alloca_load_instrs;
use qsc_rir_verified::rir::{
    Block, BlockId, CallableId, Instruction, Literal, Operand, Prim, Program, Ty, Variable,
    VariableId,
};

#[test]
fn inserts_alloca_and_load_for_branch_and_call() {
    let stored_var = Variable::new_boolean(VariableId(0));
    let mut program = Program::with_blocks(vec![
        (
            BlockId(0),
            Block(vec![
                Instruction::Store(Operand::Literal(Literal::Bool(true)), stored_var),
                Instruction::Call(
                    CallableId(1),
                    vec![Operand::Variable(stored_var)],
                    None,
                    None,
                ),
                Instruction::Branch(stored_var, BlockId(1), BlockId(2), None),
            ]),
        ),
        (BlockId(1), Block(vec![Instruction::Return(None)])),
        (BlockId(2), Block(vec![Instruction::Return(None)])),
    ]);

    // Before
    assert_eq!(program.get_block(BlockId(0)), &Block(vec![
        Instruction::Store(Operand::Literal(Literal::Bool(true)), Variable { variable_id: VariableId(0), ty: Ty::Prim(Prim::Boolean) }),
        Instruction::Call(CallableId(1), vec![Operand::Variable(Variable { variable_id: VariableId(0), ty: Ty::Prim(Prim::Boolean) })], None, None),
        Instruction::Branch(Variable { variable_id: VariableId(0), ty: Ty::Prim(Prim::Boolean) }, BlockId(1), BlockId(2), None),
    ]));

    insert_alloca_load_instrs(&mut program);

    // After
    assert_eq!(program.get_block(BlockId(0)), &Block(vec![
        Instruction::Alloca(Variable { variable_id: VariableId(0), ty: Ty::Prim(Prim::Boolean) }),
        Instruction::Store(Operand::Literal(Literal::Bool(true)), Variable { variable_id: VariableId(0), ty: Ty::Prim(Prim::Boolean) }),
        Instruction::Load(Variable { variable_id: VariableId(0), ty: Ty::Prim(Prim::Boolean) }, Variable { variable_id: VariableId(2), ty: Ty::Prim(Prim::Boolean) }),
        Instruction::Call(CallableId(1), vec![Operand::Variable(Variable { variable_id: VariableId(2), ty: Ty::Prim(Prim::Boolean) })], None, None),
        Instruction::Branch(Variable { variable_id: VariableId(2), ty: Ty::Prim(Prim::Boolean) }, BlockId(1), BlockId(2), None),
    ]));
}

#[test]
fn reuses_single_load_within_block() {
    let stored_var = Variable::new_integer(VariableId(0));
    let sum_var = Variable::new_integer(VariableId(1));
    let mut program = Program::with_blocks(vec![(
        BlockId(0),
        Block(vec![
            Instruction::Store(Operand::Literal(Literal::Integer(5)), stored_var),
            Instruction::Add(
                Operand::Variable(stored_var),
                Operand::Variable(stored_var),
                sum_var,
            ),
            Instruction::Call(
                CallableId(1),
                vec![Operand::Variable(stored_var)],
                None,
                None,
            ),
            Instruction::Return(None),
        ]),
    )]);

    // Before
    assert_eq!(program.get_block(BlockId(0)), &Block(vec![
        Instruction::Store(Operand::Literal(Literal::Integer(5)), Variable { variable_id: VariableId(0), ty: Ty::Prim(Prim::Integer) }),
        Instruction::Add(Operand::Variable(Variable { variable_id: VariableId(0), ty: Ty::Prim(Prim::Integer) }), Operand::Variable(Variable { variable_id: VariableId(0), ty: Ty::Prim(Prim::Integer) }), Variable { variable_id: VariableId(1), ty: Ty::Prim(Prim::Integer) }),
        Instruction::Call(CallableId(1), vec![Operand::Variable(Variable { variable_id: VariableId(0), ty: Ty::Prim(Prim::Integer) })], None, None),
        Instruction::Return(None),
    ]));

    insert_alloca_load_instrs(&mut program);

    let block = program.get_block(BlockId(0));
    let load_count = block
        .0
        .iter()
        .filter(|instr| matches!(instr, Instruction::Load(..)))
        .count();
    assert_eq!(
        load_count, 1,
        "expected a single load for all uses within the block"
    );

    // After
    assert_eq!(block, &Block(vec![
        Instruction::Alloca(Variable { variable_id: VariableId(0), ty: Ty::Prim(Prim::Integer) }),
        Instruction::Store(Operand::Literal(Literal::Integer(5)), Variable { variable_id: VariableId(0), ty: Ty::Prim(Prim::Integer) }),
        Instruction::Load(Variable { variable_id: VariableId(0), ty: Ty::Prim(Prim::Integer) }, Variable { variable_id: VariableId(3), ty: Ty::Prim(Prim::Integer) }),
        Instruction::Add(Operand::Variable(Variable { variable_id: VariableId(3), ty: Ty::Prim(Prim::Integer) }), Operand::Variable(Variable { variable_id: VariableId(3), ty: Ty::Prim(Prim::Integer) }), Variable { variable_id: VariableId(1), ty: Ty::Prim(Prim::Integer) }),
        Instruction::Call(CallableId(1), vec![Operand::Variable(Variable { variable_id: VariableId(3), ty: Ty::Prim(Prim::Integer) })], None, None),
        Instruction::Return(None),
    ]));
}

#[test]
fn inserts_load_in_successor_block() {
    let stored_var = Variable::new_boolean(VariableId(0));
    let result_var = Variable::new_boolean(VariableId(1));
    let mut program = Program::with_blocks(vec![
        (
            BlockId(0),
            Block(vec![
                Instruction::Store(Operand::Literal(Literal::Bool(false)), stored_var),
                Instruction::Jump(BlockId(1)),
            ]),
        ),
        (
            BlockId(1),
            Block(vec![
                Instruction::LogicalNot(Operand::Variable(stored_var), result_var),
                Instruction::Return(None),
            ]),
        ),
    ]);

    // Before
    assert_eq!(program.get_block(BlockId(0)), &Block(vec![
        Instruction::Store(Operand::Literal(Literal::Bool(false)), Variable { variable_id: VariableId(0), ty: Ty::Prim(Prim::Boolean) }),
        Instruction::Jump(BlockId(1)),
    ]));
    assert_eq!(program.get_block(BlockId(1)), &Block(vec![
        Instruction::LogicalNot(Operand::Variable(Variable { variable_id: VariableId(0), ty: Ty::Prim(Prim::Boolean) }), Variable { variable_id: VariableId(1), ty: Ty::Prim(Prim::Boolean) }),
        Instruction::Return(None),
    ]));

    insert_alloca_load_instrs(&mut program);

    // After block 0
    assert_eq!(program.get_block(BlockId(0)), &Block(vec![
        Instruction::Alloca(Variable { variable_id: VariableId(0), ty: Ty::Prim(Prim::Boolean) }),
        Instruction::Store(Operand::Literal(Literal::Bool(false)), Variable { variable_id: VariableId(0), ty: Ty::Prim(Prim::Boolean) }),
        Instruction::Jump(BlockId(1)),
    ]));

    // After block 1
    assert_eq!(program.get_block(BlockId(1)), &Block(vec![
        Instruction::Load(Variable { variable_id: VariableId(0), ty: Ty::Prim(Prim::Boolean) }, Variable { variable_id: VariableId(3), ty: Ty::Prim(Prim::Boolean) }),
        Instruction::LogicalNot(Operand::Variable(Variable { variable_id: VariableId(3), ty: Ty::Prim(Prim::Boolean) }), Variable { variable_id: VariableId(1), ty: Ty::Prim(Prim::Boolean) }),
        Instruction::Return(None),
    ]));
}

#[test]
fn leaves_unrelated_operands_unloaded() {
    let stored_var = Variable::new_boolean(VariableId(0));
    let unrelated_var = Variable::new_boolean(VariableId(1));
    let mut program = Program::with_blocks(vec![(
        BlockId(0),
        Block(vec![
            Instruction::Store(Operand::Literal(Literal::Bool(true)), stored_var),
            Instruction::Call(
                CallableId(1),
                vec![Operand::Variable(unrelated_var)],
                None,
                None,
            ),
            Instruction::Return(None),
        ]),
    )]);

    // Before
    assert_eq!(program.get_block(BlockId(0)), &Block(vec![
        Instruction::Store(Operand::Literal(Literal::Bool(true)), Variable { variable_id: VariableId(0), ty: Ty::Prim(Prim::Boolean) }),
        Instruction::Call(CallableId(1), vec![Operand::Variable(Variable { variable_id: VariableId(1), ty: Ty::Prim(Prim::Boolean) })], None, None),
        Instruction::Return(None),
    ]));

    insert_alloca_load_instrs(&mut program);

    let block = program.get_block(BlockId(0));
    assert!(
        block
            .0
            .iter()
            .all(|instr| !matches!(instr, Instruction::Load(..))),
        "no loads should be inserted for operands unrelated to stored variables",
    );

    // After
    assert_eq!(block, &Block(vec![
        Instruction::Alloca(Variable { variable_id: VariableId(0), ty: Ty::Prim(Prim::Boolean) }),
        Instruction::Store(Operand::Literal(Literal::Bool(true)), Variable { variable_id: VariableId(0), ty: Ty::Prim(Prim::Boolean) }),
        Instruction::Call(CallableId(1), vec![Operand::Variable(Variable { variable_id: VariableId(1), ty: Ty::Prim(Prim::Boolean) })], None, None),
        Instruction::Return(None),
    ]));
}

#[test]
fn inserts_load_before_value_return_in_successor_block() {
    let stored_var = Variable::new_integer(VariableId(0));
    let mut program = Program::with_blocks(vec![
        (
            BlockId(0),
            Block(vec![
                Instruction::Store(Operand::Literal(Literal::Integer(5)), stored_var),
                Instruction::Jump(BlockId(1)),
            ]),
        ),
        (
            BlockId(1),
            Block(vec![Instruction::Return(Some(Operand::Variable(
                stored_var,
            )))]),
        ),
    ]);

    // Before
    assert_eq!(program.get_block(BlockId(0)), &Block(vec![
        Instruction::Store(Operand::Literal(Literal::Integer(5)), Variable { variable_id: VariableId(0), ty: Ty::Prim(Prim::Integer) }),
        Instruction::Jump(BlockId(1)),
    ]));
    assert_eq!(program.get_block(BlockId(1)), &Block(vec![
        Instruction::Return(Some(Operand::Variable(Variable { variable_id: VariableId(0), ty: Ty::Prim(Prim::Integer) }))),
    ]));

    insert_alloca_load_instrs(&mut program);

    // After block 0
    assert_eq!(program.get_block(BlockId(0)), &Block(vec![
        Instruction::Alloca(Variable { variable_id: VariableId(0), ty: Ty::Prim(Prim::Integer) }),
        Instruction::Store(Operand::Literal(Literal::Integer(5)), Variable { variable_id: VariableId(0), ty: Ty::Prim(Prim::Integer) }),
        Instruction::Jump(BlockId(1)),
    ]));

    // After block 1: a load is inserted before the return and the return
    // operand is rewritten to the loaded variable.
    assert_eq!(program.get_block(BlockId(1)), &Block(vec![
        Instruction::Load(Variable { variable_id: VariableId(0), ty: Ty::Prim(Prim::Integer) }, Variable { variable_id: VariableId(2), ty: Ty::Prim(Prim::Integer) }),
        Instruction::Return(Some(Operand::Variable(Variable { variable_id: VariableId(2), ty: Ty::Prim(Prim::Integer) }))),
    ]));
}

#[test]
fn block_budget_counts_the_variables_each_instruction_may_take() {
    let v0 = Variable::new_integer(VariableId(0));
    let v1 = Variable::new_integer(VariableId(1));
    let block = Block(vec![
        Instruction::Store(Operand::Literal(Literal::Integer(3)), v0),
        Instruction::Call(
            CallableId(1),
            vec![
                Operand::Variable(v0),
                Operand::Variable(v0),
                Operand::Literal(Literal::Integer(1)),
            ],
            None,
            None,
        ),
        Instruction::Add(Operand::Variable(v0), Operand::Literal(Literal::Integer(2)), v1),
        Instruction::Return(Some(Operand::Variable(v1))),
    ]);
    assert_eq!(qsc_rir_verified::insert_alloca_load::block_budget(&block), 8);
    assert_eq!(
        qsc_rir_verified::insert_alloca_load::block_budget(&Block(vec![Instruction::Return(None)])),
        0
    );
}
