use qsc_rir_verified::builder::{
    bell_program, new_program, teleport_program, two_body_mutable_param_program, two_body_program,
    two_body_program_with_branch, two_body_program_with_loop,
};
use qsc_rir_verified::remap_block_ids::remap_block_ids;
use qsc_rir_verified::rir::{
    Block, BlockId, Callable, CallableId, CallableType, Instruction, Literal, Operand, Prim,
    Program, Ty, Variable, VariableId,
};
use qsc_rir_verified::ssa_transform::{ensure_acyclic, transform_to_ssa};
use qsc_rir_verified::target::{Profile, TargetCapabilityFlags};
use qsc_rir_verified::utils::{build_predecessors_map, get_block_successors};

/// Runs the passes of the default pipeline that lead to SSA form on a target with the
/// `AdaptiveRIF` profile: straight-line jump chains are joined, the blocks are renumbered in
/// control-flow order, then the stores are replaced by SSA values and phi nodes.
fn transform_program(program: &mut Program) {
    program.config.capabilities = TargetCapabilityFlags::from_profile(Profile::AdaptiveRIF);
    join_jump_chains(program);
    remap_block_ids(program);
    transform_to_ssa_directly(program);
}

/// Joins each block that ends in a jump with the block it jumps to, when nothing else leads
/// there and that block is no callable's entry, until no such pair is left.
fn join_jump_chains(program: &mut Program) {
    loop {
        let ids = program.blocks.keys();
        let entries: Vec<BlockId> = program
            .all_callable_ids()
            .into_iter()
            .filter_map(|id| program.get_callable(id).body)
            .collect();
        let mut joined = false;
        for &id in &ids {
            let Some(Instruction::Jump(target)) = program.get_block(id).0.last().cloned() else {
                continue;
            };
            let incoming = ids
                .iter()
                .filter(|&&other| get_block_successors(program.get_block(other)).contains(&target))
                .count();
            if target == id || incoming != 1 || entries.contains(&target) {
                continue;
            }
            let tail = program.blocks.remove(target).expect("jump target should be present");
            let block = program.get_block_mut(id);
            block.0.pop();
            block.0.extend(tail.0);
            joined = true;
            break;
        }
        if !joined {
            return;
        }
    }
}

/// Runs only the store-to-SSA transform, with the predecessor map built from the program. A
/// control flow graph with a cycle is refused before the transform runs.
fn transform_to_ssa_directly(program: &mut Program) {
    let preds = build_predecessors_map(program);
    assert!(ensure_acyclic(&preds), "the control flow graph has a cycle");
    transform_to_ssa(program, &preds);
}

/// The callables and the blocks of a program, in ascending order of id.
fn snapshot(program: &Program) -> (Vec<Callable>, Vec<BlockId>, Vec<Block>) {
    let callables = program
        .all_callable_ids()
        .into_iter()
        .map(|id| program.get_callable(id).clone())
        .collect();
    let ids = program.blocks.keys();
    let blocks = ids.iter().map(|id| program.get_block(*id).clone()).collect();
    (callables, ids, blocks)
}

#[test]
fn ssa_transform_leaves_program_without_store_instruction_unchanged() {
    let mut program = bell_program();
    program.config.capabilities = TargetCapabilityFlags::from_profile(Profile::AdaptiveRIF);
    let before = snapshot(&program);
    transform_program(&mut program);

    assert_eq!(before, snapshot(&program));
}

#[test]
fn ssa_transform_leaves_branching_program_without_store_instruction_unchanged() {
    let mut program = teleport_program();
    program.config.capabilities = TargetCapabilityFlags::from_profile(Profile::AdaptiveRIF);
    let before = snapshot(&program);
    transform_program(&mut program);

    assert_eq!(before, snapshot(&program));
}

#[test]
fn ssa_transform_second_body_with_loop() {
    // A backward branch in a secondary body forms a cycle. The transform does not support cycles, so
    // the acyclic guard must reject the program even when the loop lives outside the entry body.
    let program = two_body_program_with_loop();
    let preds = build_predecessors_map(&program);

    assert!(!ensure_acyclic(&preds));
}

#[test]
fn ssa_transform_single_body_unchanged_regression() {
    // A single bodied program with no store instructions is left unchanged by the transform.
    let mut program = bell_program();
    program.config.capabilities = TargetCapabilityFlags::from_profile(Profile::AdaptiveRIF);
    let before = snapshot(&program);

    transform_to_ssa_directly(&mut program);

    assert_eq!(before, snapshot(&program));
}

#[test]
fn ssa_transform_removes_store_in_single_block_program() {
    let mut program = new_program();
    program.callables.insert(
        CallableId(1),
        Callable {
            name: "dynamic_bool".to_string(),
            input_type: Vec::new(),
            output_type: Some(Ty::Prim(Prim::Boolean)),
            body: None,
            input_vars: Vec::new(),
            call_type: CallableType::Regular,
        },
    );

    program.blocks.insert(
        BlockId(0),
        Block(vec![
            Instruction::Call(
                CallableId(1),
                Vec::new(),
                Some(Variable {
                    variable_id: VariableId(0),
                    ty: Ty::Prim(Prim::Boolean),
                }),
                None,
            ),
            Instruction::Store(
                Operand::Variable(Variable {
                    variable_id: VariableId(0),
                    ty: Ty::Prim(Prim::Boolean),
                }),
                Variable {
                    variable_id: VariableId(1),
                    ty: Ty::Prim(Prim::Boolean),
                },
            ),
            Instruction::LogicalNot(
                Operand::Variable(Variable {
                    variable_id: VariableId(1),
                    ty: Ty::Prim(Prim::Boolean),
                }),
                Variable {
                    variable_id: VariableId(2),
                    ty: Ty::Prim(Prim::Boolean),
                },
            ),
            Instruction::Return(None),
        ]),
    );

    // Before
    assert_eq!(program.entry, CallableId(0));
assert_eq!(program.config.capabilities, TargetCapabilityFlags::empty());
assert_eq!(program.num_qubits, 0);
assert_eq!(program.num_results, 0);
assert_eq!(program.all_callable_ids(), vec![CallableId(0), CallableId(1)]);
assert_eq!(program.get_callable(CallableId(0)).name, "main");
assert_eq!(program.get_callable(CallableId(0)).call_type, CallableType::Regular);
assert!(program.get_callable(CallableId(0)).input_type.is_empty());
assert!(program.get_callable(CallableId(0)).input_vars.is_empty());
assert_eq!(program.get_callable(CallableId(0)).output_type, Some(Ty::Prim(Prim::Integer)));
assert_eq!(program.get_callable(CallableId(0)).body, Some(BlockId(0)));
assert_eq!(program.get_callable(CallableId(1)).name, "dynamic_bool");
assert_eq!(program.get_callable(CallableId(1)).call_type, CallableType::Regular);
assert!(program.get_callable(CallableId(1)).input_type.is_empty());
assert!(program.get_callable(CallableId(1)).input_vars.is_empty());
assert_eq!(program.get_callable(CallableId(1)).output_type, Some(Ty::Prim(Prim::Boolean)));
assert_eq!(program.get_callable(CallableId(1)).body, None);
assert_eq!(program.blocks.keys(), vec![BlockId(0)]);
assert_eq!(program.get_block(BlockId(0)), &Block(vec![
        Instruction::Call(CallableId(1), Vec::new(), Some(Variable { variable_id: VariableId(0), ty: Ty::Prim(Prim::Boolean) }), None),
        Instruction::Store(Operand::Variable(Variable { variable_id: VariableId(0), ty: Ty::Prim(Prim::Boolean) }), Variable { variable_id: VariableId(1), ty: Ty::Prim(Prim::Boolean) }),
        Instruction::LogicalNot(Operand::Variable(Variable { variable_id: VariableId(1), ty: Ty::Prim(Prim::Boolean) }), Variable { variable_id: VariableId(2), ty: Ty::Prim(Prim::Boolean) }),
        Instruction::Return(None),
    ]));
assert!(program.tags.is_empty());

    // After
    transform_program(&mut program);
    assert_eq!(program.entry, CallableId(0));
assert_eq!(program.config.capabilities, TargetCapabilityFlags::adaptive().union(TargetCapabilityFlags::integer_computations()).union(TargetCapabilityFlags::floating_point_computations()));
assert_eq!(program.num_qubits, 0);
assert_eq!(program.num_results, 0);
assert_eq!(program.all_callable_ids(), vec![CallableId(0), CallableId(1)]);
assert_eq!(program.get_callable(CallableId(0)).name, "main");
assert_eq!(program.get_callable(CallableId(0)).call_type, CallableType::Regular);
assert!(program.get_callable(CallableId(0)).input_type.is_empty());
assert!(program.get_callable(CallableId(0)).input_vars.is_empty());
assert_eq!(program.get_callable(CallableId(0)).output_type, Some(Ty::Prim(Prim::Integer)));
assert_eq!(program.get_callable(CallableId(0)).body, Some(BlockId(0)));
assert_eq!(program.get_callable(CallableId(1)).name, "dynamic_bool");
assert_eq!(program.get_callable(CallableId(1)).call_type, CallableType::Regular);
assert!(program.get_callable(CallableId(1)).input_type.is_empty());
assert!(program.get_callable(CallableId(1)).input_vars.is_empty());
assert_eq!(program.get_callable(CallableId(1)).output_type, Some(Ty::Prim(Prim::Boolean)));
assert_eq!(program.get_callable(CallableId(1)).body, None);
assert_eq!(program.blocks.keys(), vec![BlockId(0)]);
assert_eq!(program.get_block(BlockId(0)), &Block(vec![
        Instruction::Call(CallableId(1), Vec::new(), Some(Variable { variable_id: VariableId(0), ty: Ty::Prim(Prim::Boolean) }), None),
        Instruction::LogicalNot(Operand::Variable(Variable { variable_id: VariableId(0), ty: Ty::Prim(Prim::Boolean) }), Variable { variable_id: VariableId(2), ty: Ty::Prim(Prim::Boolean) }),
        Instruction::Return(None),
    ]));
assert!(program.tags.is_empty());
}

#[test]
fn ssa_transform_removes_multiple_stores_in_single_block_program() {
    let mut program = new_program();
    program.callables.insert(
        CallableId(1),
        Callable {
            name: "dynamic_bool".to_string(),
            input_type: Vec::new(),
            output_type: Some(Ty::Prim(Prim::Boolean)),
            body: None,
            input_vars: Vec::new(),
            call_type: CallableType::Regular,
        },
    );

    program.blocks.insert(
        BlockId(0),
        Block(vec![
            Instruction::Call(
                CallableId(1),
                Vec::new(),
                Some(Variable {
                    variable_id: VariableId(0),
                    ty: Ty::Prim(Prim::Boolean),
                }),
                None,
            ),
            Instruction::Store(
                Operand::Variable(Variable {
                    variable_id: VariableId(0),
                    ty: Ty::Prim(Prim::Boolean),
                }),
                Variable {
                    variable_id: VariableId(1),
                    ty: Ty::Prim(Prim::Boolean),
                },
            ),
            Instruction::LogicalNot(
                Operand::Variable(Variable {
                    variable_id: VariableId(1),
                    ty: Ty::Prim(Prim::Boolean),
                }),
                Variable {
                    variable_id: VariableId(2),
                    ty: Ty::Prim(Prim::Boolean),
                },
            ),
            Instruction::Store(
                Operand::Variable(Variable {
                    variable_id: VariableId(2),
                    ty: Ty::Prim(Prim::Boolean),
                }),
                Variable {
                    variable_id: VariableId(1),
                    ty: Ty::Prim(Prim::Boolean),
                },
            ),
            Instruction::LogicalNot(
                Operand::Variable(Variable {
                    variable_id: VariableId(1),
                    ty: Ty::Prim(Prim::Boolean),
                }),
                Variable {
                    variable_id: VariableId(3),
                    ty: Ty::Prim(Prim::Boolean),
                },
            ),
            Instruction::Store(
                Operand::Variable(Variable {
                    variable_id: VariableId(3),
                    ty: Ty::Prim(Prim::Boolean),
                }),
                Variable {
                    variable_id: VariableId(1),
                    ty: Ty::Prim(Prim::Boolean),
                },
            ),
            Instruction::LogicalNot(
                Operand::Variable(Variable {
                    variable_id: VariableId(1),
                    ty: Ty::Prim(Prim::Boolean),
                }),
                Variable {
                    variable_id: VariableId(4),
                    ty: Ty::Prim(Prim::Boolean),
                },
            ),
            Instruction::Return(None),
        ]),
    );

    // Before
    assert_eq!(program.entry, CallableId(0));
assert_eq!(program.config.capabilities, TargetCapabilityFlags::empty());
assert_eq!(program.num_qubits, 0);
assert_eq!(program.num_results, 0);
assert_eq!(program.all_callable_ids(), vec![CallableId(0), CallableId(1)]);
assert_eq!(program.get_callable(CallableId(0)).name, "main");
assert_eq!(program.get_callable(CallableId(0)).call_type, CallableType::Regular);
assert!(program.get_callable(CallableId(0)).input_type.is_empty());
assert!(program.get_callable(CallableId(0)).input_vars.is_empty());
assert_eq!(program.get_callable(CallableId(0)).output_type, Some(Ty::Prim(Prim::Integer)));
assert_eq!(program.get_callable(CallableId(0)).body, Some(BlockId(0)));
assert_eq!(program.get_callable(CallableId(1)).name, "dynamic_bool");
assert_eq!(program.get_callable(CallableId(1)).call_type, CallableType::Regular);
assert!(program.get_callable(CallableId(1)).input_type.is_empty());
assert!(program.get_callable(CallableId(1)).input_vars.is_empty());
assert_eq!(program.get_callable(CallableId(1)).output_type, Some(Ty::Prim(Prim::Boolean)));
assert_eq!(program.get_callable(CallableId(1)).body, None);
assert_eq!(program.blocks.keys(), vec![BlockId(0)]);
assert_eq!(program.get_block(BlockId(0)), &Block(vec![
        Instruction::Call(CallableId(1), Vec::new(), Some(Variable { variable_id: VariableId(0), ty: Ty::Prim(Prim::Boolean) }), None),
        Instruction::Store(Operand::Variable(Variable { variable_id: VariableId(0), ty: Ty::Prim(Prim::Boolean) }), Variable { variable_id: VariableId(1), ty: Ty::Prim(Prim::Boolean) }),
        Instruction::LogicalNot(Operand::Variable(Variable { variable_id: VariableId(1), ty: Ty::Prim(Prim::Boolean) }), Variable { variable_id: VariableId(2), ty: Ty::Prim(Prim::Boolean) }),
        Instruction::Store(Operand::Variable(Variable { variable_id: VariableId(2), ty: Ty::Prim(Prim::Boolean) }), Variable { variable_id: VariableId(1), ty: Ty::Prim(Prim::Boolean) }),
        Instruction::LogicalNot(Operand::Variable(Variable { variable_id: VariableId(1), ty: Ty::Prim(Prim::Boolean) }), Variable { variable_id: VariableId(3), ty: Ty::Prim(Prim::Boolean) }),
        Instruction::Store(Operand::Variable(Variable { variable_id: VariableId(3), ty: Ty::Prim(Prim::Boolean) }), Variable { variable_id: VariableId(1), ty: Ty::Prim(Prim::Boolean) }),
        Instruction::LogicalNot(Operand::Variable(Variable { variable_id: VariableId(1), ty: Ty::Prim(Prim::Boolean) }), Variable { variable_id: VariableId(4), ty: Ty::Prim(Prim::Boolean) }),
        Instruction::Return(None),
    ]));
assert!(program.tags.is_empty());

    // After
    transform_program(&mut program);
    assert_eq!(program.entry, CallableId(0));
assert_eq!(program.config.capabilities, TargetCapabilityFlags::adaptive().union(TargetCapabilityFlags::integer_computations()).union(TargetCapabilityFlags::floating_point_computations()));
assert_eq!(program.num_qubits, 0);
assert_eq!(program.num_results, 0);
assert_eq!(program.all_callable_ids(), vec![CallableId(0), CallableId(1)]);
assert_eq!(program.get_callable(CallableId(0)).name, "main");
assert_eq!(program.get_callable(CallableId(0)).call_type, CallableType::Regular);
assert!(program.get_callable(CallableId(0)).input_type.is_empty());
assert!(program.get_callable(CallableId(0)).input_vars.is_empty());
assert_eq!(program.get_callable(CallableId(0)).output_type, Some(Ty::Prim(Prim::Integer)));
assert_eq!(program.get_callable(CallableId(0)).body, Some(BlockId(0)));
assert_eq!(program.get_callable(CallableId(1)).name, "dynamic_bool");
assert_eq!(program.get_callable(CallableId(1)).call_type, CallableType::Regular);
assert!(program.get_callable(CallableId(1)).input_type.is_empty());
assert!(program.get_callable(CallableId(1)).input_vars.is_empty());
assert_eq!(program.get_callable(CallableId(1)).output_type, Some(Ty::Prim(Prim::Boolean)));
assert_eq!(program.get_callable(CallableId(1)).body, None);
assert_eq!(program.blocks.keys(), vec![BlockId(0)]);
assert_eq!(program.get_block(BlockId(0)), &Block(vec![
        Instruction::Call(CallableId(1), Vec::new(), Some(Variable { variable_id: VariableId(0), ty: Ty::Prim(Prim::Boolean) }), None),
        Instruction::LogicalNot(Operand::Variable(Variable { variable_id: VariableId(0), ty: Ty::Prim(Prim::Boolean) }), Variable { variable_id: VariableId(2), ty: Ty::Prim(Prim::Boolean) }),
        Instruction::LogicalNot(Operand::Variable(Variable { variable_id: VariableId(2), ty: Ty::Prim(Prim::Boolean) }), Variable { variable_id: VariableId(3), ty: Ty::Prim(Prim::Boolean) }),
        Instruction::LogicalNot(Operand::Variable(Variable { variable_id: VariableId(3), ty: Ty::Prim(Prim::Boolean) }), Variable { variable_id: VariableId(4), ty: Ty::Prim(Prim::Boolean) }),
        Instruction::Return(None),
    ]));
assert!(program.tags.is_empty());
}

#[test]
fn ssa_transform_store_dominating_usage_propagates_to_successor_blocks() {
    let mut program = new_program();
    program.callables.insert(
        CallableId(1),
        Callable {
            name: "dynamic_bool".to_string(),
            input_type: Vec::new(),
            output_type: Some(Ty::Prim(Prim::Boolean)),
            body: None,
            input_vars: Vec::new(),
            call_type: CallableType::Regular,
        },
    );

    program.blocks.insert(
        BlockId(0),
        Block(vec![
            Instruction::Call(
                CallableId(1),
                Vec::new(),
                Some(Variable {
                    variable_id: VariableId(0),
                    ty: Ty::Prim(Prim::Boolean),
                }),
                None,
            ),
            Instruction::Store(
                Operand::Variable(Variable {
                    variable_id: VariableId(0),
                    ty: Ty::Prim(Prim::Boolean),
                }),
                Variable {
                    variable_id: VariableId(1),
                    ty: Ty::Prim(Prim::Boolean),
                },
            ),
            Instruction::Branch(
                Variable {
                    variable_id: VariableId(1),
                    ty: Ty::Prim(Prim::Boolean),
                },
                BlockId(1),
                BlockId(2),
                None,
            ),
        ]),
    );
    program.blocks.insert(
        BlockId(1),
        Block(vec![
            Instruction::LogicalNot(
                Operand::Variable(Variable {
                    variable_id: VariableId(1),
                    ty: Ty::Prim(Prim::Boolean),
                }),
                Variable {
                    variable_id: VariableId(2),
                    ty: Ty::Prim(Prim::Boolean),
                },
            ),
            Instruction::Jump(BlockId(3)),
        ]),
    );
    program.blocks.insert(
        BlockId(2),
        Block(vec![
            Instruction::LogicalNot(
                Operand::Variable(Variable {
                    variable_id: VariableId(1),
                    ty: Ty::Prim(Prim::Boolean),
                }),
                Variable {
                    variable_id: VariableId(3),
                    ty: Ty::Prim(Prim::Boolean),
                },
            ),
            Instruction::Jump(BlockId(3)),
        ]),
    );
    program.blocks.insert(
        BlockId(3),
        Block(vec![
            Instruction::LogicalNot(
                Operand::Variable(Variable {
                    variable_id: VariableId(1),
                    ty: Ty::Prim(Prim::Boolean),
                }),
                Variable {
                    variable_id: VariableId(4),
                    ty: Ty::Prim(Prim::Boolean),
                },
            ),
            Instruction::Return(None),
        ]),
    );

    // Before
    assert_eq!(program.entry, CallableId(0));
assert_eq!(program.config.capabilities, TargetCapabilityFlags::empty());
assert_eq!(program.num_qubits, 0);
assert_eq!(program.num_results, 0);
assert_eq!(program.all_callable_ids(), vec![CallableId(0), CallableId(1)]);
assert_eq!(program.get_callable(CallableId(0)).name, "main");
assert_eq!(program.get_callable(CallableId(0)).call_type, CallableType::Regular);
assert!(program.get_callable(CallableId(0)).input_type.is_empty());
assert!(program.get_callable(CallableId(0)).input_vars.is_empty());
assert_eq!(program.get_callable(CallableId(0)).output_type, Some(Ty::Prim(Prim::Integer)));
assert_eq!(program.get_callable(CallableId(0)).body, Some(BlockId(0)));
assert_eq!(program.get_callable(CallableId(1)).name, "dynamic_bool");
assert_eq!(program.get_callable(CallableId(1)).call_type, CallableType::Regular);
assert!(program.get_callable(CallableId(1)).input_type.is_empty());
assert!(program.get_callable(CallableId(1)).input_vars.is_empty());
assert_eq!(program.get_callable(CallableId(1)).output_type, Some(Ty::Prim(Prim::Boolean)));
assert_eq!(program.get_callable(CallableId(1)).body, None);
assert_eq!(program.blocks.keys(), vec![BlockId(0), BlockId(1), BlockId(2), BlockId(3)]);
assert_eq!(program.get_block(BlockId(0)), &Block(vec![
        Instruction::Call(CallableId(1), Vec::new(), Some(Variable { variable_id: VariableId(0), ty: Ty::Prim(Prim::Boolean) }), None),
        Instruction::Store(Operand::Variable(Variable { variable_id: VariableId(0), ty: Ty::Prim(Prim::Boolean) }), Variable { variable_id: VariableId(1), ty: Ty::Prim(Prim::Boolean) }),
        Instruction::Branch(Variable { variable_id: VariableId(1), ty: Ty::Prim(Prim::Boolean) }, BlockId(1), BlockId(2), None),
    ]));
assert_eq!(program.get_block(BlockId(1)), &Block(vec![
        Instruction::LogicalNot(Operand::Variable(Variable { variable_id: VariableId(1), ty: Ty::Prim(Prim::Boolean) }), Variable { variable_id: VariableId(2), ty: Ty::Prim(Prim::Boolean) }),
        Instruction::Jump(BlockId(3)),
    ]));
assert_eq!(program.get_block(BlockId(2)), &Block(vec![
        Instruction::LogicalNot(Operand::Variable(Variable { variable_id: VariableId(1), ty: Ty::Prim(Prim::Boolean) }), Variable { variable_id: VariableId(3), ty: Ty::Prim(Prim::Boolean) }),
        Instruction::Jump(BlockId(3)),
    ]));
assert_eq!(program.get_block(BlockId(3)), &Block(vec![
        Instruction::LogicalNot(Operand::Variable(Variable { variable_id: VariableId(1), ty: Ty::Prim(Prim::Boolean) }), Variable { variable_id: VariableId(4), ty: Ty::Prim(Prim::Boolean) }),
        Instruction::Return(None),
    ]));
assert!(program.tags.is_empty());

    // After
    transform_program(&mut program);
    assert_eq!(program.entry, CallableId(0));
assert_eq!(program.config.capabilities, TargetCapabilityFlags::adaptive().union(TargetCapabilityFlags::integer_computations()).union(TargetCapabilityFlags::floating_point_computations()));
assert_eq!(program.num_qubits, 0);
assert_eq!(program.num_results, 0);
assert_eq!(program.all_callable_ids(), vec![CallableId(0), CallableId(1)]);
assert_eq!(program.get_callable(CallableId(0)).name, "main");
assert_eq!(program.get_callable(CallableId(0)).call_type, CallableType::Regular);
assert!(program.get_callable(CallableId(0)).input_type.is_empty());
assert!(program.get_callable(CallableId(0)).input_vars.is_empty());
assert_eq!(program.get_callable(CallableId(0)).output_type, Some(Ty::Prim(Prim::Integer)));
assert_eq!(program.get_callable(CallableId(0)).body, Some(BlockId(0)));
assert_eq!(program.get_callable(CallableId(1)).name, "dynamic_bool");
assert_eq!(program.get_callable(CallableId(1)).call_type, CallableType::Regular);
assert!(program.get_callable(CallableId(1)).input_type.is_empty());
assert!(program.get_callable(CallableId(1)).input_vars.is_empty());
assert_eq!(program.get_callable(CallableId(1)).output_type, Some(Ty::Prim(Prim::Boolean)));
assert_eq!(program.get_callable(CallableId(1)).body, None);
assert_eq!(program.blocks.keys(), vec![BlockId(0), BlockId(1), BlockId(2), BlockId(3)]);
assert_eq!(program.get_block(BlockId(0)), &Block(vec![
        Instruction::Call(CallableId(1), Vec::new(), Some(Variable { variable_id: VariableId(0), ty: Ty::Prim(Prim::Boolean) }), None),
        Instruction::Branch(Variable { variable_id: VariableId(0), ty: Ty::Prim(Prim::Boolean) }, BlockId(1), BlockId(2), None),
    ]));
assert_eq!(program.get_block(BlockId(1)), &Block(vec![
        Instruction::LogicalNot(Operand::Variable(Variable { variable_id: VariableId(0), ty: Ty::Prim(Prim::Boolean) }), Variable { variable_id: VariableId(2), ty: Ty::Prim(Prim::Boolean) }),
        Instruction::Jump(BlockId(3)),
    ]));
assert_eq!(program.get_block(BlockId(2)), &Block(vec![
        Instruction::LogicalNot(Operand::Variable(Variable { variable_id: VariableId(0), ty: Ty::Prim(Prim::Boolean) }), Variable { variable_id: VariableId(3), ty: Ty::Prim(Prim::Boolean) }),
        Instruction::Jump(BlockId(3)),
    ]));
assert_eq!(program.get_block(BlockId(3)), &Block(vec![
        Instruction::LogicalNot(Operand::Variable(Variable { variable_id: VariableId(0), ty: Ty::Prim(Prim::Boolean) }), Variable { variable_id: VariableId(4), ty: Ty::Prim(Prim::Boolean) }),
        Instruction::Return(None),
    ]));
assert!(program.tags.is_empty());
}

#[test]
fn ssa_transform_store_dominating_usage_propagates_to_successor_blocks_without_intermediate_usage()
{
    let mut program = new_program();
    program.callables.insert(
        CallableId(1),
        Callable {
            name: "dynamic_bool".to_string(),
            input_type: Vec::new(),
            output_type: Some(Ty::Prim(Prim::Boolean)),
            body: None,
            input_vars: Vec::new(),
            call_type: CallableType::Regular,
        },
    );

    program.blocks.insert(
        BlockId(0),
        Block(vec![
            Instruction::Call(
                CallableId(1),
                Vec::new(),
                Some(Variable {
                    variable_id: VariableId(0),
                    ty: Ty::Prim(Prim::Boolean),
                }),
                None,
            ),
            Instruction::Store(
                Operand::Variable(Variable {
                    variable_id: VariableId(0),
                    ty: Ty::Prim(Prim::Boolean),
                }),
                Variable {
                    variable_id: VariableId(1),
                    ty: Ty::Prim(Prim::Boolean),
                },
            ),
            Instruction::Branch(
                Variable {
                    variable_id: VariableId(1),
                    ty: Ty::Prim(Prim::Boolean),
                },
                BlockId(1),
                BlockId(2),
                None,
            ),
        ]),
    );
    program
        .blocks
        .insert(BlockId(1), Block(vec![Instruction::Jump(BlockId(3))]));
    program
        .blocks
        .insert(BlockId(2), Block(vec![Instruction::Jump(BlockId(3))]));
    program.blocks.insert(
        BlockId(3),
        Block(vec![
            Instruction::LogicalNot(
                Operand::Variable(Variable {
                    variable_id: VariableId(1),
                    ty: Ty::Prim(Prim::Boolean),
                }),
                Variable {
                    variable_id: VariableId(4),
                    ty: Ty::Prim(Prim::Boolean),
                },
            ),
            Instruction::Return(None),
        ]),
    );

    // Before
    assert_eq!(program.entry, CallableId(0));
assert_eq!(program.config.capabilities, TargetCapabilityFlags::empty());
assert_eq!(program.num_qubits, 0);
assert_eq!(program.num_results, 0);
assert_eq!(program.all_callable_ids(), vec![CallableId(0), CallableId(1)]);
assert_eq!(program.get_callable(CallableId(0)).name, "main");
assert_eq!(program.get_callable(CallableId(0)).call_type, CallableType::Regular);
assert!(program.get_callable(CallableId(0)).input_type.is_empty());
assert!(program.get_callable(CallableId(0)).input_vars.is_empty());
assert_eq!(program.get_callable(CallableId(0)).output_type, Some(Ty::Prim(Prim::Integer)));
assert_eq!(program.get_callable(CallableId(0)).body, Some(BlockId(0)));
assert_eq!(program.get_callable(CallableId(1)).name, "dynamic_bool");
assert_eq!(program.get_callable(CallableId(1)).call_type, CallableType::Regular);
assert!(program.get_callable(CallableId(1)).input_type.is_empty());
assert!(program.get_callable(CallableId(1)).input_vars.is_empty());
assert_eq!(program.get_callable(CallableId(1)).output_type, Some(Ty::Prim(Prim::Boolean)));
assert_eq!(program.get_callable(CallableId(1)).body, None);
assert_eq!(program.blocks.keys(), vec![BlockId(0), BlockId(1), BlockId(2), BlockId(3)]);
assert_eq!(program.get_block(BlockId(0)), &Block(vec![
        Instruction::Call(CallableId(1), Vec::new(), Some(Variable { variable_id: VariableId(0), ty: Ty::Prim(Prim::Boolean) }), None),
        Instruction::Store(Operand::Variable(Variable { variable_id: VariableId(0), ty: Ty::Prim(Prim::Boolean) }), Variable { variable_id: VariableId(1), ty: Ty::Prim(Prim::Boolean) }),
        Instruction::Branch(Variable { variable_id: VariableId(1), ty: Ty::Prim(Prim::Boolean) }, BlockId(1), BlockId(2), None),
    ]));
assert_eq!(program.get_block(BlockId(1)), &Block(vec![
        Instruction::Jump(BlockId(3)),
    ]));
assert_eq!(program.get_block(BlockId(2)), &Block(vec![
        Instruction::Jump(BlockId(3)),
    ]));
assert_eq!(program.get_block(BlockId(3)), &Block(vec![
        Instruction::LogicalNot(Operand::Variable(Variable { variable_id: VariableId(1), ty: Ty::Prim(Prim::Boolean) }), Variable { variable_id: VariableId(4), ty: Ty::Prim(Prim::Boolean) }),
        Instruction::Return(None),
    ]));
assert!(program.tags.is_empty());

    // After
    transform_program(&mut program);
    assert_eq!(program.entry, CallableId(0));
assert_eq!(program.config.capabilities, TargetCapabilityFlags::adaptive().union(TargetCapabilityFlags::integer_computations()).union(TargetCapabilityFlags::floating_point_computations()));
assert_eq!(program.num_qubits, 0);
assert_eq!(program.num_results, 0);
assert_eq!(program.all_callable_ids(), vec![CallableId(0), CallableId(1)]);
assert_eq!(program.get_callable(CallableId(0)).name, "main");
assert_eq!(program.get_callable(CallableId(0)).call_type, CallableType::Regular);
assert!(program.get_callable(CallableId(0)).input_type.is_empty());
assert!(program.get_callable(CallableId(0)).input_vars.is_empty());
assert_eq!(program.get_callable(CallableId(0)).output_type, Some(Ty::Prim(Prim::Integer)));
assert_eq!(program.get_callable(CallableId(0)).body, Some(BlockId(0)));
assert_eq!(program.get_callable(CallableId(1)).name, "dynamic_bool");
assert_eq!(program.get_callable(CallableId(1)).call_type, CallableType::Regular);
assert!(program.get_callable(CallableId(1)).input_type.is_empty());
assert!(program.get_callable(CallableId(1)).input_vars.is_empty());
assert_eq!(program.get_callable(CallableId(1)).output_type, Some(Ty::Prim(Prim::Boolean)));
assert_eq!(program.get_callable(CallableId(1)).body, None);
assert_eq!(program.blocks.keys(), vec![BlockId(0), BlockId(1), BlockId(2), BlockId(3)]);
assert_eq!(program.get_block(BlockId(0)), &Block(vec![
        Instruction::Call(CallableId(1), Vec::new(), Some(Variable { variable_id: VariableId(0), ty: Ty::Prim(Prim::Boolean) }), None),
        Instruction::Branch(Variable { variable_id: VariableId(0), ty: Ty::Prim(Prim::Boolean) }, BlockId(1), BlockId(2), None),
    ]));
assert_eq!(program.get_block(BlockId(1)), &Block(vec![
        Instruction::Jump(BlockId(3)),
    ]));
assert_eq!(program.get_block(BlockId(2)), &Block(vec![
        Instruction::Jump(BlockId(3)),
    ]));
assert_eq!(program.get_block(BlockId(3)), &Block(vec![
        Instruction::LogicalNot(Operand::Variable(Variable { variable_id: VariableId(0), ty: Ty::Prim(Prim::Boolean) }), Variable { variable_id: VariableId(4), ty: Ty::Prim(Prim::Boolean) }),
        Instruction::Return(None),
    ]));
assert!(program.tags.is_empty());
}

#[test]
fn ssa_transform_inserts_phi_for_store_not_dominating_usage() {
    let mut program = new_program();
    program.callables.insert(
        CallableId(1),
        Callable {
            name: "dynamic_bool".to_string(),
            input_type: Vec::new(),
            output_type: Some(Ty::Prim(Prim::Boolean)),
            body: None,
            input_vars: Vec::new(),
            call_type: CallableType::Regular,
        },
    );

    program.blocks.insert(
        BlockId(0),
        Block(vec![
            Instruction::Call(
                CallableId(1),
                Vec::new(),
                Some(Variable {
                    variable_id: VariableId(0),
                    ty: Ty::Prim(Prim::Boolean),
                }),
                None,
            ),
            Instruction::Store(
                Operand::Variable(Variable {
                    variable_id: VariableId(0),
                    ty: Ty::Prim(Prim::Boolean),
                }),
                Variable {
                    variable_id: VariableId(1),
                    ty: Ty::Prim(Prim::Boolean),
                },
            ),
            Instruction::Branch(
                Variable {
                    variable_id: VariableId(1),
                    ty: Ty::Prim(Prim::Boolean),
                },
                BlockId(1),
                BlockId(2),
                None,
            ),
        ]),
    );
    program.blocks.insert(
        BlockId(1),
        Block(vec![
            Instruction::LogicalNot(
                Operand::Variable(Variable {
                    variable_id: VariableId(1),
                    ty: Ty::Prim(Prim::Boolean),
                }),
                Variable {
                    variable_id: VariableId(2),
                    ty: Ty::Prim(Prim::Boolean),
                },
            ),
            Instruction::Store(
                Operand::Variable(Variable {
                    variable_id: VariableId(2),
                    ty: Ty::Prim(Prim::Boolean),
                }),
                Variable {
                    variable_id: VariableId(1),
                    ty: Ty::Prim(Prim::Boolean),
                },
            ),
            Instruction::Jump(BlockId(3)),
        ]),
    );
    program.blocks.insert(
        BlockId(2),
        Block(vec![
            Instruction::LogicalNot(
                Operand::Variable(Variable {
                    variable_id: VariableId(1),
                    ty: Ty::Prim(Prim::Boolean),
                }),
                Variable {
                    variable_id: VariableId(3),
                    ty: Ty::Prim(Prim::Boolean),
                },
            ),
            Instruction::Store(
                Operand::Variable(Variable {
                    variable_id: VariableId(3),
                    ty: Ty::Prim(Prim::Boolean),
                }),
                Variable {
                    variable_id: VariableId(1),
                    ty: Ty::Prim(Prim::Boolean),
                },
            ),
            Instruction::Jump(BlockId(3)),
        ]),
    );
    program.blocks.insert(
        BlockId(3),
        Block(vec![
            Instruction::LogicalNot(
                Operand::Variable(Variable {
                    variable_id: VariableId(1),
                    ty: Ty::Prim(Prim::Boolean),
                }),
                Variable {
                    variable_id: VariableId(4),
                    ty: Ty::Prim(Prim::Boolean),
                },
            ),
            Instruction::Return(None),
        ]),
    );

    // Before
    assert_eq!(program.entry, CallableId(0));
assert_eq!(program.config.capabilities, TargetCapabilityFlags::empty());
assert_eq!(program.num_qubits, 0);
assert_eq!(program.num_results, 0);
assert_eq!(program.all_callable_ids(), vec![CallableId(0), CallableId(1)]);
assert_eq!(program.get_callable(CallableId(0)).name, "main");
assert_eq!(program.get_callable(CallableId(0)).call_type, CallableType::Regular);
assert!(program.get_callable(CallableId(0)).input_type.is_empty());
assert!(program.get_callable(CallableId(0)).input_vars.is_empty());
assert_eq!(program.get_callable(CallableId(0)).output_type, Some(Ty::Prim(Prim::Integer)));
assert_eq!(program.get_callable(CallableId(0)).body, Some(BlockId(0)));
assert_eq!(program.get_callable(CallableId(1)).name, "dynamic_bool");
assert_eq!(program.get_callable(CallableId(1)).call_type, CallableType::Regular);
assert!(program.get_callable(CallableId(1)).input_type.is_empty());
assert!(program.get_callable(CallableId(1)).input_vars.is_empty());
assert_eq!(program.get_callable(CallableId(1)).output_type, Some(Ty::Prim(Prim::Boolean)));
assert_eq!(program.get_callable(CallableId(1)).body, None);
assert_eq!(program.blocks.keys(), vec![BlockId(0), BlockId(1), BlockId(2), BlockId(3)]);
assert_eq!(program.get_block(BlockId(0)), &Block(vec![
        Instruction::Call(CallableId(1), Vec::new(), Some(Variable { variable_id: VariableId(0), ty: Ty::Prim(Prim::Boolean) }), None),
        Instruction::Store(Operand::Variable(Variable { variable_id: VariableId(0), ty: Ty::Prim(Prim::Boolean) }), Variable { variable_id: VariableId(1), ty: Ty::Prim(Prim::Boolean) }),
        Instruction::Branch(Variable { variable_id: VariableId(1), ty: Ty::Prim(Prim::Boolean) }, BlockId(1), BlockId(2), None),
    ]));
assert_eq!(program.get_block(BlockId(1)), &Block(vec![
        Instruction::LogicalNot(Operand::Variable(Variable { variable_id: VariableId(1), ty: Ty::Prim(Prim::Boolean) }), Variable { variable_id: VariableId(2), ty: Ty::Prim(Prim::Boolean) }),
        Instruction::Store(Operand::Variable(Variable { variable_id: VariableId(2), ty: Ty::Prim(Prim::Boolean) }), Variable { variable_id: VariableId(1), ty: Ty::Prim(Prim::Boolean) }),
        Instruction::Jump(BlockId(3)),
    ]));
assert_eq!(program.get_block(BlockId(2)), &Block(vec![
        Instruction::LogicalNot(Operand::Variable(Variable { variable_id: VariableId(1), ty: Ty::Prim(Prim::Boolean) }), Variable { variable_id: VariableId(3), ty: Ty::Prim(Prim::Boolean) }),
        Instruction::Store(Operand::Variable(Variable { variable_id: VariableId(3), ty: Ty::Prim(Prim::Boolean) }), Variable { variable_id: VariableId(1), ty: Ty::Prim(Prim::Boolean) }),
        Instruction::Jump(BlockId(3)),
    ]));
assert_eq!(program.get_block(BlockId(3)), &Block(vec![
        Instruction::LogicalNot(Operand::Variable(Variable { variable_id: VariableId(1), ty: Ty::Prim(Prim::Boolean) }), Variable { variable_id: VariableId(4), ty: Ty::Prim(Prim::Boolean) }),
        Instruction::Return(None),
    ]));
assert!(program.tags.is_empty());

    // After
    transform_program(&mut program);
    assert_eq!(program.entry, CallableId(0));
assert_eq!(program.config.capabilities, TargetCapabilityFlags::adaptive().union(TargetCapabilityFlags::integer_computations()).union(TargetCapabilityFlags::floating_point_computations()));
assert_eq!(program.num_qubits, 0);
assert_eq!(program.num_results, 0);
assert_eq!(program.all_callable_ids(), vec![CallableId(0), CallableId(1)]);
assert_eq!(program.get_callable(CallableId(0)).name, "main");
assert_eq!(program.get_callable(CallableId(0)).call_type, CallableType::Regular);
assert!(program.get_callable(CallableId(0)).input_type.is_empty());
assert!(program.get_callable(CallableId(0)).input_vars.is_empty());
assert_eq!(program.get_callable(CallableId(0)).output_type, Some(Ty::Prim(Prim::Integer)));
assert_eq!(program.get_callable(CallableId(0)).body, Some(BlockId(0)));
assert_eq!(program.get_callable(CallableId(1)).name, "dynamic_bool");
assert_eq!(program.get_callable(CallableId(1)).call_type, CallableType::Regular);
assert!(program.get_callable(CallableId(1)).input_type.is_empty());
assert!(program.get_callable(CallableId(1)).input_vars.is_empty());
assert_eq!(program.get_callable(CallableId(1)).output_type, Some(Ty::Prim(Prim::Boolean)));
assert_eq!(program.get_callable(CallableId(1)).body, None);
assert_eq!(program.blocks.keys(), vec![BlockId(0), BlockId(1), BlockId(2), BlockId(3)]);
assert_eq!(program.get_block(BlockId(0)), &Block(vec![
        Instruction::Call(CallableId(1), Vec::new(), Some(Variable { variable_id: VariableId(0), ty: Ty::Prim(Prim::Boolean) }), None),
        Instruction::Branch(Variable { variable_id: VariableId(0), ty: Ty::Prim(Prim::Boolean) }, BlockId(1), BlockId(2), None),
    ]));
assert_eq!(program.get_block(BlockId(1)), &Block(vec![
        Instruction::LogicalNot(Operand::Variable(Variable { variable_id: VariableId(0), ty: Ty::Prim(Prim::Boolean) }), Variable { variable_id: VariableId(2), ty: Ty::Prim(Prim::Boolean) }),
        Instruction::Jump(BlockId(3)),
    ]));
assert_eq!(program.get_block(BlockId(2)), &Block(vec![
        Instruction::LogicalNot(Operand::Variable(Variable { variable_id: VariableId(0), ty: Ty::Prim(Prim::Boolean) }), Variable { variable_id: VariableId(3), ty: Ty::Prim(Prim::Boolean) }),
        Instruction::Jump(BlockId(3)),
    ]));
assert_eq!(program.get_block(BlockId(3)), &Block(vec![
        Instruction::Phi(vec![(Operand::Variable(Variable { variable_id: VariableId(2), ty: Ty::Prim(Prim::Boolean) }), BlockId(1)), (Operand::Variable(Variable { variable_id: VariableId(3), ty: Ty::Prim(Prim::Boolean) }), BlockId(2))], Variable { variable_id: VariableId(5), ty: Ty::Prim(Prim::Boolean) }),
        Instruction::LogicalNot(Operand::Variable(Variable { variable_id: VariableId(5), ty: Ty::Prim(Prim::Boolean) }), Variable { variable_id: VariableId(4), ty: Ty::Prim(Prim::Boolean) }),
        Instruction::Return(None),
    ]));
assert!(program.tags.is_empty());
}

#[test]
fn ssa_transform_inserts_phi_for_store_not_dominating_usage_in_one_branch() {
    let mut program = new_program();
    program.callables.insert(
        CallableId(1),
        Callable {
            name: "dynamic_bool".to_string(),
            input_type: Vec::new(),
            output_type: Some(Ty::Prim(Prim::Boolean)),
            body: None,
            input_vars: Vec::new(),
            call_type: CallableType::Regular,
        },
    );

    program.blocks.insert(
        BlockId(0),
        Block(vec![
            Instruction::Call(
                CallableId(1),
                Vec::new(),
                Some(Variable {
                    variable_id: VariableId(0),
                    ty: Ty::Prim(Prim::Boolean),
                }),
                None,
            ),
            Instruction::Store(
                Operand::Variable(Variable {
                    variable_id: VariableId(0),
                    ty: Ty::Prim(Prim::Boolean),
                }),
                Variable {
                    variable_id: VariableId(1),
                    ty: Ty::Prim(Prim::Boolean),
                },
            ),
            Instruction::Branch(
                Variable {
                    variable_id: VariableId(1),
                    ty: Ty::Prim(Prim::Boolean),
                },
                BlockId(1),
                BlockId(2),
                None,
            ),
        ]),
    );
    program.blocks.insert(
        BlockId(1),
        Block(vec![
            Instruction::LogicalNot(
                Operand::Variable(Variable {
                    variable_id: VariableId(1),
                    ty: Ty::Prim(Prim::Boolean),
                }),
                Variable {
                    variable_id: VariableId(2),
                    ty: Ty::Prim(Prim::Boolean),
                },
            ),
            Instruction::Store(
                Operand::Variable(Variable {
                    variable_id: VariableId(2),
                    ty: Ty::Prim(Prim::Boolean),
                }),
                Variable {
                    variable_id: VariableId(1),
                    ty: Ty::Prim(Prim::Boolean),
                },
            ),
            Instruction::Jump(BlockId(3)),
        ]),
    );
    program
        .blocks
        .insert(BlockId(2), Block(vec![Instruction::Jump(BlockId(3))]));
    program.blocks.insert(
        BlockId(3),
        Block(vec![
            Instruction::LogicalNot(
                Operand::Variable(Variable {
                    variable_id: VariableId(1),
                    ty: Ty::Prim(Prim::Boolean),
                }),
                Variable {
                    variable_id: VariableId(4),
                    ty: Ty::Prim(Prim::Boolean),
                },
            ),
            Instruction::Return(None),
        ]),
    );

    // Before
    assert_eq!(program.entry, CallableId(0));
assert_eq!(program.config.capabilities, TargetCapabilityFlags::empty());
assert_eq!(program.num_qubits, 0);
assert_eq!(program.num_results, 0);
assert_eq!(program.all_callable_ids(), vec![CallableId(0), CallableId(1)]);
assert_eq!(program.get_callable(CallableId(0)).name, "main");
assert_eq!(program.get_callable(CallableId(0)).call_type, CallableType::Regular);
assert!(program.get_callable(CallableId(0)).input_type.is_empty());
assert!(program.get_callable(CallableId(0)).input_vars.is_empty());
assert_eq!(program.get_callable(CallableId(0)).output_type, Some(Ty::Prim(Prim::Integer)));
assert_eq!(program.get_callable(CallableId(0)).body, Some(BlockId(0)));
assert_eq!(program.get_callable(CallableId(1)).name, "dynamic_bool");
assert_eq!(program.get_callable(CallableId(1)).call_type, CallableType::Regular);
assert!(program.get_callable(CallableId(1)).input_type.is_empty());
assert!(program.get_callable(CallableId(1)).input_vars.is_empty());
assert_eq!(program.get_callable(CallableId(1)).output_type, Some(Ty::Prim(Prim::Boolean)));
assert_eq!(program.get_callable(CallableId(1)).body, None);
assert_eq!(program.blocks.keys(), vec![BlockId(0), BlockId(1), BlockId(2), BlockId(3)]);
assert_eq!(program.get_block(BlockId(0)), &Block(vec![
        Instruction::Call(CallableId(1), Vec::new(), Some(Variable { variable_id: VariableId(0), ty: Ty::Prim(Prim::Boolean) }), None),
        Instruction::Store(Operand::Variable(Variable { variable_id: VariableId(0), ty: Ty::Prim(Prim::Boolean) }), Variable { variable_id: VariableId(1), ty: Ty::Prim(Prim::Boolean) }),
        Instruction::Branch(Variable { variable_id: VariableId(1), ty: Ty::Prim(Prim::Boolean) }, BlockId(1), BlockId(2), None),
    ]));
assert_eq!(program.get_block(BlockId(1)), &Block(vec![
        Instruction::LogicalNot(Operand::Variable(Variable { variable_id: VariableId(1), ty: Ty::Prim(Prim::Boolean) }), Variable { variable_id: VariableId(2), ty: Ty::Prim(Prim::Boolean) }),
        Instruction::Store(Operand::Variable(Variable { variable_id: VariableId(2), ty: Ty::Prim(Prim::Boolean) }), Variable { variable_id: VariableId(1), ty: Ty::Prim(Prim::Boolean) }),
        Instruction::Jump(BlockId(3)),
    ]));
assert_eq!(program.get_block(BlockId(2)), &Block(vec![
        Instruction::Jump(BlockId(3)),
    ]));
assert_eq!(program.get_block(BlockId(3)), &Block(vec![
        Instruction::LogicalNot(Operand::Variable(Variable { variable_id: VariableId(1), ty: Ty::Prim(Prim::Boolean) }), Variable { variable_id: VariableId(4), ty: Ty::Prim(Prim::Boolean) }),
        Instruction::Return(None),
    ]));
assert!(program.tags.is_empty());

    // After
    transform_program(&mut program);
    assert_eq!(program.entry, CallableId(0));
assert_eq!(program.config.capabilities, TargetCapabilityFlags::adaptive().union(TargetCapabilityFlags::integer_computations()).union(TargetCapabilityFlags::floating_point_computations()));
assert_eq!(program.num_qubits, 0);
assert_eq!(program.num_results, 0);
assert_eq!(program.all_callable_ids(), vec![CallableId(0), CallableId(1)]);
assert_eq!(program.get_callable(CallableId(0)).name, "main");
assert_eq!(program.get_callable(CallableId(0)).call_type, CallableType::Regular);
assert!(program.get_callable(CallableId(0)).input_type.is_empty());
assert!(program.get_callable(CallableId(0)).input_vars.is_empty());
assert_eq!(program.get_callable(CallableId(0)).output_type, Some(Ty::Prim(Prim::Integer)));
assert_eq!(program.get_callable(CallableId(0)).body, Some(BlockId(0)));
assert_eq!(program.get_callable(CallableId(1)).name, "dynamic_bool");
assert_eq!(program.get_callable(CallableId(1)).call_type, CallableType::Regular);
assert!(program.get_callable(CallableId(1)).input_type.is_empty());
assert!(program.get_callable(CallableId(1)).input_vars.is_empty());
assert_eq!(program.get_callable(CallableId(1)).output_type, Some(Ty::Prim(Prim::Boolean)));
assert_eq!(program.get_callable(CallableId(1)).body, None);
assert_eq!(program.blocks.keys(), vec![BlockId(0), BlockId(1), BlockId(2), BlockId(3)]);
assert_eq!(program.get_block(BlockId(0)), &Block(vec![
        Instruction::Call(CallableId(1), Vec::new(), Some(Variable { variable_id: VariableId(0), ty: Ty::Prim(Prim::Boolean) }), None),
        Instruction::Branch(Variable { variable_id: VariableId(0), ty: Ty::Prim(Prim::Boolean) }, BlockId(1), BlockId(2), None),
    ]));
assert_eq!(program.get_block(BlockId(1)), &Block(vec![
        Instruction::LogicalNot(Operand::Variable(Variable { variable_id: VariableId(0), ty: Ty::Prim(Prim::Boolean) }), Variable { variable_id: VariableId(2), ty: Ty::Prim(Prim::Boolean) }),
        Instruction::Jump(BlockId(3)),
    ]));
assert_eq!(program.get_block(BlockId(2)), &Block(vec![
        Instruction::Jump(BlockId(3)),
    ]));
assert_eq!(program.get_block(BlockId(3)), &Block(vec![
        Instruction::Phi(vec![(Operand::Variable(Variable { variable_id: VariableId(2), ty: Ty::Prim(Prim::Boolean) }), BlockId(1)), (Operand::Variable(Variable { variable_id: VariableId(0), ty: Ty::Prim(Prim::Boolean) }), BlockId(2))], Variable { variable_id: VariableId(5), ty: Ty::Prim(Prim::Boolean) }),
        Instruction::LogicalNot(Operand::Variable(Variable { variable_id: VariableId(5), ty: Ty::Prim(Prim::Boolean) }), Variable { variable_id: VariableId(4), ty: Ty::Prim(Prim::Boolean) }),
        Instruction::Return(None),
    ]));
assert!(program.tags.is_empty());
}

#[test]
fn ssa_transform_inserts_phi_for_node_with_many_predecessors() {
    let mut program = new_program();
    program.callables.insert(
        CallableId(1),
        Callable {
            name: "dynamic_bool".to_string(),
            input_type: Vec::new(),
            output_type: Some(Ty::Prim(Prim::Boolean)),
            body: None,
            input_vars: Vec::new(),
            call_type: CallableType::Regular,
        },
    );

    program.blocks.insert(
        BlockId(0),
        Block(vec![
            Instruction::Call(
                CallableId(1),
                Vec::new(),
                Some(Variable {
                    variable_id: VariableId(0),
                    ty: Ty::Prim(Prim::Boolean),
                }),
                None,
            ),
            Instruction::Store(
                Operand::Variable(Variable {
                    variable_id: VariableId(0),
                    ty: Ty::Prim(Prim::Boolean),
                }),
                Variable {
                    variable_id: VariableId(1),
                    ty: Ty::Prim(Prim::Boolean),
                },
            ),
            Instruction::Branch(
                Variable {
                    variable_id: VariableId(1),
                    ty: Ty::Prim(Prim::Boolean),
                },
                BlockId(1),
                BlockId(2),
                None,
            ),
        ]),
    );
    program.blocks.insert(
        BlockId(1),
        Block(vec![
            Instruction::LogicalNot(
                Operand::Variable(Variable {
                    variable_id: VariableId(1),
                    ty: Ty::Prim(Prim::Boolean),
                }),
                Variable {
                    variable_id: VariableId(2),
                    ty: Ty::Prim(Prim::Boolean),
                },
            ),
            Instruction::Store(
                Operand::Variable(Variable {
                    variable_id: VariableId(2),
                    ty: Ty::Prim(Prim::Boolean),
                }),
                Variable {
                    variable_id: VariableId(1),
                    ty: Ty::Prim(Prim::Boolean),
                },
            ),
            Instruction::Branch(
                Variable {
                    variable_id: VariableId(1),
                    ty: Ty::Prim(Prim::Boolean),
                },
                BlockId(3),
                BlockId(4),
                None,
            ),
        ]),
    );
    program.blocks.insert(
        BlockId(2),
        Block(vec![
            Instruction::LogicalNot(
                Operand::Variable(Variable {
                    variable_id: VariableId(1),
                    ty: Ty::Prim(Prim::Boolean),
                }),
                Variable {
                    variable_id: VariableId(3),
                    ty: Ty::Prim(Prim::Boolean),
                },
            ),
            Instruction::Store(
                Operand::Variable(Variable {
                    variable_id: VariableId(3),
                    ty: Ty::Prim(Prim::Boolean),
                }),
                Variable {
                    variable_id: VariableId(1),
                    ty: Ty::Prim(Prim::Boolean),
                },
            ),
            Instruction::Branch(
                Variable {
                    variable_id: VariableId(1),
                    ty: Ty::Prim(Prim::Boolean),
                },
                BlockId(5),
                BlockId(6),
                None,
            ),
        ]),
    );
    program
        .blocks
        .insert(BlockId(3), Block(vec![Instruction::Jump(BlockId(7))]));
    program
        .blocks
        .insert(BlockId(4), Block(vec![Instruction::Jump(BlockId(7))]));
    program
        .blocks
        .insert(BlockId(5), Block(vec![Instruction::Jump(BlockId(7))]));
    program.blocks.insert(
        BlockId(6),
        Block(vec![
            Instruction::LogicalNot(
                Operand::Variable(Variable {
                    variable_id: VariableId(1),
                    ty: Ty::Prim(Prim::Boolean),
                }),
                Variable {
                    variable_id: VariableId(4),
                    ty: Ty::Prim(Prim::Boolean),
                },
            ),
            Instruction::Store(
                Operand::Variable(Variable {
                    variable_id: VariableId(4),
                    ty: Ty::Prim(Prim::Boolean),
                }),
                Variable {
                    variable_id: VariableId(1),
                    ty: Ty::Prim(Prim::Boolean),
                },
            ),
            Instruction::Jump(BlockId(7)),
        ]),
    );
    program.blocks.insert(
        BlockId(7),
        Block(vec![
            Instruction::LogicalNot(
                Operand::Variable(Variable {
                    variable_id: VariableId(1),
                    ty: Ty::Prim(Prim::Boolean),
                }),
                Variable {
                    variable_id: VariableId(5),
                    ty: Ty::Prim(Prim::Boolean),
                },
            ),
            Instruction::Return(None),
        ]),
    );

    // Before
    assert_eq!(program.entry, CallableId(0));
assert_eq!(program.config.capabilities, TargetCapabilityFlags::empty());
assert_eq!(program.num_qubits, 0);
assert_eq!(program.num_results, 0);
assert_eq!(program.all_callable_ids(), vec![CallableId(0), CallableId(1)]);
assert_eq!(program.get_callable(CallableId(0)).name, "main");
assert_eq!(program.get_callable(CallableId(0)).call_type, CallableType::Regular);
assert!(program.get_callable(CallableId(0)).input_type.is_empty());
assert!(program.get_callable(CallableId(0)).input_vars.is_empty());
assert_eq!(program.get_callable(CallableId(0)).output_type, Some(Ty::Prim(Prim::Integer)));
assert_eq!(program.get_callable(CallableId(0)).body, Some(BlockId(0)));
assert_eq!(program.get_callable(CallableId(1)).name, "dynamic_bool");
assert_eq!(program.get_callable(CallableId(1)).call_type, CallableType::Regular);
assert!(program.get_callable(CallableId(1)).input_type.is_empty());
assert!(program.get_callable(CallableId(1)).input_vars.is_empty());
assert_eq!(program.get_callable(CallableId(1)).output_type, Some(Ty::Prim(Prim::Boolean)));
assert_eq!(program.get_callable(CallableId(1)).body, None);
assert_eq!(program.blocks.keys(), vec![BlockId(0), BlockId(1), BlockId(2), BlockId(3), BlockId(4), BlockId(5), BlockId(6), BlockId(7)]);
assert_eq!(program.get_block(BlockId(0)), &Block(vec![
        Instruction::Call(CallableId(1), Vec::new(), Some(Variable { variable_id: VariableId(0), ty: Ty::Prim(Prim::Boolean) }), None),
        Instruction::Store(Operand::Variable(Variable { variable_id: VariableId(0), ty: Ty::Prim(Prim::Boolean) }), Variable { variable_id: VariableId(1), ty: Ty::Prim(Prim::Boolean) }),
        Instruction::Branch(Variable { variable_id: VariableId(1), ty: Ty::Prim(Prim::Boolean) }, BlockId(1), BlockId(2), None),
    ]));
assert_eq!(program.get_block(BlockId(1)), &Block(vec![
        Instruction::LogicalNot(Operand::Variable(Variable { variable_id: VariableId(1), ty: Ty::Prim(Prim::Boolean) }), Variable { variable_id: VariableId(2), ty: Ty::Prim(Prim::Boolean) }),
        Instruction::Store(Operand::Variable(Variable { variable_id: VariableId(2), ty: Ty::Prim(Prim::Boolean) }), Variable { variable_id: VariableId(1), ty: Ty::Prim(Prim::Boolean) }),
        Instruction::Branch(Variable { variable_id: VariableId(1), ty: Ty::Prim(Prim::Boolean) }, BlockId(3), BlockId(4), None),
    ]));
assert_eq!(program.get_block(BlockId(2)), &Block(vec![
        Instruction::LogicalNot(Operand::Variable(Variable { variable_id: VariableId(1), ty: Ty::Prim(Prim::Boolean) }), Variable { variable_id: VariableId(3), ty: Ty::Prim(Prim::Boolean) }),
        Instruction::Store(Operand::Variable(Variable { variable_id: VariableId(3), ty: Ty::Prim(Prim::Boolean) }), Variable { variable_id: VariableId(1), ty: Ty::Prim(Prim::Boolean) }),
        Instruction::Branch(Variable { variable_id: VariableId(1), ty: Ty::Prim(Prim::Boolean) }, BlockId(5), BlockId(6), None),
    ]));
assert_eq!(program.get_block(BlockId(3)), &Block(vec![
        Instruction::Jump(BlockId(7)),
    ]));
assert_eq!(program.get_block(BlockId(4)), &Block(vec![
        Instruction::Jump(BlockId(7)),
    ]));
assert_eq!(program.get_block(BlockId(5)), &Block(vec![
        Instruction::Jump(BlockId(7)),
    ]));
assert_eq!(program.get_block(BlockId(6)), &Block(vec![
        Instruction::LogicalNot(Operand::Variable(Variable { variable_id: VariableId(1), ty: Ty::Prim(Prim::Boolean) }), Variable { variable_id: VariableId(4), ty: Ty::Prim(Prim::Boolean) }),
        Instruction::Store(Operand::Variable(Variable { variable_id: VariableId(4), ty: Ty::Prim(Prim::Boolean) }), Variable { variable_id: VariableId(1), ty: Ty::Prim(Prim::Boolean) }),
        Instruction::Jump(BlockId(7)),
    ]));
assert_eq!(program.get_block(BlockId(7)), &Block(vec![
        Instruction::LogicalNot(Operand::Variable(Variable { variable_id: VariableId(1), ty: Ty::Prim(Prim::Boolean) }), Variable { variable_id: VariableId(5), ty: Ty::Prim(Prim::Boolean) }),
        Instruction::Return(None),
    ]));
assert!(program.tags.is_empty());

    // After
    transform_program(&mut program);
    assert_eq!(program.entry, CallableId(0));
assert_eq!(program.config.capabilities, TargetCapabilityFlags::adaptive().union(TargetCapabilityFlags::integer_computations()).union(TargetCapabilityFlags::floating_point_computations()));
assert_eq!(program.num_qubits, 0);
assert_eq!(program.num_results, 0);
assert_eq!(program.all_callable_ids(), vec![CallableId(0), CallableId(1)]);
assert_eq!(program.get_callable(CallableId(0)).name, "main");
assert_eq!(program.get_callable(CallableId(0)).call_type, CallableType::Regular);
assert!(program.get_callable(CallableId(0)).input_type.is_empty());
assert!(program.get_callable(CallableId(0)).input_vars.is_empty());
assert_eq!(program.get_callable(CallableId(0)).output_type, Some(Ty::Prim(Prim::Integer)));
assert_eq!(program.get_callable(CallableId(0)).body, Some(BlockId(0)));
assert_eq!(program.get_callable(CallableId(1)).name, "dynamic_bool");
assert_eq!(program.get_callable(CallableId(1)).call_type, CallableType::Regular);
assert!(program.get_callable(CallableId(1)).input_type.is_empty());
assert!(program.get_callable(CallableId(1)).input_vars.is_empty());
assert_eq!(program.get_callable(CallableId(1)).output_type, Some(Ty::Prim(Prim::Boolean)));
assert_eq!(program.get_callable(CallableId(1)).body, None);
assert_eq!(program.blocks.keys(), vec![BlockId(0), BlockId(1), BlockId(2), BlockId(3), BlockId(4), BlockId(5), BlockId(6), BlockId(7)]);
assert_eq!(program.get_block(BlockId(0)), &Block(vec![
        Instruction::Call(CallableId(1), Vec::new(), Some(Variable { variable_id: VariableId(0), ty: Ty::Prim(Prim::Boolean) }), None),
        Instruction::Branch(Variable { variable_id: VariableId(0), ty: Ty::Prim(Prim::Boolean) }, BlockId(1), BlockId(2), None),
    ]));
assert_eq!(program.get_block(BlockId(1)), &Block(vec![
        Instruction::LogicalNot(Operand::Variable(Variable { variable_id: VariableId(0), ty: Ty::Prim(Prim::Boolean) }), Variable { variable_id: VariableId(2), ty: Ty::Prim(Prim::Boolean) }),
        Instruction::Branch(Variable { variable_id: VariableId(2), ty: Ty::Prim(Prim::Boolean) }, BlockId(3), BlockId(4), None),
    ]));
assert_eq!(program.get_block(BlockId(2)), &Block(vec![
        Instruction::LogicalNot(Operand::Variable(Variable { variable_id: VariableId(0), ty: Ty::Prim(Prim::Boolean) }), Variable { variable_id: VariableId(3), ty: Ty::Prim(Prim::Boolean) }),
        Instruction::Branch(Variable { variable_id: VariableId(3), ty: Ty::Prim(Prim::Boolean) }, BlockId(5), BlockId(6), None),
    ]));
assert_eq!(program.get_block(BlockId(3)), &Block(vec![
        Instruction::Jump(BlockId(7)),
    ]));
assert_eq!(program.get_block(BlockId(4)), &Block(vec![
        Instruction::Jump(BlockId(7)),
    ]));
assert_eq!(program.get_block(BlockId(5)), &Block(vec![
        Instruction::Jump(BlockId(7)),
    ]));
assert_eq!(program.get_block(BlockId(6)), &Block(vec![
        Instruction::LogicalNot(Operand::Variable(Variable { variable_id: VariableId(3), ty: Ty::Prim(Prim::Boolean) }), Variable { variable_id: VariableId(4), ty: Ty::Prim(Prim::Boolean) }),
        Instruction::Jump(BlockId(7)),
    ]));
assert_eq!(program.get_block(BlockId(7)), &Block(vec![
        Instruction::Phi(vec![(Operand::Variable(Variable { variable_id: VariableId(2), ty: Ty::Prim(Prim::Boolean) }), BlockId(3)), (Operand::Variable(Variable { variable_id: VariableId(2), ty: Ty::Prim(Prim::Boolean) }), BlockId(4)), (Operand::Variable(Variable { variable_id: VariableId(3), ty: Ty::Prim(Prim::Boolean) }), BlockId(5)), (Operand::Variable(Variable { variable_id: VariableId(4), ty: Ty::Prim(Prim::Boolean) }), BlockId(6))], Variable { variable_id: VariableId(6), ty: Ty::Prim(Prim::Boolean) }),
        Instruction::LogicalNot(Operand::Variable(Variable { variable_id: VariableId(6), ty: Ty::Prim(Prim::Boolean) }), Variable { variable_id: VariableId(5), ty: Ty::Prim(Prim::Boolean) }),
        Instruction::Return(None),
    ]));
assert!(program.tags.is_empty());
}

#[test]
fn ssa_transform_inserts_phi_for_multiple_stored_values() {
    let mut program = new_program();
    program.callables.insert(
        CallableId(1),
        Callable {
            name: "dynamic_bool".to_string(),
            input_type: Vec::new(),
            output_type: Some(Ty::Prim(Prim::Boolean)),
            body: None,
            input_vars: Vec::new(),
            call_type: CallableType::Regular,
        },
    );

    program.blocks.insert(
        BlockId(0),
        Block(vec![
            Instruction::Call(
                CallableId(1),
                Vec::new(),
                Some(Variable {
                    variable_id: VariableId(0),
                    ty: Ty::Prim(Prim::Boolean),
                }),
                None,
            ),
            Instruction::Store(
                Operand::Variable(Variable {
                    variable_id: VariableId(0),
                    ty: Ty::Prim(Prim::Boolean),
                }),
                Variable {
                    variable_id: VariableId(1),
                    ty: Ty::Prim(Prim::Boolean),
                },
            ),
            Instruction::Store(
                Operand::Variable(Variable {
                    variable_id: VariableId(0),
                    ty: Ty::Prim(Prim::Boolean),
                }),
                Variable {
                    variable_id: VariableId(2),
                    ty: Ty::Prim(Prim::Boolean),
                },
            ),
            Instruction::Branch(
                Variable {
                    variable_id: VariableId(1),
                    ty: Ty::Prim(Prim::Boolean),
                },
                BlockId(1),
                BlockId(2),
                None,
            ),
        ]),
    );
    program.blocks.insert(
        BlockId(1),
        Block(vec![
            Instruction::LogicalNot(
                Operand::Variable(Variable {
                    variable_id: VariableId(1),
                    ty: Ty::Prim(Prim::Boolean),
                }),
                Variable {
                    variable_id: VariableId(3),
                    ty: Ty::Prim(Prim::Boolean),
                },
            ),
            Instruction::Store(
                Operand::Variable(Variable {
                    variable_id: VariableId(3),
                    ty: Ty::Prim(Prim::Boolean),
                }),
                Variable {
                    variable_id: VariableId(1),
                    ty: Ty::Prim(Prim::Boolean),
                },
            ),
            Instruction::Jump(BlockId(3)),
        ]),
    );
    program.blocks.insert(
        BlockId(2),
        Block(vec![
            Instruction::LogicalNot(
                Operand::Variable(Variable {
                    variable_id: VariableId(2),
                    ty: Ty::Prim(Prim::Boolean),
                }),
                Variable {
                    variable_id: VariableId(4),
                    ty: Ty::Prim(Prim::Boolean),
                },
            ),
            Instruction::Store(
                Operand::Variable(Variable {
                    variable_id: VariableId(4),
                    ty: Ty::Prim(Prim::Boolean),
                }),
                Variable {
                    variable_id: VariableId(2),
                    ty: Ty::Prim(Prim::Boolean),
                },
            ),
            Instruction::Jump(BlockId(3)),
        ]),
    );
    program.blocks.insert(
        BlockId(3),
        Block(vec![
            Instruction::LogicalNot(
                Operand::Variable(Variable {
                    variable_id: VariableId(1),
                    ty: Ty::Prim(Prim::Boolean),
                }),
                Variable {
                    variable_id: VariableId(5),
                    ty: Ty::Prim(Prim::Boolean),
                },
            ),
            Instruction::LogicalNot(
                Operand::Variable(Variable {
                    variable_id: VariableId(2),
                    ty: Ty::Prim(Prim::Boolean),
                }),
                Variable {
                    variable_id: VariableId(6),
                    ty: Ty::Prim(Prim::Boolean),
                },
            ),
            Instruction::Return(None),
        ]),
    );

    // Before
    assert_eq!(program.entry, CallableId(0));
assert_eq!(program.config.capabilities, TargetCapabilityFlags::empty());
assert_eq!(program.num_qubits, 0);
assert_eq!(program.num_results, 0);
assert_eq!(program.all_callable_ids(), vec![CallableId(0), CallableId(1)]);
assert_eq!(program.get_callable(CallableId(0)).name, "main");
assert_eq!(program.get_callable(CallableId(0)).call_type, CallableType::Regular);
assert!(program.get_callable(CallableId(0)).input_type.is_empty());
assert!(program.get_callable(CallableId(0)).input_vars.is_empty());
assert_eq!(program.get_callable(CallableId(0)).output_type, Some(Ty::Prim(Prim::Integer)));
assert_eq!(program.get_callable(CallableId(0)).body, Some(BlockId(0)));
assert_eq!(program.get_callable(CallableId(1)).name, "dynamic_bool");
assert_eq!(program.get_callable(CallableId(1)).call_type, CallableType::Regular);
assert!(program.get_callable(CallableId(1)).input_type.is_empty());
assert!(program.get_callable(CallableId(1)).input_vars.is_empty());
assert_eq!(program.get_callable(CallableId(1)).output_type, Some(Ty::Prim(Prim::Boolean)));
assert_eq!(program.get_callable(CallableId(1)).body, None);
assert_eq!(program.blocks.keys(), vec![BlockId(0), BlockId(1), BlockId(2), BlockId(3)]);
assert_eq!(program.get_block(BlockId(0)), &Block(vec![
        Instruction::Call(CallableId(1), Vec::new(), Some(Variable { variable_id: VariableId(0), ty: Ty::Prim(Prim::Boolean) }), None),
        Instruction::Store(Operand::Variable(Variable { variable_id: VariableId(0), ty: Ty::Prim(Prim::Boolean) }), Variable { variable_id: VariableId(1), ty: Ty::Prim(Prim::Boolean) }),
        Instruction::Store(Operand::Variable(Variable { variable_id: VariableId(0), ty: Ty::Prim(Prim::Boolean) }), Variable { variable_id: VariableId(2), ty: Ty::Prim(Prim::Boolean) }),
        Instruction::Branch(Variable { variable_id: VariableId(1), ty: Ty::Prim(Prim::Boolean) }, BlockId(1), BlockId(2), None),
    ]));
assert_eq!(program.get_block(BlockId(1)), &Block(vec![
        Instruction::LogicalNot(Operand::Variable(Variable { variable_id: VariableId(1), ty: Ty::Prim(Prim::Boolean) }), Variable { variable_id: VariableId(3), ty: Ty::Prim(Prim::Boolean) }),
        Instruction::Store(Operand::Variable(Variable { variable_id: VariableId(3), ty: Ty::Prim(Prim::Boolean) }), Variable { variable_id: VariableId(1), ty: Ty::Prim(Prim::Boolean) }),
        Instruction::Jump(BlockId(3)),
    ]));
assert_eq!(program.get_block(BlockId(2)), &Block(vec![
        Instruction::LogicalNot(Operand::Variable(Variable { variable_id: VariableId(2), ty: Ty::Prim(Prim::Boolean) }), Variable { variable_id: VariableId(4), ty: Ty::Prim(Prim::Boolean) }),
        Instruction::Store(Operand::Variable(Variable { variable_id: VariableId(4), ty: Ty::Prim(Prim::Boolean) }), Variable { variable_id: VariableId(2), ty: Ty::Prim(Prim::Boolean) }),
        Instruction::Jump(BlockId(3)),
    ]));
assert_eq!(program.get_block(BlockId(3)), &Block(vec![
        Instruction::LogicalNot(Operand::Variable(Variable { variable_id: VariableId(1), ty: Ty::Prim(Prim::Boolean) }), Variable { variable_id: VariableId(5), ty: Ty::Prim(Prim::Boolean) }),
        Instruction::LogicalNot(Operand::Variable(Variable { variable_id: VariableId(2), ty: Ty::Prim(Prim::Boolean) }), Variable { variable_id: VariableId(6), ty: Ty::Prim(Prim::Boolean) }),
        Instruction::Return(None),
    ]));
assert!(program.tags.is_empty());

    // After
    transform_program(&mut program);
    assert_eq!(program.entry, CallableId(0));
assert_eq!(program.config.capabilities, TargetCapabilityFlags::adaptive().union(TargetCapabilityFlags::integer_computations()).union(TargetCapabilityFlags::floating_point_computations()));
assert_eq!(program.num_qubits, 0);
assert_eq!(program.num_results, 0);
assert_eq!(program.all_callable_ids(), vec![CallableId(0), CallableId(1)]);
assert_eq!(program.get_callable(CallableId(0)).name, "main");
assert_eq!(program.get_callable(CallableId(0)).call_type, CallableType::Regular);
assert!(program.get_callable(CallableId(0)).input_type.is_empty());
assert!(program.get_callable(CallableId(0)).input_vars.is_empty());
assert_eq!(program.get_callable(CallableId(0)).output_type, Some(Ty::Prim(Prim::Integer)));
assert_eq!(program.get_callable(CallableId(0)).body, Some(BlockId(0)));
assert_eq!(program.get_callable(CallableId(1)).name, "dynamic_bool");
assert_eq!(program.get_callable(CallableId(1)).call_type, CallableType::Regular);
assert!(program.get_callable(CallableId(1)).input_type.is_empty());
assert!(program.get_callable(CallableId(1)).input_vars.is_empty());
assert_eq!(program.get_callable(CallableId(1)).output_type, Some(Ty::Prim(Prim::Boolean)));
assert_eq!(program.get_callable(CallableId(1)).body, None);
assert_eq!(program.blocks.keys(), vec![BlockId(0), BlockId(1), BlockId(2), BlockId(3)]);
assert_eq!(program.get_block(BlockId(0)), &Block(vec![
        Instruction::Call(CallableId(1), Vec::new(), Some(Variable { variable_id: VariableId(0), ty: Ty::Prim(Prim::Boolean) }), None),
        Instruction::Branch(Variable { variable_id: VariableId(0), ty: Ty::Prim(Prim::Boolean) }, BlockId(1), BlockId(2), None),
    ]));
assert_eq!(program.get_block(BlockId(1)), &Block(vec![
        Instruction::LogicalNot(Operand::Variable(Variable { variable_id: VariableId(0), ty: Ty::Prim(Prim::Boolean) }), Variable { variable_id: VariableId(3), ty: Ty::Prim(Prim::Boolean) }),
        Instruction::Jump(BlockId(3)),
    ]));
assert_eq!(program.get_block(BlockId(2)), &Block(vec![
        Instruction::LogicalNot(Operand::Variable(Variable { variable_id: VariableId(0), ty: Ty::Prim(Prim::Boolean) }), Variable { variable_id: VariableId(4), ty: Ty::Prim(Prim::Boolean) }),
        Instruction::Jump(BlockId(3)),
    ]));
assert_eq!(program.get_block(BlockId(3)), &Block(vec![
        Instruction::Phi(vec![(Operand::Variable(Variable { variable_id: VariableId(0), ty: Ty::Prim(Prim::Boolean) }), BlockId(1)), (Operand::Variable(Variable { variable_id: VariableId(4), ty: Ty::Prim(Prim::Boolean) }), BlockId(2))], Variable { variable_id: VariableId(8), ty: Ty::Prim(Prim::Boolean) }),
        Instruction::Phi(vec![(Operand::Variable(Variable { variable_id: VariableId(3), ty: Ty::Prim(Prim::Boolean) }), BlockId(1)), (Operand::Variable(Variable { variable_id: VariableId(0), ty: Ty::Prim(Prim::Boolean) }), BlockId(2))], Variable { variable_id: VariableId(7), ty: Ty::Prim(Prim::Boolean) }),
        Instruction::LogicalNot(Operand::Variable(Variable { variable_id: VariableId(7), ty: Ty::Prim(Prim::Boolean) }), Variable { variable_id: VariableId(5), ty: Ty::Prim(Prim::Boolean) }),
        Instruction::LogicalNot(Operand::Variable(Variable { variable_id: VariableId(8), ty: Ty::Prim(Prim::Boolean) }), Variable { variable_id: VariableId(6), ty: Ty::Prim(Prim::Boolean) }),
        Instruction::Return(None),
    ]));
assert!(program.tags.is_empty());
}

#[test]
fn ssa_transform_inserts_phi_nodes_in_successive_blocks_for_chained_branches() {
    let var = |id: u32| Variable {
        variable_id: VariableId(id),
        ty: Ty::Prim(Prim::Boolean),
    };
    let not = |from: u32, to: u32| Instruction::LogicalNot(Operand::Variable(var(from)), var(to));
    let store = |from: u32, to: u32| Instruction::Store(Operand::Variable(var(from)), var(to));
    let mut program = new_program();
    program.callables.insert(
        CallableId(1),
        Callable {
            name: "dynamic_bool".to_string(),
            input_type: Vec::new(),
            output_type: Some(Ty::Prim(Prim::Boolean)),
            body: None,
            input_vars: Vec::new(),
            call_type: CallableType::Regular,
        },
    );
    program.blocks.insert(
        BlockId(0),
        Block(vec![
            Instruction::Call(CallableId(1), Vec::new(), Some(var(0)), None),
            store(0, 1),
            Instruction::Branch(var(1), BlockId(1), BlockId(2), None),
        ]),
    );
    program.blocks.insert(
        BlockId(1),
        Block(vec![not(1, 2), store(2, 1), Instruction::Branch(var(1), BlockId(3), BlockId(4), None)]),
    );
    program.blocks.insert(BlockId(2), Block(vec![not(1, 3), store(3, 1), Instruction::Jump(BlockId(5))]));
    program.blocks.insert(BlockId(3), Block(vec![not(1, 4), store(4, 1), Instruction::Jump(BlockId(6))]));
    program.blocks.insert(BlockId(4), Block(vec![not(1, 5), store(5, 1), Instruction::Jump(BlockId(6))]));
    program.blocks.insert(BlockId(5), Block(vec![not(1, 6), store(6, 1), Instruction::Jump(BlockId(7))]));
    program.blocks.insert(BlockId(6), Block(vec![not(1, 7), store(7, 1), Instruction::Jump(BlockId(7))]));
    program.blocks.insert(BlockId(7), Block(vec![not(1, 8), Instruction::Return(None)]));

    // Before
    assert_eq!(program.config.capabilities, TargetCapabilityFlags::empty());
    assert_eq!(
        program.blocks.keys(),
        (0..8).map(BlockId).collect::<Vec<_>>()
    );
    assert_eq!(program.get_callable(CallableId(0)).body, Some(BlockId(0)));
    assert_eq!(program.get_callable(CallableId(1)).body, None);

    // After
    transform_program(&mut program);
    assert_eq!(
        program.config.capabilities,
        TargetCapabilityFlags::adaptive()
            .union(TargetCapabilityFlags::integer_computations())
            .union(TargetCapabilityFlags::floating_point_computations())
    );
    assert_eq!(program.all_callable_ids(), vec![CallableId(0), CallableId(1)]);
    assert_eq!(program.get_callable(CallableId(0)).name, "main");
    assert_eq!(program.get_callable(CallableId(0)).body, Some(BlockId(0)));
    assert_eq!(program.get_callable(CallableId(1)).name, "dynamic_bool");
    assert_eq!(program.get_callable(CallableId(1)).body, None);
    assert_eq!(
        program.blocks.keys(),
        (0..7).map(BlockId).collect::<Vec<_>>()
    );
    assert_eq!(
        program.get_block(BlockId(0)),
        &Block(vec![
            Instruction::Call(CallableId(1), Vec::new(), Some(var(0)), None),
            Instruction::Branch(var(0), BlockId(1), BlockId(2), None),
        ])
    );
    assert_eq!(
        program.get_block(BlockId(1)),
        &Block(vec![not(0, 2), Instruction::Branch(var(2), BlockId(3), BlockId(4), None)])
    );
    assert_eq!(
        program.get_block(BlockId(2)),
        &Block(vec![not(0, 3), not(3, 6), Instruction::Jump(BlockId(6))])
    );
    assert_eq!(program.get_block(BlockId(3)), &Block(vec![not(2, 4), Instruction::Jump(BlockId(5))]));
    assert_eq!(program.get_block(BlockId(4)), &Block(vec![not(2, 5), Instruction::Jump(BlockId(5))]));
    assert_eq!(
        program.get_block(BlockId(5)),
        &Block(vec![
            Instruction::Phi(
                vec![(Operand::Variable(var(4)), BlockId(3)), (Operand::Variable(var(5)), BlockId(4))],
                var(9),
            ),
            not(9, 7),
            Instruction::Jump(BlockId(6)),
        ])
    );
    assert_eq!(
        program.get_block(BlockId(6)),
        &Block(vec![
            Instruction::Phi(
                vec![(Operand::Variable(var(6)), BlockId(2)), (Operand::Variable(var(7)), BlockId(5))],
                var(10),
            ),
            not(10, 8),
            Instruction::Return(None),
        ])
    );
    assert!(program.tags.is_empty());
}

#[test]
fn ssa_transform_inerts_phi_nodes_for_early_return_graph_pattern() {
    let mut program = new_program();
    program.callables.insert(
        CallableId(1),
        Callable {
            name: "dynamic_bool".to_string(),
            input_type: Vec::new(),
            output_type: Some(Ty::Prim(Prim::Boolean)),
            body: None,
            input_vars: Vec::new(),
            call_type: CallableType::Regular,
        },
    );

    program.blocks.insert(
        BlockId(0),
        Block(vec![
            Instruction::Call(
                CallableId(1),
                Vec::new(),
                Some(Variable {
                    variable_id: VariableId(0),
                    ty: Ty::Prim(Prim::Boolean),
                }),
                None,
            ),
            Instruction::Store(
                Operand::Variable(Variable {
                    variable_id: VariableId(0),
                    ty: Ty::Prim(Prim::Boolean),
                }),
                Variable {
                    variable_id: VariableId(1),
                    ty: Ty::Prim(Prim::Boolean),
                },
            ),
            Instruction::Branch(
                Variable {
                    variable_id: VariableId(1),
                    ty: Ty::Prim(Prim::Boolean),
                },
                BlockId(1),
                BlockId(2),
                None,
            ),
        ]),
    );
    program.blocks.insert(
        BlockId(1),
        Block(vec![
            Instruction::LogicalNot(
                Operand::Variable(Variable {
                    variable_id: VariableId(1),
                    ty: Ty::Prim(Prim::Boolean),
                }),
                Variable {
                    variable_id: VariableId(2),
                    ty: Ty::Prim(Prim::Boolean),
                },
            ),
            Instruction::Store(
                Operand::Variable(Variable {
                    variable_id: VariableId(2),
                    ty: Ty::Prim(Prim::Boolean),
                }),
                Variable {
                    variable_id: VariableId(1),
                    ty: Ty::Prim(Prim::Boolean),
                },
            ),
            Instruction::Jump(BlockId(3)),
        ]),
    );
    program.blocks.insert(
        BlockId(2),
        Block(vec![
            Instruction::LogicalNot(
                Operand::Variable(Variable {
                    variable_id: VariableId(1),
                    ty: Ty::Prim(Prim::Boolean),
                }),
                Variable {
                    variable_id: VariableId(3),
                    ty: Ty::Prim(Prim::Boolean),
                },
            ),
            Instruction::Store(
                Operand::Variable(Variable {
                    variable_id: VariableId(3),
                    ty: Ty::Prim(Prim::Boolean),
                }),
                Variable {
                    variable_id: VariableId(1),
                    ty: Ty::Prim(Prim::Boolean),
                },
            ),
            Instruction::Branch(
                Variable {
                    variable_id: VariableId(1),
                    ty: Ty::Prim(Prim::Boolean),
                },
                BlockId(4),
                BlockId(5),
                None,
            ),
        ]),
    );
    program.blocks.insert(
        BlockId(3),
        Block(vec![
            Instruction::LogicalNot(
                Operand::Variable(Variable {
                    variable_id: VariableId(1),
                    ty: Ty::Prim(Prim::Boolean),
                }),
                Variable {
                    variable_id: VariableId(4),
                    ty: Ty::Prim(Prim::Boolean),
                },
            ),
            Instruction::Return(None),
        ]),
    );
    program.blocks.insert(
        BlockId(4),
        Block(vec![
            Instruction::LogicalNot(
                Operand::Variable(Variable {
                    variable_id: VariableId(1),
                    ty: Ty::Prim(Prim::Boolean),
                }),
                Variable {
                    variable_id: VariableId(5),
                    ty: Ty::Prim(Prim::Boolean),
                },
            ),
            Instruction::Store(
                Operand::Variable(Variable {
                    variable_id: VariableId(5),
                    ty: Ty::Prim(Prim::Boolean),
                }),
                Variable {
                    variable_id: VariableId(1),
                    ty: Ty::Prim(Prim::Boolean),
                },
            ),
            Instruction::Jump(BlockId(6)),
        ]),
    );
    program.blocks.insert(
        BlockId(5),
        Block(vec![
            Instruction::LogicalNot(
                Operand::Variable(Variable {
                    variable_id: VariableId(1),
                    ty: Ty::Prim(Prim::Boolean),
                }),
                Variable {
                    variable_id: VariableId(6),
                    ty: Ty::Prim(Prim::Boolean),
                },
            ),
            Instruction::Store(
                Operand::Variable(Variable {
                    variable_id: VariableId(6),
                    ty: Ty::Prim(Prim::Boolean),
                }),
                Variable {
                    variable_id: VariableId(1),
                    ty: Ty::Prim(Prim::Boolean),
                },
            ),
            Instruction::Jump(BlockId(6)),
        ]),
    );
    program.blocks.insert(
        BlockId(6),
        Block(vec![
            Instruction::LogicalNot(
                Operand::Variable(Variable {
                    variable_id: VariableId(1),
                    ty: Ty::Prim(Prim::Boolean),
                }),
                Variable {
                    variable_id: VariableId(7),
                    ty: Ty::Prim(Prim::Boolean),
                },
            ),
            Instruction::Jump(BlockId(3)),
        ]),
    );

    // Before
    assert_eq!(program.entry, CallableId(0));
assert_eq!(program.config.capabilities, TargetCapabilityFlags::empty());
assert_eq!(program.num_qubits, 0);
assert_eq!(program.num_results, 0);
assert_eq!(program.all_callable_ids(), vec![CallableId(0), CallableId(1)]);
assert_eq!(program.get_callable(CallableId(0)).name, "main");
assert_eq!(program.get_callable(CallableId(0)).call_type, CallableType::Regular);
assert!(program.get_callable(CallableId(0)).input_type.is_empty());
assert!(program.get_callable(CallableId(0)).input_vars.is_empty());
assert_eq!(program.get_callable(CallableId(0)).output_type, Some(Ty::Prim(Prim::Integer)));
assert_eq!(program.get_callable(CallableId(0)).body, Some(BlockId(0)));
assert_eq!(program.get_callable(CallableId(1)).name, "dynamic_bool");
assert_eq!(program.get_callable(CallableId(1)).call_type, CallableType::Regular);
assert!(program.get_callable(CallableId(1)).input_type.is_empty());
assert!(program.get_callable(CallableId(1)).input_vars.is_empty());
assert_eq!(program.get_callable(CallableId(1)).output_type, Some(Ty::Prim(Prim::Boolean)));
assert_eq!(program.get_callable(CallableId(1)).body, None);
assert_eq!(program.blocks.keys(), vec![BlockId(0), BlockId(1), BlockId(2), BlockId(3), BlockId(4), BlockId(5), BlockId(6)]);
assert_eq!(program.get_block(BlockId(0)), &Block(vec![
        Instruction::Call(CallableId(1), Vec::new(), Some(Variable { variable_id: VariableId(0), ty: Ty::Prim(Prim::Boolean) }), None),
        Instruction::Store(Operand::Variable(Variable { variable_id: VariableId(0), ty: Ty::Prim(Prim::Boolean) }), Variable { variable_id: VariableId(1), ty: Ty::Prim(Prim::Boolean) }),
        Instruction::Branch(Variable { variable_id: VariableId(1), ty: Ty::Prim(Prim::Boolean) }, BlockId(1), BlockId(2), None),
    ]));
assert_eq!(program.get_block(BlockId(1)), &Block(vec![
        Instruction::LogicalNot(Operand::Variable(Variable { variable_id: VariableId(1), ty: Ty::Prim(Prim::Boolean) }), Variable { variable_id: VariableId(2), ty: Ty::Prim(Prim::Boolean) }),
        Instruction::Store(Operand::Variable(Variable { variable_id: VariableId(2), ty: Ty::Prim(Prim::Boolean) }), Variable { variable_id: VariableId(1), ty: Ty::Prim(Prim::Boolean) }),
        Instruction::Jump(BlockId(3)),
    ]));
assert_eq!(program.get_block(BlockId(2)), &Block(vec![
        Instruction::LogicalNot(Operand::Variable(Variable { variable_id: VariableId(1), ty: Ty::Prim(Prim::Boolean) }), Variable { variable_id: VariableId(3), ty: Ty::Prim(Prim::Boolean) }),
        Instruction::Store(Operand::Variable(Variable { variable_id: VariableId(3), ty: Ty::Prim(Prim::Boolean) }), Variable { variable_id: VariableId(1), ty: Ty::Prim(Prim::Boolean) }),
        Instruction::Branch(Variable { variable_id: VariableId(1), ty: Ty::Prim(Prim::Boolean) }, BlockId(4), BlockId(5), None),
    ]));
assert_eq!(program.get_block(BlockId(3)), &Block(vec![
        Instruction::LogicalNot(Operand::Variable(Variable { variable_id: VariableId(1), ty: Ty::Prim(Prim::Boolean) }), Variable { variable_id: VariableId(4), ty: Ty::Prim(Prim::Boolean) }),
        Instruction::Return(None),
    ]));
assert_eq!(program.get_block(BlockId(4)), &Block(vec![
        Instruction::LogicalNot(Operand::Variable(Variable { variable_id: VariableId(1), ty: Ty::Prim(Prim::Boolean) }), Variable { variable_id: VariableId(5), ty: Ty::Prim(Prim::Boolean) }),
        Instruction::Store(Operand::Variable(Variable { variable_id: VariableId(5), ty: Ty::Prim(Prim::Boolean) }), Variable { variable_id: VariableId(1), ty: Ty::Prim(Prim::Boolean) }),
        Instruction::Jump(BlockId(6)),
    ]));
assert_eq!(program.get_block(BlockId(5)), &Block(vec![
        Instruction::LogicalNot(Operand::Variable(Variable { variable_id: VariableId(1), ty: Ty::Prim(Prim::Boolean) }), Variable { variable_id: VariableId(6), ty: Ty::Prim(Prim::Boolean) }),
        Instruction::Store(Operand::Variable(Variable { variable_id: VariableId(6), ty: Ty::Prim(Prim::Boolean) }), Variable { variable_id: VariableId(1), ty: Ty::Prim(Prim::Boolean) }),
        Instruction::Jump(BlockId(6)),
    ]));
assert_eq!(program.get_block(BlockId(6)), &Block(vec![
        Instruction::LogicalNot(Operand::Variable(Variable { variable_id: VariableId(1), ty: Ty::Prim(Prim::Boolean) }), Variable { variable_id: VariableId(7), ty: Ty::Prim(Prim::Boolean) }),
        Instruction::Jump(BlockId(3)),
    ]));
assert!(program.tags.is_empty());

    // After
    transform_program(&mut program);
    assert_eq!(program.entry, CallableId(0));
assert_eq!(program.config.capabilities, TargetCapabilityFlags::adaptive().union(TargetCapabilityFlags::integer_computations()).union(TargetCapabilityFlags::floating_point_computations()));
assert_eq!(program.num_qubits, 0);
assert_eq!(program.num_results, 0);
assert_eq!(program.all_callable_ids(), vec![CallableId(0), CallableId(1)]);
assert_eq!(program.get_callable(CallableId(0)).name, "main");
assert_eq!(program.get_callable(CallableId(0)).call_type, CallableType::Regular);
assert!(program.get_callable(CallableId(0)).input_type.is_empty());
assert!(program.get_callable(CallableId(0)).input_vars.is_empty());
assert_eq!(program.get_callable(CallableId(0)).output_type, Some(Ty::Prim(Prim::Integer)));
assert_eq!(program.get_callable(CallableId(0)).body, Some(BlockId(0)));
assert_eq!(program.get_callable(CallableId(1)).name, "dynamic_bool");
assert_eq!(program.get_callable(CallableId(1)).call_type, CallableType::Regular);
assert!(program.get_callable(CallableId(1)).input_type.is_empty());
assert!(program.get_callable(CallableId(1)).input_vars.is_empty());
assert_eq!(program.get_callable(CallableId(1)).output_type, Some(Ty::Prim(Prim::Boolean)));
assert_eq!(program.get_callable(CallableId(1)).body, None);
assert_eq!(program.blocks.keys(), vec![BlockId(0), BlockId(1), BlockId(2), BlockId(3), BlockId(4), BlockId(5), BlockId(6)]);
assert_eq!(program.get_block(BlockId(0)), &Block(vec![
        Instruction::Call(CallableId(1), Vec::new(), Some(Variable { variable_id: VariableId(0), ty: Ty::Prim(Prim::Boolean) }), None),
        Instruction::Branch(Variable { variable_id: VariableId(0), ty: Ty::Prim(Prim::Boolean) }, BlockId(1), BlockId(2), None),
    ]));
assert_eq!(program.get_block(BlockId(1)), &Block(vec![
        Instruction::LogicalNot(Operand::Variable(Variable { variable_id: VariableId(0), ty: Ty::Prim(Prim::Boolean) }), Variable { variable_id: VariableId(2), ty: Ty::Prim(Prim::Boolean) }),
        Instruction::Jump(BlockId(6)),
    ]));
assert_eq!(program.get_block(BlockId(2)), &Block(vec![
        Instruction::LogicalNot(Operand::Variable(Variable { variable_id: VariableId(0), ty: Ty::Prim(Prim::Boolean) }), Variable { variable_id: VariableId(3), ty: Ty::Prim(Prim::Boolean) }),
        Instruction::Branch(Variable { variable_id: VariableId(3), ty: Ty::Prim(Prim::Boolean) }, BlockId(3), BlockId(4), None),
    ]));
assert_eq!(program.get_block(BlockId(3)), &Block(vec![
        Instruction::LogicalNot(Operand::Variable(Variable { variable_id: VariableId(3), ty: Ty::Prim(Prim::Boolean) }), Variable { variable_id: VariableId(5), ty: Ty::Prim(Prim::Boolean) }),
        Instruction::Jump(BlockId(5)),
    ]));
assert_eq!(program.get_block(BlockId(4)), &Block(vec![
        Instruction::LogicalNot(Operand::Variable(Variable { variable_id: VariableId(3), ty: Ty::Prim(Prim::Boolean) }), Variable { variable_id: VariableId(6), ty: Ty::Prim(Prim::Boolean) }),
        Instruction::Jump(BlockId(5)),
    ]));
assert_eq!(program.get_block(BlockId(5)), &Block(vec![
        Instruction::Phi(vec![(Operand::Variable(Variable { variable_id: VariableId(5), ty: Ty::Prim(Prim::Boolean) }), BlockId(3)), (Operand::Variable(Variable { variable_id: VariableId(6), ty: Ty::Prim(Prim::Boolean) }), BlockId(4))], Variable { variable_id: VariableId(8), ty: Ty::Prim(Prim::Boolean) }),
        Instruction::LogicalNot(Operand::Variable(Variable { variable_id: VariableId(8), ty: Ty::Prim(Prim::Boolean) }), Variable { variable_id: VariableId(7), ty: Ty::Prim(Prim::Boolean) }),
        Instruction::Jump(BlockId(6)),
    ]));
assert_eq!(program.get_block(BlockId(6)), &Block(vec![
        Instruction::Phi(vec![(Operand::Variable(Variable { variable_id: VariableId(2), ty: Ty::Prim(Prim::Boolean) }), BlockId(1)), (Operand::Variable(Variable { variable_id: VariableId(8), ty: Ty::Prim(Prim::Boolean) }), BlockId(5))], Variable { variable_id: VariableId(9), ty: Ty::Prim(Prim::Boolean) }),
        Instruction::LogicalNot(Operand::Variable(Variable { variable_id: VariableId(9), ty: Ty::Prim(Prim::Boolean) }), Variable { variable_id: VariableId(4), ty: Ty::Prim(Prim::Boolean) }),
        Instruction::Return(None),
    ]));
assert!(program.tags.is_empty());
}

#[test]
fn ssa_transform_propagates_updates_from_multiple_predecessors_to_later_single_successors() {
    let mut program = new_program();
    program.callables.insert(
        CallableId(1),
        Callable {
            name: "dynamic_bool".to_string(),
            input_type: Vec::new(),
            output_type: Some(Ty::Prim(Prim::Boolean)),
            body: None,
            input_vars: Vec::new(),
            call_type: CallableType::Regular,
        },
    );

    // Create a program that has a middle block with multiple predecessors and does not update a value from
    // the dominating entry block (in this case, the bool value for the first branch).
    // All successors of the middle block should have the same value for this variable, even if it isn't used,
    // avoiding a panic in the SSA transformation if the value is not propagated through the variable
    // maps used for updates.
    program.blocks.insert(
        BlockId(0),
        Block(vec![
            Instruction::Call(
                CallableId(1),
                Vec::new(),
                Some(Variable {
                    variable_id: VariableId(0),
                    ty: Ty::Prim(Prim::Boolean),
                }),
                None,
            ),
            Instruction::Store(
                Operand::Variable(Variable {
                    variable_id: VariableId(0),
                    ty: Ty::Prim(Prim::Boolean),
                }),
                Variable {
                    variable_id: VariableId(1),
                    ty: Ty::Prim(Prim::Boolean),
                },
            ),
            Instruction::Branch(
                Variable {
                    variable_id: VariableId(1),
                    ty: Ty::Prim(Prim::Boolean),
                },
                BlockId(1),
                BlockId(2),
                None,
            ),
        ]),
    );
    program
        .blocks
        .insert(BlockId(1), Block(vec![Instruction::Jump(BlockId(2))]));
    program.blocks.insert(
        BlockId(2),
        Block(vec![
            Instruction::Call(
                CallableId(1),
                Vec::new(),
                Some(Variable {
                    variable_id: VariableId(2),
                    ty: Ty::Prim(Prim::Boolean),
                }),
                None,
            ),
            Instruction::Store(
                Operand::Variable(Variable {
                    variable_id: VariableId(2),
                    ty: Ty::Prim(Prim::Boolean),
                }),
                Variable {
                    variable_id: VariableId(3),
                    ty: Ty::Prim(Prim::Boolean),
                },
            ),
            Instruction::Branch(
                Variable {
                    variable_id: VariableId(3),
                    ty: Ty::Prim(Prim::Boolean),
                },
                BlockId(3),
                BlockId(4),
                None,
            ),
        ]),
    );
    program
        .blocks
        .insert(BlockId(3), Block(vec![Instruction::Jump(BlockId(4))]));
    program
        .blocks
        .insert(BlockId(4), Block(vec![Instruction::Return(None)]));

    // Before
    assert_eq!(program.entry, CallableId(0));
assert_eq!(program.config.capabilities, TargetCapabilityFlags::empty());
assert_eq!(program.num_qubits, 0);
assert_eq!(program.num_results, 0);
assert_eq!(program.all_callable_ids(), vec![CallableId(0), CallableId(1)]);
assert_eq!(program.get_callable(CallableId(0)).name, "main");
assert_eq!(program.get_callable(CallableId(0)).call_type, CallableType::Regular);
assert!(program.get_callable(CallableId(0)).input_type.is_empty());
assert!(program.get_callable(CallableId(0)).input_vars.is_empty());
assert_eq!(program.get_callable(CallableId(0)).output_type, Some(Ty::Prim(Prim::Integer)));
assert_eq!(program.get_callable(CallableId(0)).body, Some(BlockId(0)));
assert_eq!(program.get_callable(CallableId(1)).name, "dynamic_bool");
assert_eq!(program.get_callable(CallableId(1)).call_type, CallableType::Regular);
assert!(program.get_callable(CallableId(1)).input_type.is_empty());
assert!(program.get_callable(CallableId(1)).input_vars.is_empty());
assert_eq!(program.get_callable(CallableId(1)).output_type, Some(Ty::Prim(Prim::Boolean)));
assert_eq!(program.get_callable(CallableId(1)).body, None);
assert_eq!(program.blocks.keys(), vec![BlockId(0), BlockId(1), BlockId(2), BlockId(3), BlockId(4)]);
assert_eq!(program.get_block(BlockId(0)), &Block(vec![
        Instruction::Call(CallableId(1), Vec::new(), Some(Variable { variable_id: VariableId(0), ty: Ty::Prim(Prim::Boolean) }), None),
        Instruction::Store(Operand::Variable(Variable { variable_id: VariableId(0), ty: Ty::Prim(Prim::Boolean) }), Variable { variable_id: VariableId(1), ty: Ty::Prim(Prim::Boolean) }),
        Instruction::Branch(Variable { variable_id: VariableId(1), ty: Ty::Prim(Prim::Boolean) }, BlockId(1), BlockId(2), None),
    ]));
assert_eq!(program.get_block(BlockId(1)), &Block(vec![
        Instruction::Jump(BlockId(2)),
    ]));
assert_eq!(program.get_block(BlockId(2)), &Block(vec![
        Instruction::Call(CallableId(1), Vec::new(), Some(Variable { variable_id: VariableId(2), ty: Ty::Prim(Prim::Boolean) }), None),
        Instruction::Store(Operand::Variable(Variable { variable_id: VariableId(2), ty: Ty::Prim(Prim::Boolean) }), Variable { variable_id: VariableId(3), ty: Ty::Prim(Prim::Boolean) }),
        Instruction::Branch(Variable { variable_id: VariableId(3), ty: Ty::Prim(Prim::Boolean) }, BlockId(3), BlockId(4), None),
    ]));
assert_eq!(program.get_block(BlockId(3)), &Block(vec![
        Instruction::Jump(BlockId(4)),
    ]));
assert_eq!(program.get_block(BlockId(4)), &Block(vec![
        Instruction::Return(None),
    ]));
assert!(program.tags.is_empty());

    // After
    transform_program(&mut program);
    assert_eq!(program.entry, CallableId(0));
assert_eq!(program.config.capabilities, TargetCapabilityFlags::adaptive().union(TargetCapabilityFlags::integer_computations()).union(TargetCapabilityFlags::floating_point_computations()));
assert_eq!(program.num_qubits, 0);
assert_eq!(program.num_results, 0);
assert_eq!(program.all_callable_ids(), vec![CallableId(0), CallableId(1)]);
assert_eq!(program.get_callable(CallableId(0)).name, "main");
assert_eq!(program.get_callable(CallableId(0)).call_type, CallableType::Regular);
assert!(program.get_callable(CallableId(0)).input_type.is_empty());
assert!(program.get_callable(CallableId(0)).input_vars.is_empty());
assert_eq!(program.get_callable(CallableId(0)).output_type, Some(Ty::Prim(Prim::Integer)));
assert_eq!(program.get_callable(CallableId(0)).body, Some(BlockId(0)));
assert_eq!(program.get_callable(CallableId(1)).name, "dynamic_bool");
assert_eq!(program.get_callable(CallableId(1)).call_type, CallableType::Regular);
assert!(program.get_callable(CallableId(1)).input_type.is_empty());
assert!(program.get_callable(CallableId(1)).input_vars.is_empty());
assert_eq!(program.get_callable(CallableId(1)).output_type, Some(Ty::Prim(Prim::Boolean)));
assert_eq!(program.get_callable(CallableId(1)).body, None);
assert_eq!(program.blocks.keys(), vec![BlockId(0), BlockId(1), BlockId(2), BlockId(3), BlockId(4)]);
assert_eq!(program.get_block(BlockId(0)), &Block(vec![
        Instruction::Call(CallableId(1), Vec::new(), Some(Variable { variable_id: VariableId(0), ty: Ty::Prim(Prim::Boolean) }), None),
        Instruction::Branch(Variable { variable_id: VariableId(0), ty: Ty::Prim(Prim::Boolean) }, BlockId(1), BlockId(2), None),
    ]));
assert_eq!(program.get_block(BlockId(1)), &Block(vec![
        Instruction::Jump(BlockId(2)),
    ]));
assert_eq!(program.get_block(BlockId(2)), &Block(vec![
        Instruction::Call(CallableId(1), Vec::new(), Some(Variable { variable_id: VariableId(2), ty: Ty::Prim(Prim::Boolean) }), None),
        Instruction::Branch(Variable { variable_id: VariableId(2), ty: Ty::Prim(Prim::Boolean) }, BlockId(3), BlockId(4), None),
    ]));
assert_eq!(program.get_block(BlockId(3)), &Block(vec![
        Instruction::Jump(BlockId(4)),
    ]));
assert_eq!(program.get_block(BlockId(4)), &Block(vec![
        Instruction::Return(None),
    ]));
assert!(program.tags.is_empty());
}

#[test]
fn ssa_transform_maps_store_instrs_that_use_values_from_other_store_instrs() {
    let mut program = new_program();
    program.callables.insert(
        CallableId(1),
        Callable {
            name: "dynamic_bool".to_string(),
            input_type: Vec::new(),
            output_type: Some(Ty::Prim(Prim::Boolean)),
            body: None,
            input_vars: Vec::new(),
            call_type: CallableType::Regular,
        },
    );

    program.blocks.insert(
        BlockId(0),
        Block(vec![
            Instruction::Call(
                CallableId(1),
                Vec::new(),
                Some(Variable {
                    variable_id: VariableId(0),
                    ty: Ty::Prim(Prim::Boolean),
                }),
                None,
            ),
            Instruction::Store(
                Operand::Variable(Variable {
                    variable_id: VariableId(0),
                    ty: Ty::Prim(Prim::Boolean),
                }),
                Variable {
                    variable_id: VariableId(1),
                    ty: Ty::Prim(Prim::Boolean),
                },
            ),
            Instruction::Store(
                Operand::Variable(Variable {
                    variable_id: VariableId(1),
                    ty: Ty::Prim(Prim::Boolean),
                }),
                Variable {
                    variable_id: VariableId(2),
                    ty: Ty::Prim(Prim::Boolean),
                },
            ),
            Instruction::LogicalNot(
                Operand::Variable(Variable {
                    variable_id: VariableId(2),
                    ty: Ty::Prim(Prim::Boolean),
                }),
                Variable {
                    variable_id: VariableId(3),
                    ty: Ty::Prim(Prim::Boolean),
                },
            ),
            Instruction::Return(None),
        ]),
    );

    // Before
    assert_eq!(program.entry, CallableId(0));
assert_eq!(program.config.capabilities, TargetCapabilityFlags::empty());
assert_eq!(program.num_qubits, 0);
assert_eq!(program.num_results, 0);
assert_eq!(program.all_callable_ids(), vec![CallableId(0), CallableId(1)]);
assert_eq!(program.get_callable(CallableId(0)).name, "main");
assert_eq!(program.get_callable(CallableId(0)).call_type, CallableType::Regular);
assert!(program.get_callable(CallableId(0)).input_type.is_empty());
assert!(program.get_callable(CallableId(0)).input_vars.is_empty());
assert_eq!(program.get_callable(CallableId(0)).output_type, Some(Ty::Prim(Prim::Integer)));
assert_eq!(program.get_callable(CallableId(0)).body, Some(BlockId(0)));
assert_eq!(program.get_callable(CallableId(1)).name, "dynamic_bool");
assert_eq!(program.get_callable(CallableId(1)).call_type, CallableType::Regular);
assert!(program.get_callable(CallableId(1)).input_type.is_empty());
assert!(program.get_callable(CallableId(1)).input_vars.is_empty());
assert_eq!(program.get_callable(CallableId(1)).output_type, Some(Ty::Prim(Prim::Boolean)));
assert_eq!(program.get_callable(CallableId(1)).body, None);
assert_eq!(program.blocks.keys(), vec![BlockId(0)]);
assert_eq!(program.get_block(BlockId(0)), &Block(vec![
        Instruction::Call(CallableId(1), Vec::new(), Some(Variable { variable_id: VariableId(0), ty: Ty::Prim(Prim::Boolean) }), None),
        Instruction::Store(Operand::Variable(Variable { variable_id: VariableId(0), ty: Ty::Prim(Prim::Boolean) }), Variable { variable_id: VariableId(1), ty: Ty::Prim(Prim::Boolean) }),
        Instruction::Store(Operand::Variable(Variable { variable_id: VariableId(1), ty: Ty::Prim(Prim::Boolean) }), Variable { variable_id: VariableId(2), ty: Ty::Prim(Prim::Boolean) }),
        Instruction::LogicalNot(Operand::Variable(Variable { variable_id: VariableId(2), ty: Ty::Prim(Prim::Boolean) }), Variable { variable_id: VariableId(3), ty: Ty::Prim(Prim::Boolean) }),
        Instruction::Return(None),
    ]));
assert!(program.tags.is_empty());

    // After
    transform_program(&mut program);
    assert_eq!(program.entry, CallableId(0));
assert_eq!(program.config.capabilities, TargetCapabilityFlags::adaptive().union(TargetCapabilityFlags::integer_computations()).union(TargetCapabilityFlags::floating_point_computations()));
assert_eq!(program.num_qubits, 0);
assert_eq!(program.num_results, 0);
assert_eq!(program.all_callable_ids(), vec![CallableId(0), CallableId(1)]);
assert_eq!(program.get_callable(CallableId(0)).name, "main");
assert_eq!(program.get_callable(CallableId(0)).call_type, CallableType::Regular);
assert!(program.get_callable(CallableId(0)).input_type.is_empty());
assert!(program.get_callable(CallableId(0)).input_vars.is_empty());
assert_eq!(program.get_callable(CallableId(0)).output_type, Some(Ty::Prim(Prim::Integer)));
assert_eq!(program.get_callable(CallableId(0)).body, Some(BlockId(0)));
assert_eq!(program.get_callable(CallableId(1)).name, "dynamic_bool");
assert_eq!(program.get_callable(CallableId(1)).call_type, CallableType::Regular);
assert!(program.get_callable(CallableId(1)).input_type.is_empty());
assert!(program.get_callable(CallableId(1)).input_vars.is_empty());
assert_eq!(program.get_callable(CallableId(1)).output_type, Some(Ty::Prim(Prim::Boolean)));
assert_eq!(program.get_callable(CallableId(1)).body, None);
assert_eq!(program.blocks.keys(), vec![BlockId(0)]);
assert_eq!(program.get_block(BlockId(0)), &Block(vec![
        Instruction::Call(CallableId(1), Vec::new(), Some(Variable { variable_id: VariableId(0), ty: Ty::Prim(Prim::Boolean) }), None),
        Instruction::LogicalNot(Operand::Variable(Variable { variable_id: VariableId(0), ty: Ty::Prim(Prim::Boolean) }), Variable { variable_id: VariableId(3), ty: Ty::Prim(Prim::Boolean) }),
        Instruction::Return(None),
    ]));
assert!(program.tags.is_empty());
}

#[test]
fn ssa_transform_maps_store_with_variable_from_store_in_conditional_to_phi_node() {
    let mut program = new_program();
    program.callables.insert(
        CallableId(1),
        Callable {
            name: "dynamic_bool".to_string(),
            input_type: Vec::new(),
            output_type: Some(Ty::Prim(Prim::Boolean)),
            body: None,
            input_vars: Vec::new(),
            call_type: CallableType::Regular,
        },
    );

    program.blocks.insert(
        BlockId(0),
        Block(vec![
            Instruction::Call(
                CallableId(1),
                Vec::new(),
                Some(Variable {
                    variable_id: VariableId(0),
                    ty: Ty::Prim(Prim::Boolean),
                }),
                None,
            ),
            Instruction::Store(
                Operand::Variable(Variable {
                    variable_id: VariableId(0),
                    ty: Ty::Prim(Prim::Boolean),
                }),
                Variable {
                    variable_id: VariableId(1),
                    ty: Ty::Prim(Prim::Boolean),
                },
            ),
            Instruction::Store(
                Operand::Literal(Literal::Bool(true)),
                Variable {
                    variable_id: VariableId(2),
                    ty: Ty::Prim(Prim::Boolean),
                },
            ),
            Instruction::Branch(
                Variable {
                    variable_id: VariableId(1),
                    ty: Ty::Prim(Prim::Boolean),
                },
                BlockId(1),
                BlockId(2),
                None,
            ),
        ]),
    );
    program.blocks.insert(
        BlockId(1),
        Block(vec![
            Instruction::Store(
                Operand::Variable(Variable {
                    variable_id: VariableId(1),
                    ty: Ty::Prim(Prim::Boolean),
                }),
                Variable {
                    variable_id: VariableId(2),
                    ty: Ty::Prim(Prim::Boolean),
                },
            ),
            Instruction::Jump(BlockId(2)),
        ]),
    );
    program.blocks.insert(
        BlockId(2),
        Block(vec![
            Instruction::LogicalNot(
                Operand::Variable(Variable {
                    variable_id: VariableId(2),
                    ty: Ty::Prim(Prim::Boolean),
                }),
                Variable {
                    variable_id: VariableId(3),
                    ty: Ty::Prim(Prim::Boolean),
                },
            ),
            Instruction::Return(None),
        ]),
    );

    // Before
    assert_eq!(program.entry, CallableId(0));
assert_eq!(program.config.capabilities, TargetCapabilityFlags::empty());
assert_eq!(program.num_qubits, 0);
assert_eq!(program.num_results, 0);
assert_eq!(program.all_callable_ids(), vec![CallableId(0), CallableId(1)]);
assert_eq!(program.get_callable(CallableId(0)).name, "main");
assert_eq!(program.get_callable(CallableId(0)).call_type, CallableType::Regular);
assert!(program.get_callable(CallableId(0)).input_type.is_empty());
assert!(program.get_callable(CallableId(0)).input_vars.is_empty());
assert_eq!(program.get_callable(CallableId(0)).output_type, Some(Ty::Prim(Prim::Integer)));
assert_eq!(program.get_callable(CallableId(0)).body, Some(BlockId(0)));
assert_eq!(program.get_callable(CallableId(1)).name, "dynamic_bool");
assert_eq!(program.get_callable(CallableId(1)).call_type, CallableType::Regular);
assert!(program.get_callable(CallableId(1)).input_type.is_empty());
assert!(program.get_callable(CallableId(1)).input_vars.is_empty());
assert_eq!(program.get_callable(CallableId(1)).output_type, Some(Ty::Prim(Prim::Boolean)));
assert_eq!(program.get_callable(CallableId(1)).body, None);
assert_eq!(program.blocks.keys(), vec![BlockId(0), BlockId(1), BlockId(2)]);
assert_eq!(program.get_block(BlockId(0)), &Block(vec![
        Instruction::Call(CallableId(1), Vec::new(), Some(Variable { variable_id: VariableId(0), ty: Ty::Prim(Prim::Boolean) }), None),
        Instruction::Store(Operand::Variable(Variable { variable_id: VariableId(0), ty: Ty::Prim(Prim::Boolean) }), Variable { variable_id: VariableId(1), ty: Ty::Prim(Prim::Boolean) }),
        Instruction::Store(Operand::Literal(Literal::Bool(true)), Variable { variable_id: VariableId(2), ty: Ty::Prim(Prim::Boolean) }),
        Instruction::Branch(Variable { variable_id: VariableId(1), ty: Ty::Prim(Prim::Boolean) }, BlockId(1), BlockId(2), None),
    ]));
assert_eq!(program.get_block(BlockId(1)), &Block(vec![
        Instruction::Store(Operand::Variable(Variable { variable_id: VariableId(1), ty: Ty::Prim(Prim::Boolean) }), Variable { variable_id: VariableId(2), ty: Ty::Prim(Prim::Boolean) }),
        Instruction::Jump(BlockId(2)),
    ]));
assert_eq!(program.get_block(BlockId(2)), &Block(vec![
        Instruction::LogicalNot(Operand::Variable(Variable { variable_id: VariableId(2), ty: Ty::Prim(Prim::Boolean) }), Variable { variable_id: VariableId(3), ty: Ty::Prim(Prim::Boolean) }),
        Instruction::Return(None),
    ]));
assert!(program.tags.is_empty());

    // After
    transform_program(&mut program);
    assert_eq!(program.entry, CallableId(0));
assert_eq!(program.config.capabilities, TargetCapabilityFlags::adaptive().union(TargetCapabilityFlags::integer_computations()).union(TargetCapabilityFlags::floating_point_computations()));
assert_eq!(program.num_qubits, 0);
assert_eq!(program.num_results, 0);
assert_eq!(program.all_callable_ids(), vec![CallableId(0), CallableId(1)]);
assert_eq!(program.get_callable(CallableId(0)).name, "main");
assert_eq!(program.get_callable(CallableId(0)).call_type, CallableType::Regular);
assert!(program.get_callable(CallableId(0)).input_type.is_empty());
assert!(program.get_callable(CallableId(0)).input_vars.is_empty());
assert_eq!(program.get_callable(CallableId(0)).output_type, Some(Ty::Prim(Prim::Integer)));
assert_eq!(program.get_callable(CallableId(0)).body, Some(BlockId(0)));
assert_eq!(program.get_callable(CallableId(1)).name, "dynamic_bool");
assert_eq!(program.get_callable(CallableId(1)).call_type, CallableType::Regular);
assert!(program.get_callable(CallableId(1)).input_type.is_empty());
assert!(program.get_callable(CallableId(1)).input_vars.is_empty());
assert_eq!(program.get_callable(CallableId(1)).output_type, Some(Ty::Prim(Prim::Boolean)));
assert_eq!(program.get_callable(CallableId(1)).body, None);
assert_eq!(program.blocks.keys(), vec![BlockId(0), BlockId(1), BlockId(2)]);
assert_eq!(program.get_block(BlockId(0)), &Block(vec![
        Instruction::Call(CallableId(1), Vec::new(), Some(Variable { variable_id: VariableId(0), ty: Ty::Prim(Prim::Boolean) }), None),
        Instruction::Branch(Variable { variable_id: VariableId(0), ty: Ty::Prim(Prim::Boolean) }, BlockId(1), BlockId(2), None),
    ]));
assert_eq!(program.get_block(BlockId(1)), &Block(vec![
        Instruction::Jump(BlockId(2)),
    ]));
assert_eq!(program.get_block(BlockId(2)), &Block(vec![
        Instruction::Phi(vec![(Operand::Literal(Literal::Bool(true)), BlockId(0)), (Operand::Variable(Variable { variable_id: VariableId(0), ty: Ty::Prim(Prim::Boolean) }), BlockId(1))], Variable { variable_id: VariableId(4), ty: Ty::Prim(Prim::Boolean) }),
        Instruction::LogicalNot(Operand::Variable(Variable { variable_id: VariableId(4), ty: Ty::Prim(Prim::Boolean) }), Variable { variable_id: VariableId(3), ty: Ty::Prim(Prim::Boolean) }),
        Instruction::Return(None),
    ]));
assert!(program.tags.is_empty());
}

#[test]
fn ssa_transform_allows_point_in_time_copy_of_dynamic_variable() {
    let mut program = new_program();
    program.callables.insert(
        CallableId(1),
        Callable {
            name: "dynamic_bool".to_string(),
            input_type: Vec::new(),
            output_type: Some(Ty::Prim(Prim::Boolean)),
            body: None,
            input_vars: Vec::new(),
            call_type: CallableType::Regular,
        },
    );

    program.blocks.insert(
        BlockId(0),
        Block(vec![
            Instruction::Call(
                CallableId(1),
                Vec::new(),
                Some(Variable {
                    variable_id: VariableId(0),
                    ty: Ty::Prim(Prim::Boolean),
                }),
                None,
            ),
            Instruction::Store(
                Operand::Variable(Variable {
                    variable_id: VariableId(0),
                    ty: Ty::Prim(Prim::Boolean),
                }),
                Variable {
                    variable_id: VariableId(1),
                    ty: Ty::Prim(Prim::Boolean),
                },
            ),
            Instruction::Store(
                Operand::Variable(Variable {
                    variable_id: VariableId(1),
                    ty: Ty::Prim(Prim::Boolean),
                }),
                Variable {
                    variable_id: VariableId(2),
                    ty: Ty::Prim(Prim::Boolean),
                },
            ),
            Instruction::LogicalNot(
                Operand::Variable(Variable {
                    variable_id: VariableId(1),
                    ty: Ty::Prim(Prim::Boolean),
                }),
                Variable {
                    variable_id: VariableId(3),
                    ty: Ty::Prim(Prim::Boolean),
                },
            ),
            Instruction::Store(
                Operand::Variable(Variable {
                    variable_id: VariableId(3),
                    ty: Ty::Prim(Prim::Boolean),
                }),
                Variable {
                    variable_id: VariableId(1),
                    ty: Ty::Prim(Prim::Boolean),
                },
            ),
            Instruction::LogicalNot(
                Operand::Variable(Variable {
                    variable_id: VariableId(2),
                    ty: Ty::Prim(Prim::Boolean),
                }),
                Variable {
                    variable_id: VariableId(4),
                    ty: Ty::Prim(Prim::Boolean),
                },
            ),
            Instruction::LogicalNot(
                Operand::Variable(Variable {
                    variable_id: VariableId(1),
                    ty: Ty::Prim(Prim::Boolean),
                }),
                Variable {
                    variable_id: VariableId(5),
                    ty: Ty::Prim(Prim::Boolean),
                },
            ),
            Instruction::Return(None),
        ]),
    );

    // Before
    assert_eq!(program.entry, CallableId(0));
assert_eq!(program.config.capabilities, TargetCapabilityFlags::empty());
assert_eq!(program.num_qubits, 0);
assert_eq!(program.num_results, 0);
assert_eq!(program.all_callable_ids(), vec![CallableId(0), CallableId(1)]);
assert_eq!(program.get_callable(CallableId(0)).name, "main");
assert_eq!(program.get_callable(CallableId(0)).call_type, CallableType::Regular);
assert!(program.get_callable(CallableId(0)).input_type.is_empty());
assert!(program.get_callable(CallableId(0)).input_vars.is_empty());
assert_eq!(program.get_callable(CallableId(0)).output_type, Some(Ty::Prim(Prim::Integer)));
assert_eq!(program.get_callable(CallableId(0)).body, Some(BlockId(0)));
assert_eq!(program.get_callable(CallableId(1)).name, "dynamic_bool");
assert_eq!(program.get_callable(CallableId(1)).call_type, CallableType::Regular);
assert!(program.get_callable(CallableId(1)).input_type.is_empty());
assert!(program.get_callable(CallableId(1)).input_vars.is_empty());
assert_eq!(program.get_callable(CallableId(1)).output_type, Some(Ty::Prim(Prim::Boolean)));
assert_eq!(program.get_callable(CallableId(1)).body, None);
assert_eq!(program.blocks.keys(), vec![BlockId(0)]);
assert_eq!(program.get_block(BlockId(0)), &Block(vec![
        Instruction::Call(CallableId(1), Vec::new(), Some(Variable { variable_id: VariableId(0), ty: Ty::Prim(Prim::Boolean) }), None),
        Instruction::Store(Operand::Variable(Variable { variable_id: VariableId(0), ty: Ty::Prim(Prim::Boolean) }), Variable { variable_id: VariableId(1), ty: Ty::Prim(Prim::Boolean) }),
        Instruction::Store(Operand::Variable(Variable { variable_id: VariableId(1), ty: Ty::Prim(Prim::Boolean) }), Variable { variable_id: VariableId(2), ty: Ty::Prim(Prim::Boolean) }),
        Instruction::LogicalNot(Operand::Variable(Variable { variable_id: VariableId(1), ty: Ty::Prim(Prim::Boolean) }), Variable { variable_id: VariableId(3), ty: Ty::Prim(Prim::Boolean) }),
        Instruction::Store(Operand::Variable(Variable { variable_id: VariableId(3), ty: Ty::Prim(Prim::Boolean) }), Variable { variable_id: VariableId(1), ty: Ty::Prim(Prim::Boolean) }),
        Instruction::LogicalNot(Operand::Variable(Variable { variable_id: VariableId(2), ty: Ty::Prim(Prim::Boolean) }), Variable { variable_id: VariableId(4), ty: Ty::Prim(Prim::Boolean) }),
        Instruction::LogicalNot(Operand::Variable(Variable { variable_id: VariableId(1), ty: Ty::Prim(Prim::Boolean) }), Variable { variable_id: VariableId(5), ty: Ty::Prim(Prim::Boolean) }),
        Instruction::Return(None),
    ]));
assert!(program.tags.is_empty());

    // After
    transform_program(&mut program);
    assert_eq!(program.entry, CallableId(0));
assert_eq!(program.config.capabilities, TargetCapabilityFlags::adaptive().union(TargetCapabilityFlags::integer_computations()).union(TargetCapabilityFlags::floating_point_computations()));
assert_eq!(program.num_qubits, 0);
assert_eq!(program.num_results, 0);
assert_eq!(program.all_callable_ids(), vec![CallableId(0), CallableId(1)]);
assert_eq!(program.get_callable(CallableId(0)).name, "main");
assert_eq!(program.get_callable(CallableId(0)).call_type, CallableType::Regular);
assert!(program.get_callable(CallableId(0)).input_type.is_empty());
assert!(program.get_callable(CallableId(0)).input_vars.is_empty());
assert_eq!(program.get_callable(CallableId(0)).output_type, Some(Ty::Prim(Prim::Integer)));
assert_eq!(program.get_callable(CallableId(0)).body, Some(BlockId(0)));
assert_eq!(program.get_callable(CallableId(1)).name, "dynamic_bool");
assert_eq!(program.get_callable(CallableId(1)).call_type, CallableType::Regular);
assert!(program.get_callable(CallableId(1)).input_type.is_empty());
assert!(program.get_callable(CallableId(1)).input_vars.is_empty());
assert_eq!(program.get_callable(CallableId(1)).output_type, Some(Ty::Prim(Prim::Boolean)));
assert_eq!(program.get_callable(CallableId(1)).body, None);
assert_eq!(program.blocks.keys(), vec![BlockId(0)]);
assert_eq!(program.get_block(BlockId(0)), &Block(vec![
        Instruction::Call(CallableId(1), Vec::new(), Some(Variable { variable_id: VariableId(0), ty: Ty::Prim(Prim::Boolean) }), None),
        Instruction::LogicalNot(Operand::Variable(Variable { variable_id: VariableId(0), ty: Ty::Prim(Prim::Boolean) }), Variable { variable_id: VariableId(3), ty: Ty::Prim(Prim::Boolean) }),
        Instruction::LogicalNot(Operand::Variable(Variable { variable_id: VariableId(0), ty: Ty::Prim(Prim::Boolean) }), Variable { variable_id: VariableId(4), ty: Ty::Prim(Prim::Boolean) }),
        Instruction::LogicalNot(Operand::Variable(Variable { variable_id: VariableId(3), ty: Ty::Prim(Prim::Boolean) }), Variable { variable_id: VariableId(5), ty: Ty::Prim(Prim::Boolean) }),
        Instruction::Return(None),
    ]));
assert!(program.tags.is_empty());
}

#[test]
fn ssa_transform_propagates_phi_var_to_successor_blocks_across_sequential_branches() {
    let mut program = new_program();
    program.callables.insert(
        CallableId(1),
        Callable {
            name: "dynamic_bool".to_string(),
            input_type: Vec::new(),
            output_type: Some(Ty::Prim(Prim::Boolean)),
            body: None,
            input_vars: Vec::new(),
            call_type: CallableType::Regular,
        },
    );
    program.callables.insert(
        CallableId(2),
        Callable {
            name: "record_bool".to_string(),
            input_type: vec![Ty::Prim(Prim::Boolean)],
            output_type: None,
            body: None,
            input_vars: Vec::new(),
            call_type: CallableType::OutputRecording,
        },
    );

    program.blocks.insert(
        BlockId(0),
        Block(vec![
            Instruction::Call(
                CallableId(1),
                Vec::new(),
                Some(Variable {
                    variable_id: VariableId(0),
                    ty: Ty::Prim(Prim::Boolean),
                }),
                None,
            ),
            Instruction::Store(
                Operand::Literal(Literal::Bool(true)),
                Variable {
                    variable_id: VariableId(1),
                    ty: Ty::Prim(Prim::Boolean),
                },
            ),
            Instruction::Branch(
                Variable {
                    variable_id: VariableId(0),
                    ty: Ty::Prim(Prim::Boolean),
                },
                BlockId(1),
                BlockId(2),
                None,
            ),
        ]),
    );
    program.blocks.insert(
        BlockId(1),
        Block(vec![
            Instruction::Store(
                Operand::Variable(Variable {
                    variable_id: VariableId(1),
                    ty: Ty::Prim(Prim::Boolean),
                }),
                Variable {
                    variable_id: VariableId(3),
                    ty: Ty::Prim(Prim::Boolean),
                },
            ),
            Instruction::Branch(
                Variable {
                    variable_id: VariableId(3),
                    ty: Ty::Prim(Prim::Boolean),
                },
                BlockId(4),
                BlockId(5),
                None,
            ),
        ]),
    );
    program.blocks.insert(
        BlockId(2),
        Block(vec![
            Instruction::Call(
                CallableId(1),
                Vec::new(),
                Some(Variable {
                    variable_id: VariableId(2),
                    ty: Ty::Prim(Prim::Boolean),
                }),
                None,
            ),
            Instruction::Store(
                Operand::Variable(Variable {
                    variable_id: VariableId(2),
                    ty: Ty::Prim(Prim::Boolean),
                }),
                Variable {
                    variable_id: VariableId(1),
                    ty: Ty::Prim(Prim::Boolean),
                },
            ),
            Instruction::Jump(BlockId(1)),
        ]),
    );
    program.blocks.insert(
        BlockId(3),
        Block(vec![
            Instruction::Call(
                CallableId(2),
                vec![Operand::Variable(Variable {
                    variable_id: VariableId(3),
                    ty: Ty::Prim(Prim::Boolean),
                })],
                None,
                None,
            ),
            Instruction::Return(None),
        ]),
    );
    program
        .blocks
        .insert(BlockId(4), Block(vec![Instruction::Jump(BlockId(3))]));
    program
        .blocks
        .insert(BlockId(5), Block(vec![Instruction::Jump(BlockId(3))]));

    // Before
    assert_eq!(program.entry, CallableId(0));
assert_eq!(program.config.capabilities, TargetCapabilityFlags::empty());
assert_eq!(program.num_qubits, 0);
assert_eq!(program.num_results, 0);
assert_eq!(program.all_callable_ids(), vec![CallableId(0), CallableId(1), CallableId(2)]);
assert_eq!(program.get_callable(CallableId(0)).name, "main");
assert_eq!(program.get_callable(CallableId(0)).call_type, CallableType::Regular);
assert!(program.get_callable(CallableId(0)).input_type.is_empty());
assert!(program.get_callable(CallableId(0)).input_vars.is_empty());
assert_eq!(program.get_callable(CallableId(0)).output_type, Some(Ty::Prim(Prim::Integer)));
assert_eq!(program.get_callable(CallableId(0)).body, Some(BlockId(0)));
assert_eq!(program.get_callable(CallableId(1)).name, "dynamic_bool");
assert_eq!(program.get_callable(CallableId(1)).call_type, CallableType::Regular);
assert!(program.get_callable(CallableId(1)).input_type.is_empty());
assert!(program.get_callable(CallableId(1)).input_vars.is_empty());
assert_eq!(program.get_callable(CallableId(1)).output_type, Some(Ty::Prim(Prim::Boolean)));
assert_eq!(program.get_callable(CallableId(1)).body, None);
assert_eq!(program.get_callable(CallableId(2)).name, "record_bool");
assert_eq!(program.get_callable(CallableId(2)).call_type, CallableType::OutputRecording);
assert_eq!(program.get_callable(CallableId(2)).input_type, vec![Ty::Prim(Prim::Boolean)]);
assert!(program.get_callable(CallableId(2)).input_vars.is_empty());
assert_eq!(program.get_callable(CallableId(2)).output_type, None);
assert_eq!(program.get_callable(CallableId(2)).body, None);
assert_eq!(program.blocks.keys(), vec![BlockId(0), BlockId(1), BlockId(2), BlockId(3), BlockId(4), BlockId(5)]);
assert_eq!(program.get_block(BlockId(0)), &Block(vec![
        Instruction::Call(CallableId(1), Vec::new(), Some(Variable { variable_id: VariableId(0), ty: Ty::Prim(Prim::Boolean) }), None),
        Instruction::Store(Operand::Literal(Literal::Bool(true)), Variable { variable_id: VariableId(1), ty: Ty::Prim(Prim::Boolean) }),
        Instruction::Branch(Variable { variable_id: VariableId(0), ty: Ty::Prim(Prim::Boolean) }, BlockId(1), BlockId(2), None),
    ]));
assert_eq!(program.get_block(BlockId(1)), &Block(vec![
        Instruction::Store(Operand::Variable(Variable { variable_id: VariableId(1), ty: Ty::Prim(Prim::Boolean) }), Variable { variable_id: VariableId(3), ty: Ty::Prim(Prim::Boolean) }),
        Instruction::Branch(Variable { variable_id: VariableId(3), ty: Ty::Prim(Prim::Boolean) }, BlockId(4), BlockId(5), None),
    ]));
assert_eq!(program.get_block(BlockId(2)), &Block(vec![
        Instruction::Call(CallableId(1), Vec::new(), Some(Variable { variable_id: VariableId(2), ty: Ty::Prim(Prim::Boolean) }), None),
        Instruction::Store(Operand::Variable(Variable { variable_id: VariableId(2), ty: Ty::Prim(Prim::Boolean) }), Variable { variable_id: VariableId(1), ty: Ty::Prim(Prim::Boolean) }),
        Instruction::Jump(BlockId(1)),
    ]));
assert_eq!(program.get_block(BlockId(3)), &Block(vec![
        Instruction::Call(CallableId(2), vec![Operand::Variable(Variable { variable_id: VariableId(3), ty: Ty::Prim(Prim::Boolean) })], None, None),
        Instruction::Return(None),
    ]));
assert_eq!(program.get_block(BlockId(4)), &Block(vec![
        Instruction::Jump(BlockId(3)),
    ]));
assert_eq!(program.get_block(BlockId(5)), &Block(vec![
        Instruction::Jump(BlockId(3)),
    ]));
assert!(program.tags.is_empty());

    // After
    transform_program(&mut program);
    assert_eq!(program.entry, CallableId(0));
assert_eq!(program.config.capabilities, TargetCapabilityFlags::adaptive().union(TargetCapabilityFlags::integer_computations()).union(TargetCapabilityFlags::floating_point_computations()));
assert_eq!(program.num_qubits, 0);
assert_eq!(program.num_results, 0);
assert_eq!(program.all_callable_ids(), vec![CallableId(0), CallableId(1), CallableId(2)]);
assert_eq!(program.get_callable(CallableId(0)).name, "main");
assert_eq!(program.get_callable(CallableId(0)).call_type, CallableType::Regular);
assert!(program.get_callable(CallableId(0)).input_type.is_empty());
assert!(program.get_callable(CallableId(0)).input_vars.is_empty());
assert_eq!(program.get_callable(CallableId(0)).output_type, Some(Ty::Prim(Prim::Integer)));
assert_eq!(program.get_callable(CallableId(0)).body, Some(BlockId(0)));
assert_eq!(program.get_callable(CallableId(1)).name, "dynamic_bool");
assert_eq!(program.get_callable(CallableId(1)).call_type, CallableType::Regular);
assert!(program.get_callable(CallableId(1)).input_type.is_empty());
assert!(program.get_callable(CallableId(1)).input_vars.is_empty());
assert_eq!(program.get_callable(CallableId(1)).output_type, Some(Ty::Prim(Prim::Boolean)));
assert_eq!(program.get_callable(CallableId(1)).body, None);
assert_eq!(program.get_callable(CallableId(2)).name, "record_bool");
assert_eq!(program.get_callable(CallableId(2)).call_type, CallableType::OutputRecording);
assert_eq!(program.get_callable(CallableId(2)).input_type, vec![Ty::Prim(Prim::Boolean)]);
assert!(program.get_callable(CallableId(2)).input_vars.is_empty());
assert_eq!(program.get_callable(CallableId(2)).output_type, None);
assert_eq!(program.get_callable(CallableId(2)).body, None);
assert_eq!(program.blocks.keys(), vec![BlockId(0), BlockId(1), BlockId(2), BlockId(3), BlockId(4), BlockId(5)]);
assert_eq!(program.get_block(BlockId(0)), &Block(vec![
        Instruction::Call(CallableId(1), Vec::new(), Some(Variable { variable_id: VariableId(0), ty: Ty::Prim(Prim::Boolean) }), None),
        Instruction::Branch(Variable { variable_id: VariableId(0), ty: Ty::Prim(Prim::Boolean) }, BlockId(2), BlockId(1), None),
    ]));
assert_eq!(program.get_block(BlockId(1)), &Block(vec![
        Instruction::Call(CallableId(1), Vec::new(), Some(Variable { variable_id: VariableId(2), ty: Ty::Prim(Prim::Boolean) }), None),
        Instruction::Jump(BlockId(2)),
    ]));
assert_eq!(program.get_block(BlockId(2)), &Block(vec![
        Instruction::Phi(vec![(Operand::Literal(Literal::Bool(true)), BlockId(0)), (Operand::Variable(Variable { variable_id: VariableId(2), ty: Ty::Prim(Prim::Boolean) }), BlockId(1))], Variable { variable_id: VariableId(4), ty: Ty::Prim(Prim::Boolean) }),
        Instruction::Branch(Variable { variable_id: VariableId(4), ty: Ty::Prim(Prim::Boolean) }, BlockId(3), BlockId(4), None),
    ]));
assert_eq!(program.get_block(BlockId(3)), &Block(vec![
        Instruction::Jump(BlockId(5)),
    ]));
assert_eq!(program.get_block(BlockId(4)), &Block(vec![
        Instruction::Jump(BlockId(5)),
    ]));
assert_eq!(program.get_block(BlockId(5)), &Block(vec![
        Instruction::Call(CallableId(2), vec![Operand::Variable(Variable { variable_id: VariableId(4), ty: Ty::Prim(Prim::Boolean) })], None, None),
        Instruction::Return(None),
    ]));
assert!(program.tags.is_empty());
}

#[test]
fn ssa_transform_two_bodies_store_to_phi_independent() {
    // Two bodied callables, each a diamond that stores a different value on each side of the branch
    // and reads the merged value afterward. The second body (the helper) uses lower block ids than
    // the entry body, so the arena is not in callable order. The transform must produce an
    // independent loop-free phi for each body, using distinct freshly minted variable versions.
    let mut program = Program::new();
    program.config.capabilities = TargetCapabilityFlags::from_profile(Profile::AdaptiveRIF);

    program.callables.insert(
        CallableId(0),
        Callable {
            name: "main".to_string(),
            input_type: Vec::new(),
            input_vars: Vec::new(),
            output_type: Some(Ty::Prim(Prim::Integer)),
            body: Some(BlockId(4)),
            call_type: CallableType::Regular,
        },
    );
    program.callables.insert(
        CallableId(1),
        Callable {
            name: "helper".to_string(),
            input_type: Vec::new(),
            input_vars: Vec::new(),
            output_type: Some(Ty::Prim(Prim::Integer)),
            body: Some(BlockId(0)),
            call_type: CallableType::Regular,
        },
    );
    program.callables.insert(
        CallableId(2),
        Callable {
            name: "dynamic_bool".to_string(),
            input_type: Vec::new(),
            input_vars: Vec::new(),
            output_type: Some(Ty::Prim(Prim::Boolean)),
            body: None,
            call_type: CallableType::Regular,
        },
    );

    // Helper body: a store-diamond reading the merged counter.
    program.blocks.insert(
        BlockId(0),
        Block(vec![
            Instruction::Call(
                CallableId(2),
                Vec::new(),
                Some(Variable {
                    variable_id: VariableId(0),
                    ty: Ty::Prim(Prim::Boolean),
                }),
                None,
            ),
            Instruction::Branch(
                Variable {
                    variable_id: VariableId(0),
                    ty: Ty::Prim(Prim::Boolean),
                },
                BlockId(1),
                BlockId(2),
                None,
            ),
        ]),
    );
    program.blocks.insert(
        BlockId(1),
        Block(vec![
            Instruction::Store(
                Operand::Literal(Literal::Integer(10)),
                Variable {
                    variable_id: VariableId(1),
                    ty: Ty::Prim(Prim::Integer),
                },
            ),
            Instruction::Jump(BlockId(3)),
        ]),
    );
    program.blocks.insert(
        BlockId(2),
        Block(vec![
            Instruction::Store(
                Operand::Literal(Literal::Integer(20)),
                Variable {
                    variable_id: VariableId(1),
                    ty: Ty::Prim(Prim::Integer),
                },
            ),
            Instruction::Jump(BlockId(3)),
        ]),
    );
    program.blocks.insert(
        BlockId(3),
        Block(vec![
            Instruction::Add(
                Operand::Variable(Variable {
                    variable_id: VariableId(1),
                    ty: Ty::Prim(Prim::Integer),
                }),
                Operand::Literal(Literal::Integer(1)),
                Variable {
                    variable_id: VariableId(2),
                    ty: Ty::Prim(Prim::Integer),
                },
            ),
            Instruction::Return(Some(Operand::Variable(Variable {
                variable_id: VariableId(2),
                ty: Ty::Prim(Prim::Integer),
            }))),
        ]),
    );

    // Entry body: an independent store-diamond.
    program.blocks.insert(
        BlockId(4),
        Block(vec![
            Instruction::Call(
                CallableId(2),
                Vec::new(),
                Some(Variable {
                    variable_id: VariableId(3),
                    ty: Ty::Prim(Prim::Boolean),
                }),
                None,
            ),
            Instruction::Branch(
                Variable {
                    variable_id: VariableId(3),
                    ty: Ty::Prim(Prim::Boolean),
                },
                BlockId(5),
                BlockId(6),
                None,
            ),
        ]),
    );
    program.blocks.insert(
        BlockId(5),
        Block(vec![
            Instruction::Store(
                Operand::Literal(Literal::Integer(100)),
                Variable {
                    variable_id: VariableId(4),
                    ty: Ty::Prim(Prim::Integer),
                },
            ),
            Instruction::Jump(BlockId(7)),
        ]),
    );
    program.blocks.insert(
        BlockId(6),
        Block(vec![
            Instruction::Store(
                Operand::Literal(Literal::Integer(200)),
                Variable {
                    variable_id: VariableId(4),
                    ty: Ty::Prim(Prim::Integer),
                },
            ),
            Instruction::Jump(BlockId(7)),
        ]),
    );
    program.blocks.insert(
        BlockId(7),
        Block(vec![
            Instruction::Add(
                Operand::Variable(Variable {
                    variable_id: VariableId(4),
                    ty: Ty::Prim(Prim::Integer),
                }),
                Operand::Literal(Literal::Integer(1)),
                Variable {
                    variable_id: VariableId(5),
                    ty: Ty::Prim(Prim::Integer),
                },
            ),
            Instruction::Return(Some(Operand::Variable(Variable {
                variable_id: VariableId(5),
                ty: Ty::Prim(Prim::Integer),
            }))),
        ]),
    );

    program.entry = CallableId(0);

    transform_to_ssa_directly(&mut program);
    assert_eq!(program.entry, CallableId(0));
assert_eq!(program.config.capabilities, TargetCapabilityFlags::adaptive().union(TargetCapabilityFlags::integer_computations()).union(TargetCapabilityFlags::floating_point_computations()));
assert_eq!(program.num_qubits, 0);
assert_eq!(program.num_results, 0);
assert_eq!(program.all_callable_ids(), vec![CallableId(0), CallableId(1), CallableId(2)]);
assert_eq!(program.get_callable(CallableId(0)).name, "main");
assert_eq!(program.get_callable(CallableId(0)).call_type, CallableType::Regular);
assert!(program.get_callable(CallableId(0)).input_type.is_empty());
assert!(program.get_callable(CallableId(0)).input_vars.is_empty());
assert_eq!(program.get_callable(CallableId(0)).output_type, Some(Ty::Prim(Prim::Integer)));
assert_eq!(program.get_callable(CallableId(0)).body, Some(BlockId(4)));
assert_eq!(program.get_callable(CallableId(1)).name, "helper");
assert_eq!(program.get_callable(CallableId(1)).call_type, CallableType::Regular);
assert!(program.get_callable(CallableId(1)).input_type.is_empty());
assert!(program.get_callable(CallableId(1)).input_vars.is_empty());
assert_eq!(program.get_callable(CallableId(1)).output_type, Some(Ty::Prim(Prim::Integer)));
assert_eq!(program.get_callable(CallableId(1)).body, Some(BlockId(0)));
assert_eq!(program.get_callable(CallableId(2)).name, "dynamic_bool");
assert_eq!(program.get_callable(CallableId(2)).call_type, CallableType::Regular);
assert!(program.get_callable(CallableId(2)).input_type.is_empty());
assert!(program.get_callable(CallableId(2)).input_vars.is_empty());
assert_eq!(program.get_callable(CallableId(2)).output_type, Some(Ty::Prim(Prim::Boolean)));
assert_eq!(program.get_callable(CallableId(2)).body, None);
assert_eq!(program.blocks.keys(), vec![BlockId(0), BlockId(1), BlockId(2), BlockId(3), BlockId(4), BlockId(5), BlockId(6), BlockId(7)]);
assert_eq!(program.get_block(BlockId(0)), &Block(vec![
        Instruction::Call(CallableId(2), Vec::new(), Some(Variable { variable_id: VariableId(0), ty: Ty::Prim(Prim::Boolean) }), None),
        Instruction::Branch(Variable { variable_id: VariableId(0), ty: Ty::Prim(Prim::Boolean) }, BlockId(1), BlockId(2), None),
    ]));
assert_eq!(program.get_block(BlockId(1)), &Block(vec![
        Instruction::Jump(BlockId(3)),
    ]));
assert_eq!(program.get_block(BlockId(2)), &Block(vec![
        Instruction::Jump(BlockId(3)),
    ]));
assert_eq!(program.get_block(BlockId(3)), &Block(vec![
        Instruction::Phi(vec![(Operand::Literal(Literal::Integer(10)), BlockId(1)), (Operand::Literal(Literal::Integer(20)), BlockId(2))], Variable { variable_id: VariableId(7), ty: Ty::Prim(Prim::Integer) }),
        Instruction::Add(Operand::Variable(Variable { variable_id: VariableId(7), ty: Ty::Prim(Prim::Integer) }), Operand::Literal(Literal::Integer(1)), Variable { variable_id: VariableId(2), ty: Ty::Prim(Prim::Integer) }),
        Instruction::Return(Some(Operand::Variable(Variable { variable_id: VariableId(2), ty: Ty::Prim(Prim::Integer) }))),
    ]));
assert_eq!(program.get_block(BlockId(4)), &Block(vec![
        Instruction::Call(CallableId(2), Vec::new(), Some(Variable { variable_id: VariableId(3), ty: Ty::Prim(Prim::Boolean) }), None),
        Instruction::Branch(Variable { variable_id: VariableId(3), ty: Ty::Prim(Prim::Boolean) }, BlockId(5), BlockId(6), None),
    ]));
assert_eq!(program.get_block(BlockId(5)), &Block(vec![
        Instruction::Jump(BlockId(7)),
    ]));
assert_eq!(program.get_block(BlockId(6)), &Block(vec![
        Instruction::Jump(BlockId(7)),
    ]));
assert_eq!(program.get_block(BlockId(7)), &Block(vec![
        Instruction::Phi(vec![(Operand::Literal(Literal::Integer(100)), BlockId(5)), (Operand::Literal(Literal::Integer(200)), BlockId(6))], Variable { variable_id: VariableId(6), ty: Ty::Prim(Prim::Integer) }),
        Instruction::Add(Operand::Variable(Variable { variable_id: VariableId(6), ty: Ty::Prim(Prim::Integer) }), Operand::Literal(Literal::Integer(1)), Variable { variable_id: VariableId(5), ty: Ty::Prim(Prim::Integer) }),
        Instruction::Return(Some(Operand::Variable(Variable { variable_id: VariableId(5), ty: Ty::Prim(Prim::Integer) }))),
    ]));
assert!(program.tags.is_empty());
}

#[test]
fn ssa_transform_second_body_entry_identified() {
    // The entry body of `two_body_program` lives in block 2, which is a higher block id than the
    // helper body's blocks. The transform must use each callable's declared `body` as the root rather
    // than assuming block 0 is the entry.
    let mut program = two_body_program();

    transform_to_ssa_directly(&mut program);

    // The entry callable still roots at its declared body.
    assert_eq!(program.get_callable(CallableId(0)).body, Some(BlockId(2)));

    assert_eq!(program.entry, CallableId(0));
assert_eq!(program.config.capabilities, TargetCapabilityFlags::adaptive().union(TargetCapabilityFlags::integer_computations()).union(TargetCapabilityFlags::floating_point_computations()));
assert_eq!(program.num_qubits, 0);
assert_eq!(program.num_results, 0);
assert_eq!(program.all_callable_ids(), vec![CallableId(0), CallableId(1)]);
assert_eq!(program.get_callable(CallableId(0)).name, "main");
assert_eq!(program.get_callable(CallableId(0)).call_type, CallableType::Regular);
assert!(program.get_callable(CallableId(0)).input_type.is_empty());
assert!(program.get_callable(CallableId(0)).input_vars.is_empty());
assert_eq!(program.get_callable(CallableId(0)).output_type, Some(Ty::Prim(Prim::Integer)));
assert_eq!(program.get_callable(CallableId(0)).body, Some(BlockId(2)));
assert_eq!(program.get_callable(CallableId(1)).name, "helper");
assert_eq!(program.get_callable(CallableId(1)).call_type, CallableType::Regular);
assert_eq!(program.get_callable(CallableId(1)).input_type, vec![Ty::Prim(Prim::Integer)]);
assert_eq!(program.get_callable(CallableId(1)).input_vars, vec![VariableId(0)]);
assert_eq!(program.get_callable(CallableId(1)).output_type, Some(Ty::Prim(Prim::Integer)));
assert_eq!(program.get_callable(CallableId(1)).body, Some(BlockId(0)));
assert_eq!(program.blocks.keys(), vec![BlockId(0), BlockId(2)]);
assert_eq!(program.get_block(BlockId(0)), &Block(vec![
        Instruction::Add(Operand::Variable(Variable { variable_id: VariableId(0), ty: Ty::Prim(Prim::Integer) }), Operand::Literal(Literal::Integer(1)), Variable { variable_id: VariableId(1), ty: Ty::Prim(Prim::Integer) }),
        Instruction::Return(Some(Operand::Variable(Variable { variable_id: VariableId(1), ty: Ty::Prim(Prim::Integer) }))),
    ]));
assert_eq!(program.get_block(BlockId(2)), &Block(vec![
        Instruction::Call(CallableId(1), vec![Operand::Literal(Literal::Integer(7))], Some(Variable { variable_id: VariableId(2), ty: Ty::Prim(Prim::Integer) }), None),
        Instruction::Return(Some(Operand::Variable(Variable { variable_id: VariableId(2), ty: Ty::Prim(Prim::Integer) }))),
    ]));
assert!(program.tags.is_empty());
}

#[test]
fn ssa_transform_parameters_seeded_as_entry_defs() {
    // The helper body branches on its boolean `input_vars` parameter without storing into anything.
    // The parameter is live-in with no defining instruction, so the transform must seed it as a
    // definition at the body entry and complete without error.
    let mut program = two_body_program_with_branch();

    transform_to_ssa_directly(&mut program);
    assert_eq!(program.entry, CallableId(0));
assert_eq!(program.config.capabilities, TargetCapabilityFlags::adaptive().union(TargetCapabilityFlags::integer_computations()).union(TargetCapabilityFlags::floating_point_computations()));
assert_eq!(program.num_qubits, 0);
assert_eq!(program.num_results, 0);
assert_eq!(program.all_callable_ids(), vec![CallableId(0), CallableId(1)]);
assert_eq!(program.get_callable(CallableId(0)).name, "main");
assert_eq!(program.get_callable(CallableId(0)).call_type, CallableType::Regular);
assert!(program.get_callable(CallableId(0)).input_type.is_empty());
assert!(program.get_callable(CallableId(0)).input_vars.is_empty());
assert_eq!(program.get_callable(CallableId(0)).output_type, Some(Ty::Prim(Prim::Integer)));
assert_eq!(program.get_callable(CallableId(0)).body, Some(BlockId(3)));
assert_eq!(program.get_callable(CallableId(1)).name, "helper");
assert_eq!(program.get_callable(CallableId(1)).call_type, CallableType::Regular);
assert_eq!(program.get_callable(CallableId(1)).input_type, vec![Ty::Prim(Prim::Boolean)]);
assert_eq!(program.get_callable(CallableId(1)).input_vars, vec![VariableId(0)]);
assert_eq!(program.get_callable(CallableId(1)).output_type, Some(Ty::Prim(Prim::Integer)));
assert_eq!(program.get_callable(CallableId(1)).body, Some(BlockId(0)));
assert_eq!(program.blocks.keys(), vec![BlockId(0), BlockId(1), BlockId(2), BlockId(3)]);
assert_eq!(program.get_block(BlockId(0)), &Block(vec![
        Instruction::Branch(Variable { variable_id: VariableId(0), ty: Ty::Prim(Prim::Boolean) }, BlockId(1), BlockId(2), None),
    ]));
assert_eq!(program.get_block(BlockId(1)), &Block(vec![
        Instruction::Return(Some(Operand::Literal(Literal::Integer(1)))),
    ]));
assert_eq!(program.get_block(BlockId(2)), &Block(vec![
        Instruction::Return(Some(Operand::Literal(Literal::Integer(0)))),
    ]));
assert_eq!(program.get_block(BlockId(3)), &Block(vec![
        Instruction::Call(CallableId(1), vec![Operand::Literal(Literal::Bool(true))], Some(Variable { variable_id: VariableId(1), ty: Ty::Prim(Prim::Integer) }), None),
        Instruction::Return(Some(Operand::Variable(Variable { variable_id: VariableId(1), ty: Ty::Prim(Prim::Integer) }))),
    ]));
assert!(program.tags.is_empty());
}

#[test]
fn ssa_transform_value_returning_body() {
    // A secondary body whose terminator returns a static operand must transform cleanly, exercising
    // the value-returning (IR-function) shape that only ever appears in non-entry bodies.
    let mut program = Program::new();
    program.config.capabilities = TargetCapabilityFlags::from_profile(Profile::AdaptiveRIF);

    program.callables.insert(
        CallableId(0),
        Callable {
            name: "main".to_string(),
            input_type: Vec::new(),
            input_vars: Vec::new(),
            output_type: Some(Ty::Prim(Prim::Integer)),
            body: Some(BlockId(1)),
            call_type: CallableType::Regular,
        },
    );
    program.callables.insert(
        CallableId(1),
        Callable {
            name: "helper".to_string(),
            input_type: Vec::new(),
            input_vars: Vec::new(),
            output_type: Some(Ty::Prim(Prim::Integer)),
            body: Some(BlockId(0)),
            call_type: CallableType::Regular,
        },
    );

    // Helper body: return a constant.
    program.blocks.insert(
        BlockId(0),
        Block(vec![Instruction::Return(Some(Operand::Literal(
            Literal::Integer(42),
        )))]),
    );
    // Entry body: call the helper and return its result.
    program.blocks.insert(
        BlockId(1),
        Block(vec![
            Instruction::Call(
                CallableId(1),
                Vec::new(),
                Some(Variable {
                    variable_id: VariableId(0),
                    ty: Ty::Prim(Prim::Integer),
                }),
                None,
            ),
            Instruction::Return(Some(Operand::Variable(Variable {
                variable_id: VariableId(0),
                ty: Ty::Prim(Prim::Integer),
            }))),
        ]),
    );

    program.entry = CallableId(0);

    transform_to_ssa_directly(&mut program);
    assert_eq!(program.entry, CallableId(0));
assert_eq!(program.config.capabilities, TargetCapabilityFlags::adaptive().union(TargetCapabilityFlags::integer_computations()).union(TargetCapabilityFlags::floating_point_computations()));
assert_eq!(program.num_qubits, 0);
assert_eq!(program.num_results, 0);
assert_eq!(program.all_callable_ids(), vec![CallableId(0), CallableId(1)]);
assert_eq!(program.get_callable(CallableId(0)).name, "main");
assert_eq!(program.get_callable(CallableId(0)).call_type, CallableType::Regular);
assert!(program.get_callable(CallableId(0)).input_type.is_empty());
assert!(program.get_callable(CallableId(0)).input_vars.is_empty());
assert_eq!(program.get_callable(CallableId(0)).output_type, Some(Ty::Prim(Prim::Integer)));
assert_eq!(program.get_callable(CallableId(0)).body, Some(BlockId(1)));
assert_eq!(program.get_callable(CallableId(1)).name, "helper");
assert_eq!(program.get_callable(CallableId(1)).call_type, CallableType::Regular);
assert!(program.get_callable(CallableId(1)).input_type.is_empty());
assert!(program.get_callable(CallableId(1)).input_vars.is_empty());
assert_eq!(program.get_callable(CallableId(1)).output_type, Some(Ty::Prim(Prim::Integer)));
assert_eq!(program.get_callable(CallableId(1)).body, Some(BlockId(0)));
assert_eq!(program.blocks.keys(), vec![BlockId(0), BlockId(1)]);
assert_eq!(program.get_block(BlockId(0)), &Block(vec![
        Instruction::Return(Some(Operand::Literal(Literal::Integer(42)))),
    ]));
assert_eq!(program.get_block(BlockId(1)), &Block(vec![
        Instruction::Call(CallableId(1), Vec::new(), Some(Variable { variable_id: VariableId(0), ty: Ty::Prim(Prim::Integer) }), None),
        Instruction::Return(Some(Operand::Variable(Variable { variable_id: VariableId(0), ty: Ty::Prim(Prim::Integer) }))),
    ]));
assert!(program.tags.is_empty());
}

#[test]
fn ssa_transform_mutable_parameter_versioned() {
    // The helper stores a derived value back into its own `input_vars` parameter. The parameter is
    // both seeded as the entry definition and versioned by the store, so the store must convert to an
    // SSA value without a false duplicate-assignment, while the parameter remains the entry def.
    let mut program = two_body_mutable_param_program();

    transform_to_ssa_directly(&mut program);

    // The parameter remains declared as the body's live-in definition.
    assert_eq!(
        program.get_callable(CallableId(1)).input_vars,
        vec![VariableId(0)]
    );

    assert_eq!(program.entry, CallableId(0));
assert_eq!(program.config.capabilities, TargetCapabilityFlags::adaptive().union(TargetCapabilityFlags::integer_computations()).union(TargetCapabilityFlags::floating_point_computations()));
assert_eq!(program.num_qubits, 0);
assert_eq!(program.num_results, 0);
assert_eq!(program.all_callable_ids(), vec![CallableId(0), CallableId(1)]);
assert_eq!(program.get_callable(CallableId(0)).name, "main");
assert_eq!(program.get_callable(CallableId(0)).call_type, CallableType::Regular);
assert!(program.get_callable(CallableId(0)).input_type.is_empty());
assert!(program.get_callable(CallableId(0)).input_vars.is_empty());
assert_eq!(program.get_callable(CallableId(0)).output_type, Some(Ty::Prim(Prim::Integer)));
assert_eq!(program.get_callable(CallableId(0)).body, Some(BlockId(1)));
assert_eq!(program.get_callable(CallableId(1)).name, "helper");
assert_eq!(program.get_callable(CallableId(1)).call_type, CallableType::Regular);
assert_eq!(program.get_callable(CallableId(1)).input_type, vec![Ty::Prim(Prim::Integer)]);
assert_eq!(program.get_callable(CallableId(1)).input_vars, vec![VariableId(0)]);
assert_eq!(program.get_callable(CallableId(1)).output_type, Some(Ty::Prim(Prim::Integer)));
assert_eq!(program.get_callable(CallableId(1)).body, Some(BlockId(0)));
assert_eq!(program.blocks.keys(), vec![BlockId(0), BlockId(1)]);
assert_eq!(program.get_block(BlockId(0)), &Block(vec![
        Instruction::Add(Operand::Variable(Variable { variable_id: VariableId(0), ty: Ty::Prim(Prim::Integer) }), Operand::Literal(Literal::Integer(1)), Variable { variable_id: VariableId(1), ty: Ty::Prim(Prim::Integer) }),
        Instruction::Return(Some(Operand::Variable(Variable { variable_id: VariableId(1), ty: Ty::Prim(Prim::Integer) }))),
    ]));
assert_eq!(program.get_block(BlockId(1)), &Block(vec![
        Instruction::Call(CallableId(1), vec![Operand::Literal(Literal::Integer(5))], Some(Variable { variable_id: VariableId(2), ty: Ty::Prim(Prim::Integer) }), None),
        Instruction::Return(Some(Operand::Variable(Variable { variable_id: VariableId(2), ty: Ty::Prim(Prim::Integer) }))),
    ]));
assert!(program.tags.is_empty());
}
