use move_to_miden::cfg::CfgError;
use move_to_miden::compiler::{
    compile, compile_function, CompileError, CompilerState, Function, FunctionDef, Proc, Program,
};
use move_to_miden::masm::{MasmInstr, MasmNode};
use move_to_miden::instr::Instr;

fn state_with(names: &[&str]) -> CompilerState {
    CompilerState {
        functions: names.iter().map(|n| Function { name: n.to_string() }).collect(),
    }
}

fn entry_def(code: Vec<Instr>) -> FunctionDef {
    FunctionDef { function: 0, is_entry: true, code: Some(code) }
}

fn ins(i: MasmInstr) -> MasmNode {
    MasmNode::Instruction(i)
}

#[test]
fn test_compile_arithmetic() {
    let state = state_with(&["f"]);
    let defs = vec![entry_def(vec![
        Instr::LdU32(1),
        Instr::LdU64(2),
        Instr::Add,
        Instr::LdU32(3),
        Instr::Mul,
        Instr::Pop,
        Instr::Ret,
    ])];
    let program = compile(&state, &defs).unwrap();
    assert_eq!(
        program.main,
        vec![
            ins(MasmInstr::PushU32(1)),
            ins(MasmInstr::PushU32(2)),
            ins(MasmInstr::Add),
            ins(MasmInstr::PushU32(3)),
            ins(MasmInstr::Mul),
            ins(MasmInstr::Drop),
        ],
    );
    // main's slot in the procedure table is held by a placeholder
    assert_eq!(program.local_procs.len(), 1);
    assert_eq!(program.local_procs[0].name, "dummy_name_in_place_of_main");
    assert_eq!(program.local_procs[0].body, vec![]);
}

#[test]
fn test_compile_if_else() {
    let state = state_with(&["f"]);
    let defs = vec![entry_def(vec![
        Instr::LdU32(0),
        Instr::LdU32(0),
        Instr::LdU32(0),
        Instr::LdU32(0),
        Instr::LdU32(0),
        Instr::BrFalse(7),
        Instr::Branch(9),
        Instr::LdU32(0),
        Instr::Abort,
        Instr::Ret,
    ])];
    let program = compile(&state, &defs).unwrap();
    assert_eq!(
        program.main,
        vec![
            ins(MasmInstr::PushU32(0)),
            ins(MasmInstr::PushU32(0)),
            ins(MasmInstr::PushU32(0)),
            ins(MasmInstr::PushU32(0)),
            ins(MasmInstr::PushU32(0)),
            MasmNode::IfElse {
                true_case: vec![],
                false_case: vec![
                    ins(MasmInstr::PushU32(0)),
                    ins(MasmInstr::Drop),
                    ins(MasmInstr::PushU32(1)),
                    ins(MasmInstr::Assertz),
                ],
            },
        ],
    );
}

#[test]
fn test_compile_while_true_loop() {
    // while-true: the header block is replayed at the end of the body
    let state = state_with(&["f"]);
    let defs = vec![entry_def(vec![
        Instr::LdU32(1),   // condition
        Instr::BrFalse(7), // leave the loop when it is false
        Instr::Branch(4),  // body
        Instr::LdU32(9),   // dead code between the jumps
        Instr::LdU32(1),   // body block
        Instr::Pop,
        Instr::Branch(0), // back edge
        Instr::Ret,       // after the loop
    ])];
    let program = compile(&state, &defs).unwrap();
    assert_eq!(
        program.main,
        vec![
            ins(MasmInstr::PushU32(1)),
            MasmNode::While {
                body: vec![
                    ins(MasmInstr::PushU32(1)),
                    ins(MasmInstr::Drop),
                    // the condition block replayed for the next test
                    ins(MasmInstr::PushU32(1)),
                ],
            },
        ],
    );
}

#[test]
fn test_compile_while_false_loop() {
    // while-false: a Not is inserted after the condition, at the loop entry
    // and at the back edge alike
    let state = state_with(&["f"]);
    let defs = vec![entry_def(vec![
        Instr::LdU32(1),   // condition
        Instr::BrFalse(4), // the false side is the loop body
        Instr::LdU32(0),   // true side: leave
        Instr::Ret,
        Instr::LdU32(1), // body block
        Instr::Branch(0), // back edge
    ])];
    let program = compile(&state, &defs).unwrap();
    assert_eq!(
        program.main,
        vec![
            ins(MasmInstr::PushU32(1)),
            ins(MasmInstr::Not),
            MasmNode::While {
                body: vec![
                    ins(MasmInstr::PushU32(1)),
                    // the condition block replayed, inverted again
                    ins(MasmInstr::PushU32(1)),
                    ins(MasmInstr::Not),
                ],
            },
            ins(MasmInstr::PushU32(0)),
        ],
    );
}

#[test]
fn test_compile_call_indexes_function_table() {
    let state = state_with(&["f", "g"]);
    let defs = vec![
        entry_def(vec![Instr::Call(1), Instr::Ret]),
        FunctionDef { function: 1, is_entry: false, code: Some(vec![Instr::Ret]) },
    ];
    let program = compile(&state, &defs).unwrap();
    assert_eq!(program.main, vec![ins(MasmInstr::ExecLocal(1))]);
    assert_eq!(program.local_procs.len(), 2);
    assert_eq!(program.local_procs[1].name, "g");
    assert_eq!(program.local_procs[1].body, vec![]);
}

#[test]
fn test_compile_function_without_code_is_empty() {
    let state = state_with(&["native"]);
    let def = FunctionDef { function: 0, is_entry: false, code: None };
    let proc = compile_function(&def, &state).unwrap();
    assert_eq!(proc, Proc { name: "native".to_string(), body: vec![] });
}

#[test]
fn test_compile_rejects_invalid_name() {
    // the target assembler accepts no empty procedure name
    let state = state_with(&[""]);
    let def = FunctionDef { function: 0, is_entry: false, code: Some(vec![Instr::Ret]) };
    assert_eq!(compile_function(&def, &state).unwrap_err(), CompileError::InvalidProcedureName);
}

#[test]
fn test_compile_accepts_plain_name() {
    let state = state_with(&["an_ordinary_name"]);
    let def = FunctionDef { function: 0, is_entry: false, code: Some(vec![Instr::Ret]) };
    assert!(compile_function(&def, &state).is_ok());
}

#[test]
fn test_compile_missing_function_handle() {
    let state = state_with(&["f"]);
    let def = FunctionDef { function: 4, is_entry: false, code: None };
    assert_eq!(compile_function(&def, &state).unwrap_err(), CompileError::MissingFunctionHandle);
}

#[test]
fn test_compile_call_out_of_range() {
    let state = state_with(&["f"]);
    let def = entry_def(vec![Instr::Call(3), Instr::Ret]);
    assert_eq!(compile_function(&def, &state).unwrap_err(), CompileError::MissingFunctionHandle);
}

#[test]
fn test_compile_unsupported_opcode() {
    let state = state_with(&["f"]);
    let def = entry_def(vec![Instr::Le, Instr::Ret]);
    assert_eq!(compile_function(&def, &state).unwrap_err(), CompileError::UnsupportedOpcode);
}

#[test]
fn test_compile_u64_out_of_range() {
    let state = state_with(&["f"]);
    let def = entry_def(vec![Instr::LdU64(0x1_0000_0000), Instr::Ret]);
    assert_eq!(compile_function(&def, &state).unwrap_err(), CompileError::ValueOutOfRange);
}

#[test]
fn test_compile_surfaces_cfg_error() {
    let state = state_with(&["f"]);
    let def = entry_def(vec![Instr::LdU32(0), Instr::Branch(2), Instr::Branch(0)]);
    assert_eq!(
        compile_function(&def, &state).unwrap_err(),
        CompileError::Cfg(CfgError::BranchToBranch),
    );
}

#[test]
fn test_compile_multiple_entry_points() {
    let state = state_with(&["f", "g"]);
    let defs = vec![
        entry_def(vec![Instr::Ret]),
        FunctionDef { function: 1, is_entry: true, code: Some(vec![Instr::Ret]) },
    ];
    assert_eq!(compile(&state, &defs).unwrap_err(), CompileError::MultipleEntryPoints);
}

#[test]
fn test_compile_no_entry_point() {
    let state = state_with(&["f"]);
    let defs = vec![FunctionDef { function: 0, is_entry: false, code: Some(vec![Instr::Ret]) }];
    assert_eq!(compile(&state, &defs).unwrap_err(), CompileError::NoEntryPoint);
}

#[test]
fn test_compile_irreducible_graph_exhausts_budget() {
    // an if whose false side jumps back to the entry: the emitter's join
    // search settles on the true side, and the false arm re-emits the
    // entry for ever until the budget stops it
    let state = state_with(&["f"]);
    let defs = vec![entry_def(vec![
        Instr::LdU32(0),
        Instr::BrTrue(4),
        Instr::Branch(0),
        Instr::LdU32(9),
        Instr::Ret,
    ])];
    assert_eq!(compile(&state, &defs).unwrap_err(), CompileError::RecursionLimit);
}

#[test]
fn test_compile_program_value() {
    let state = state_with(&["f"]);
    let defs = vec![entry_def(vec![Instr::LdU32(5), Instr::Pop, Instr::Ret])];
    let program = compile(&state, &defs).unwrap();
    assert_eq!(
        program,
        Program {
            main: vec![ins(MasmInstr::PushU32(5)), ins(MasmInstr::Drop)],
            local_procs: vec![Proc {
                name: "dummy_name_in_place_of_main".to_string(),
                body: vec![],
            }],
        },
    );
}

#[test]
fn test_compile_nested_loops_with_inner_if() {
    // while c1 { while c2 { if d { a } else { b }  z } }: the inner if's
    // arms reconverge at z, which is emitted once, followed by the inner
    // back edge's header replay
    let state = state_with(&["f"]);
    let defs = vec![entry_def(vec![
        Instr::LdU32(1),    // outer condition
        Instr::BrFalse(17), // leave the outer loop
        Instr::LdU32(1),    // inner condition
        Instr::BrFalse(15), // leave the inner loop
        Instr::LdU32(1),    // d
        Instr::BrTrue(9),
        Instr::LdU32(7), // b
        Instr::Pop,
        Instr::Branch(11),
        Instr::LdU32(9), // a
        Instr::Pop,
        Instr::LdU32(0), // z
        Instr::Pop,
        Instr::Branch(2), // inner back edge
        Instr::LdU32(0),
        Instr::LdU32(0),  // inner after: re-test the outer condition
        Instr::Branch(0), // outer back edge
        Instr::Ret,
    ])];
    let program = compile(&state, &defs).unwrap();
    assert_eq!(
        program.main,
        vec![
            ins(MasmInstr::PushU32(1)),
            MasmNode::While {
                body: vec![
                    ins(MasmInstr::PushU32(1)),
                    MasmNode::While {
                        body: vec![
                            ins(MasmInstr::PushU32(1)),
                            MasmNode::IfElse {
                                true_case: vec![
                                    ins(MasmInstr::PushU32(9)),
                                    ins(MasmInstr::Drop),
                                ],
                                false_case: vec![
                                    ins(MasmInstr::PushU32(7)),
                                    ins(MasmInstr::Drop),
                                ],
                            },
                            // z, then the inner condition replayed
                            ins(MasmInstr::PushU32(0)),
                            ins(MasmInstr::Drop),
                            ins(MasmInstr::PushU32(1)),
                        ],
                    },
                    // the outer loop's tail, then its condition replayed
                    ins(MasmInstr::PushU32(0)),
                    ins(MasmInstr::PushU32(1)),
                ],
            },
        ],
    );
}

#[test]
fn test_compile_if_with_tail() {
    // the code after the two arms' reconvergence point is emitted once,
    // after the IfElse node
    let state = state_with(&["f"]);
    let defs = vec![entry_def(vec![
        Instr::LdU32(1),
        Instr::BrTrue(5),
        Instr::LdU32(2), // false side
        Instr::Pop,
        Instr::Branch(7),
        Instr::LdU32(3), // true side
        Instr::Pop,
        Instr::LdU32(4), // the join: both sides continue here
        Instr::Pop,
        Instr::Ret,
    ])];
    let program = compile(&state, &defs).unwrap();
    assert_eq!(
        program.main,
        vec![
            ins(MasmInstr::PushU32(1)),
            MasmNode::IfElse {
                true_case: vec![ins(MasmInstr::PushU32(3)), ins(MasmInstr::Drop)],
                false_case: vec![ins(MasmInstr::PushU32(2)), ins(MasmInstr::Drop)],
            },
            ins(MasmInstr::PushU32(4)),
            ins(MasmInstr::Drop),
        ],
    );
}

#[test]
fn test_compile_loop_with_early_return() {
    // while c { if d { return } else { continue the loop } }: the arms
    // reach no common forward label, so nothing follows the IfElse
    let state = state_with(&["f"]);
    let defs = vec![entry_def(vec![
        Instr::LdU32(1),    // loop condition
        Instr::BrFalse(10), // leave the loop
        Instr::LdU32(1),    // d
        Instr::BrTrue(7),
        Instr::LdU32(0), // else: loop body
        Instr::Pop,
        Instr::Branch(0), // back edge
        Instr::LdU32(5),  // then: return early
        Instr::Pop,
        Instr::Ret,
        Instr::Ret, // after the loop
    ])];
    let program = compile(&state, &defs).unwrap();
    assert_eq!(
        program.main,
        vec![
            ins(MasmInstr::PushU32(1)),
            MasmNode::While {
                body: vec![
                    ins(MasmInstr::PushU32(1)),
                    MasmNode::IfElse {
                        true_case: vec![ins(MasmInstr::PushU32(5)), ins(MasmInstr::Drop)],
                        false_case: vec![
                            ins(MasmInstr::PushU32(0)),
                            ins(MasmInstr::Drop),
                            // the loop condition replayed at the back edge
                            ins(MasmInstr::PushU32(1)),
                        ],
                    },
                ],
            },
        ],
    );
}

#[test]
fn test_compile_function_with_empty_code() {
    // an empty body is a single empty entry block that falls through
    let state = state_with(&["f"]);
    let defs = vec![entry_def(vec![])];
    let program = compile(&state, &defs).unwrap();
    assert_eq!(program.main, vec![]);
}
