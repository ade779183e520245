use ir_compiler::lowering::{
    lower, lower_function, BinOp, FunctionAst, Inst, LoweringError, Operand, Stmt, Terminator,
};

fn s(x: &str) -> String {
    x.to_string()
}

fn func(name: &str, body: Vec<Stmt>) -> FunctionAst {
    FunctionAst { name: s(name), params: vec![], body }
}

fn round_trip_main() -> FunctionAst {
    func(
        "main",
        vec![
            Stmt::Op(Inst::Binary { op: BinOp::Add, dest: 1, lhs: Operand::Imm(2), rhs: Operand::Imm(3) }),
            Stmt::Op(Inst::CompareLe { dest: 2, lhs: Operand::Reg(1), rhs: Operand::Imm(10) }),
            Stmt::Branch { cond: 2, then_label: s("yes"), else_label: s("no") },
            Stmt::Label(s("yes")),
            Stmt::Exit(0),
            Stmt::Label(s("no")),
            Stmt::Exit(1),
        ],
    )
}

#[test]
fn round_trip_program_has_three_blocks() {
    let lf = lower_function(round_trip_main()).unwrap();
    assert_eq!(lf.name, "main");
    assert_eq!(lf.blocks.len(), 3);
    assert_eq!(lf.blocks[0].label, None);
    assert_eq!(lf.blocks[0].insts.len(), 2);
    match &lf.blocks[0].term {
        Terminator::Branch { cond, then_label, then_target, else_label, else_target } => {
            assert_eq!(*cond, 2);
            assert_eq!(then_label, "yes");
            assert_eq!(*then_target, 1);
            assert_eq!(else_label, "no");
            assert_eq!(*else_target, 2);
        }
        other => panic!("unexpected terminator {:?}", other),
    }
    assert_eq!(lf.blocks[1].label, Some(s("yes")));
    assert!(matches!(lf.blocks[1].term, Terminator::Exit(0)));
    assert_eq!(lf.blocks[2].label, Some(s("no")));
    assert!(matches!(lf.blocks[2].term, Terminator::Exit(1)));
}

#[test]
fn unknown_label_is_refused() {
    let f = func("f", vec![Stmt::Label(s("a")), Stmt::Jump(s("b"))]);
    match lower_function(f) {
        Err(LoweringError::UnknownLabel { function, label }) => {
            assert_eq!(function, "f");
            assert_eq!(label, "b");
        }
        other => panic!("unexpected result {:?}", other),
    }
}

#[test]
fn unknown_else_label_is_refused() {
    let f = func(
        "g",
        vec![Stmt::Branch { cond: 0, then_label: s("a"), else_label: s("c") }, Stmt::Label(s("a"))],
    );
    match lower_function(f) {
        Err(LoweringError::UnknownLabel { function, label }) => {
            assert_eq!(function, "g");
            assert_eq!(label, "c");
        }
        other => panic!("unexpected result {:?}", other),
    }
}

#[test]
fn duplicate_label_is_refused_first() {
    let f = func(
        "h",
        vec![Stmt::Label(s("a")), Stmt::Jump(s("zz")), Stmt::Label(s("a")), Stmt::Exit(0)],
    );
    match lower_function(f) {
        Err(LoweringError::DuplicateLabel { function, label }) => {
            assert_eq!(function, "h");
            assert_eq!(label, "a");
        }
        other => panic!("unexpected result {:?}", other),
    }
}

#[test]
fn empty_body_returns_nothing() {
    let lf = lower_function(func("e", vec![])).unwrap();
    assert_eq!(lf.blocks.len(), 1);
    assert!(lf.blocks[0].insts.is_empty());
    assert!(matches!(lf.blocks[0].term, Terminator::Return(None)));
}

#[test]
fn leading_label_names_the_entry_block() {
    let lf = lower_function(func("e", vec![Stmt::Label(s("start")), Stmt::Jump(s("start"))])).unwrap();
    assert_eq!(lf.blocks.len(), 1);
    assert_eq!(lf.blocks[0].label, Some(s("start")));
    assert!(matches!(lf.blocks[0].term, Terminator::Jump { target: 0, .. }));
}

#[test]
fn block_running_into_a_label_jumps_to_it() {
    let lf = lower_function(func(
        "ft",
        vec![
            Stmt::Op(Inst::Binary { op: BinOp::Sub, dest: 0, lhs: Operand::Imm(1), rhs: Operand::Imm(1) }),
            Stmt::Label(s("next")),
            Stmt::Return(Some(Operand::Reg(0))),
        ],
    ))
    .unwrap();
    assert_eq!(lf.blocks.len(), 2);
    match &lf.blocks[0].term {
        Terminator::Jump { label, target } => {
            assert_eq!(label, "next");
            assert_eq!(*target, 1);
        }
        other => panic!("unexpected terminator {:?}", other),
    }
    assert!(matches!(lf.blocks[1].term, Terminator::Return(Some(Operand::Reg(0)))));
}

#[test]
fn statements_after_a_terminator_start_a_block() {
    let lf = lower_function(func(
        "dead",
        vec![
            Stmt::Exit(0),
            Stmt::Op(Inst::Call { dest: None, callee: s("f"), args: vec![Operand::Imm(1)] }),
        ],
    ))
    .unwrap();
    assert_eq!(lf.blocks.len(), 2);
    assert!(matches!(lf.blocks[0].term, Terminator::Exit(0)));
    assert_eq!(lf.blocks[1].label, None);
    assert_eq!(lf.blocks[1].insts.len(), 1);
    assert!(matches!(lf.blocks[1].term, Terminator::Return(None)));
}

#[test]
fn parameters_and_name_are_kept() {
    let f = FunctionAst { name: s("add2"), params: vec![0, 1], body: vec![Stmt::Return(Some(Operand::Reg(0)))] };
    let lf = lower_function(f).unwrap();
    assert_eq!(lf.name, "add2");
    assert_eq!(lf.params, vec![0, 1]);
}

#[test]
fn program_error_names_the_first_failing_function() {
    let program = vec![
        round_trip_main(),
        func("bad", vec![Stmt::Jump(s("nowhere"))]),
        func("worse", vec![Stmt::Label(s("x")), Stmt::Label(s("x"))]),
    ];
    match lower(program) {
        Err(LoweringError::UnknownLabel { function, label }) => {
            assert_eq!(function, "bad");
            assert_eq!(label, "nowhere");
        }
        other => panic!("unexpected result {:?}", other),
    }
}

#[test]
fn program_lowers_each_function_in_order() {
    let program = vec![round_trip_main(), func("other", vec![])];
    let fs = lower(program).unwrap();
    assert_eq!(fs.len(), 2);
    assert_eq!(fs[0].name, "main");
    assert_eq!(fs[1].name, "other");
}

#[test]
fn lowering_twice_gives_the_same_result() {
    let a = lower(vec![round_trip_main()]).unwrap();
    let b = lower(vec![round_trip_main()]).unwrap();
    assert_eq!(format!("{:?}", a), format!("{:?}", b));
}
