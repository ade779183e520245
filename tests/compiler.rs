use ir_compiler::codegen::{generate_function, Asm, MAX_SLOTS};
use ir_compiler::compiler::{compile, compile_function, CompileError};
use ir_compiler::liveness::AllocationError;
use ir_compiler::lowering::{lower_function, BinOp, FunctionAst, Inst, LoweringError, Operand, Stmt};
use ir_compiler::regalloc::allocate;

fn s(x: &str) -> String {
    x.to_string()
}

fn round_trip_body() -> Vec<Stmt> {
    vec![
        Stmt::Op(Inst::Binary { op: BinOp::Add, dest: 1, lhs: Operand::Imm(2), rhs: Operand::Imm(3) }),
        Stmt::Op(Inst::CompareLe { dest: 2, lhs: Operand::Reg(1), rhs: Operand::Imm(10) }),
        Stmt::Branch { cond: 2, then_label: s("yes"), else_label: s("no") },
        Stmt::Label(s("yes")),
        Stmt::Exit(0),
        Stmt::Label(s("no")),
        Stmt::Exit(1),
    ]
}

#[test]
fn compile_round_trip_matches_the_stages() {
    let code = compile_function(FunctionAst { name: s("main"), params: vec![], body: round_trip_body() }).unwrap();
    let lf = lower_function(FunctionAst { name: s("main"), params: vec![], body: round_trip_body() }).unwrap();
    let a = allocate(&lf, 3);
    assert_eq!(code, generate_function(&lf, &a));
}

#[test]
fn compile_twice_gives_the_same_code() {
    let a = compile_function(FunctionAst { name: s("main"), params: vec![], body: round_trip_body() }).unwrap();
    let b = compile_function(FunctionAst { name: s("main"), params: vec![], body: round_trip_body() }).unwrap();
    assert_eq!(a, b);
}

#[test]
fn compile_reports_lowering_errors() {
    let f = FunctionAst { name: s("f"), params: vec![], body: vec![Stmt::Jump(s("gone"))] };
    match compile_function(f) {
        Err(CompileError::Lowering(LoweringError::UnknownLabel { function, label })) => {
            assert_eq!(function, "f");
            assert_eq!(label, "gone");
        }
        other => panic!("unexpected result {:?}", other),
    }
}

#[test]
fn compile_reports_use_before_definition() {
    let f = FunctionAst { name: s("g"), params: vec![], body: vec![Stmt::Return(Some(Operand::Reg(5)))] };
    match compile_function(f) {
        Err(CompileError::Allocation(AllocationError::UseBeforeDef { function, register })) => {
            assert_eq!(function, "g");
            assert_eq!(register, 5);
        }
        other => panic!("unexpected result {:?}", other),
    }
}

#[test]
fn compile_refuses_registers_beyond_the_frame() {
    let f = FunctionAst {
        name: s("h"),
        params: vec![],
        body: vec![Stmt::Op(Inst::Binary { op: BinOp::Add, dest: MAX_SLOTS, lhs: Operand::Imm(1), rhs: Operand::Imm(1) })],
    };
    assert!(matches!(compile_function(f), Err(CompileError::TooLarge)));
}

#[test]
fn program_starts_with_the_entry_stub_then_each_function() {
    let program = vec![
        FunctionAst { name: s("main"), params: vec![], body: round_trip_body() },
        FunctionAst { name: s("id"), params: vec![0], body: vec![Stmt::Return(Some(Operand::Reg(0)))] },
    ];
    let out = compile(program).unwrap();
    let main_code = compile_function(FunctionAst { name: s("main"), params: vec![], body: round_trip_body() }).unwrap();
    let id_code = compile_function(FunctionAst {
        name: s("id"),
        params: vec![0],
        body: vec![Stmt::Return(Some(Operand::Reg(0)))],
    })
    .unwrap();
    let mut expected = vec![Asm::EntryStub, Asm::FunctionLabel(s("main"))];
    expected.extend(main_code);
    expected.push(Asm::FunctionLabel(s("id")));
    expected.extend(id_code);
    assert_eq!(out, expected);
}

#[test]
fn program_error_comes_from_the_first_failing_function() {
    let program = vec![
        FunctionAst { name: s("main"), params: vec![], body: round_trip_body() },
        FunctionAst { name: s("bad"), params: vec![], body: vec![Stmt::Return(Some(Operand::Reg(1)))] },
        FunctionAst { name: s("worse"), params: vec![], body: vec![Stmt::Jump(s("x"))] },
    ];
    match compile(program) {
        Err(CompileError::Allocation(AllocationError::UseBeforeDef { function, register })) => {
            assert_eq!(function, "bad");
            assert_eq!(register, 1);
        }
        other => panic!("unexpected result {:?}", other),
    }
}
