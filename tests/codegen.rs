use ir_compiler::codegen::{generate_function, Asm, MReg, Opnd};
use ir_compiler::liveness::check_defined;
use ir_compiler::lowering::{lower_function, BinOp, FunctionAst, Inst, LowFunction, Operand, Stmt};
use ir_compiler::regalloc::{allocate, Location, NUM_PHYS};

fn s(x: &str) -> String {
    x.to_string()
}

fn lowered(params: Vec<usize>, body: Vec<Stmt>) -> LowFunction {
    lower_function(FunctionAst { name: s("f"), params, body }).unwrap()
}

fn add(dest: usize, lhs: Operand, rhs: Operand) -> Stmt {
    Stmt::Op(Inst::Binary { op: BinOp::Add, dest, lhs, rhs })
}

fn prologue(frame: i64) -> Vec<Asm> {
    vec![
        Asm::Push(Opnd::R(MReg::Rbp)),
        Asm::Mov(Opnd::R(MReg::Rbp), Opnd::R(MReg::Rsp)),
        Asm::Push(Opnd::R(MReg::Rbx)),
        Asm::Push(Opnd::R(MReg::R12)),
        Asm::Push(Opnd::R(MReg::R13)),
        Asm::Push(Opnd::R(MReg::R14)),
        Asm::Push(Opnd::R(MReg::R15)),
        Asm::Sub(MReg::Rsp, Opnd::Imm(frame)),
    ]
}

fn exit_code(c: i64) -> Vec<Asm> {
    vec![
        Asm::Mov(Opnd::R(MReg::Rdi), Opnd::Imm(c)),
        Asm::Mov(Opnd::R(MReg::Rax), Opnd::Imm(60)),
        Asm::Syscall,
    ]
}

#[test]
fn round_trip_program_code() {
    let f = lowered(
        vec![],
        vec![
            add(1, Operand::Imm(2), Operand::Imm(3)),
            Stmt::Op(Inst::CompareLe { dest: 2, lhs: Operand::Reg(1), rhs: Operand::Imm(10) }),
            Stmt::Branch { cond: 2, then_label: s("yes"), else_label: s("no") },
            Stmt::Label(s("yes")),
            Stmt::Exit(0),
            Stmt::Label(s("no")),
            Stmt::Exit(1),
        ],
    );
    assert!(check_defined(&f).is_ok());
    let a = allocate(&f, 3);
    assert_eq!(a.spill_slots, 0);
    let code = generate_function(&f, &a);
    let mut expected = prologue(0);
    expected.extend(vec![
        Asm::BlockLabel(0),
        Asm::Mov(Opnd::R(MReg::Rax), Opnd::Imm(2)),
        Asm::Mov(Opnd::R(MReg::R11), Opnd::Imm(3)),
        Asm::Add(MReg::Rax, Opnd::R(MReg::R11)),
        Asm::Mov(Opnd::R(MReg::R10), Opnd::R(MReg::Rax)),
        Asm::Mov(Opnd::R(MReg::Rax), Opnd::R(MReg::R10)),
        Asm::Mov(Opnd::R(MReg::R11), Opnd::Imm(10)),
        Asm::Cmp(MReg::Rax, Opnd::R(MReg::R11)),
        Asm::SetLe(MReg::Rax),
        Asm::Mov(Opnd::R(MReg::Rbx), Opnd::R(MReg::Rax)),
        Asm::Mov(Opnd::R(MReg::Rax), Opnd::R(MReg::Rbx)),
        Asm::Cmp(MReg::Rax, Opnd::Imm(0)),
        Asm::Jne(1),
        Asm::Jmp(2),
        Asm::BlockLabel(1),
    ]);
    expected.extend(exit_code(0));
    expected.push(Asm::BlockLabel(2));
    expected.extend(exit_code(1));
    assert_eq!(code, expected);
}

#[test]
fn spilled_register_sets_the_frame_size() {
    let n = NUM_PHYS + 2;
    let mut body: Vec<Stmt> = (0..n).map(|r| add(r, Operand::Imm(r as i64), Operand::Imm(1))).collect();
    body.push(Stmt::Return(Some(Operand::Reg(n - 1))));
    let f = lowered(vec![], body);
    let a = allocate(&f, n);
    assert_eq!(a.spill_slots, 2);
    assert_eq!(a.locs[n - 2], Location::Spill(0));
    assert_eq!(a.locs[n - 1], Location::Spill(1));
    let code = generate_function(&f, &a);
    assert_eq!(code[..8].to_vec(), prologue(16));
    // The second slot lies two words below the five saved registers.
    assert!(code.contains(&Asm::Mov(Opnd::R(MReg::Rax), Opnd::Frame(-56))));
    assert!(code.contains(&Asm::Mov(Opnd::Frame(-48), Opnd::R(MReg::Rax))));
}

#[test]
fn call_passes_extra_arguments_on_the_stack_left_to_right() {
    let args: Vec<Operand> = (1..=8).map(Operand::Imm).collect();
    let f = lowered(vec![], vec![Stmt::Op(Inst::Call { dest: None, callee: s("g"), args })]);
    let a = allocate(&f, 0);
    let code = generate_function(&f, &a);
    let mut expected = prologue(0);
    expected.push(Asm::BlockLabel(0));
    // Two stack arguments after seven saved words: one word of padding.
    expected.push(Asm::Sub(MReg::Rsp, Opnd::Imm(8)));
    for v in (1..=8).rev() {
        expected.push(Asm::Mov(Opnd::R(MReg::Rax), Opnd::Imm(v)));
        expected.push(Asm::Push(Opnd::R(MReg::Rax)));
    }
    for r in [MReg::Rdi, MReg::Rsi, MReg::Rdx, MReg::Rcx, MReg::R8, MReg::R9] {
        expected.push(Asm::Pop(r));
    }
    expected.push(Asm::Call(s("g")));
    expected.push(Asm::Add(MReg::Rsp, Opnd::Imm(24)));
    assert_eq!(code[..expected.len()].to_vec(), expected);
}

#[test]
fn parameters_are_read_where_the_caller_put_them() {
    let params: Vec<usize> = (0..8).collect();
    let f = lowered(
        params,
        vec![
            add(8, Operand::Reg(2), Operand::Reg(7)),
            Stmt::Return(Some(Operand::Reg(8))),
        ],
    );
    let a = allocate(&f, 9);
    let code = generate_function(&f, &a);
    let mut expected = prologue(0);
    expected.extend(vec![
        Asm::BlockLabel(0),
        // Parameter 2 is in the third argument register, parameter 7 in the
        // second stack argument slot, above rbp and the return address.
        Asm::Mov(Opnd::R(MReg::Rax), Opnd::R(MReg::Rdx)),
        Asm::Mov(Opnd::R(MReg::R11), Opnd::Frame(24)),
        Asm::Add(MReg::Rax, Opnd::R(MReg::R11)),
        Asm::Mov(Opnd::R(MReg::R10), Opnd::R(MReg::Rax)),
        Asm::Mov(Opnd::R(MReg::Rax), Opnd::R(MReg::R10)),
    ]);
    assert_eq!(code[..expected.len()].to_vec(), expected);
}

#[test]
fn calls_save_the_parameter_registers() {
    let f = lowered(
        vec![0],
        vec![
            Stmt::Op(Inst::Call { dest: Some(1), callee: s("g"), args: vec![Operand::Reg(0)] }),
            Stmt::Return(Some(Operand::Reg(1))),
        ],
    );
    let a = allocate(&f, 2);
    assert_eq!(a.locs[0], Location::Arg(0));
    assert_eq!(a.locs[1], Location::Reg(0));
    let code = generate_function(&f, &a);
    let mut expected = prologue(0);
    expected.extend(vec![
        Asm::BlockLabel(0),
        Asm::Push(Opnd::R(MReg::Rdi)),
        Asm::Mov(Opnd::R(MReg::Rax), Opnd::R(MReg::Rdi)),
        Asm::Push(Opnd::R(MReg::Rax)),
        Asm::Pop(MReg::Rdi),
        Asm::Call(s("g")),
        Asm::Pop(MReg::Rdi),
        Asm::Mov(Opnd::R(MReg::Rbx), Opnd::R(MReg::Rax)),
    ]);
    assert_eq!(code[..expected.len()].to_vec(), expected);
}

#[test]
fn division_keeps_rdx() {
    let f = lowered(
        vec![0, 1, 2],
        vec![
            Stmt::Op(Inst::Binary { op: BinOp::Div, dest: 3, lhs: Operand::Reg(0), rhs: Operand::Imm(2) }),
            Stmt::Return(Some(Operand::Reg(3))),
        ],
    );
    let a = allocate(&f, 4);
    let code = generate_function(&f, &a);
    let mut expected = prologue(0);
    expected.extend(vec![
        Asm::BlockLabel(0),
        Asm::Mov(Opnd::R(MReg::Rax), Opnd::R(MReg::Rdi)),
        Asm::Mov(Opnd::R(MReg::R11), Opnd::Imm(2)),
        Asm::Push(Opnd::R(MReg::Rdx)),
        Asm::Cqo,
        Asm::Idiv(MReg::R11),
        Asm::Pop(MReg::Rdx),
        Asm::Mov(Opnd::R(MReg::R10), Opnd::R(MReg::Rax)),
    ]);
    assert_eq!(code[..expected.len()].to_vec(), expected);
}

#[test]
fn return_restores_saved_registers() {
    let f = lowered(vec![], vec![Stmt::Return(None)]);
    let a = allocate(&f, 0);
    let code = generate_function(&f, &a);
    let mut expected = prologue(0);
    expected.push(Asm::BlockLabel(0));
    expected.extend(vec![
        Asm::Mov(Opnd::R(MReg::Rsp), Opnd::R(MReg::Rbp)),
        Asm::Sub(MReg::Rsp, Opnd::Imm(40)),
        Asm::Pop(MReg::R15),
        Asm::Pop(MReg::R14),
        Asm::Pop(MReg::R13),
        Asm::Pop(MReg::R12),
        Asm::Pop(MReg::Rbx),
        Asm::Pop(MReg::Rbp),
        Asm::Ret,
    ]);
    assert_eq!(code, expected);
}

#[test]
fn generating_twice_gives_the_same_code() {
    let f = lowered(vec![], vec![add(0, Operand::Imm(1), Operand::Imm(2)), Stmt::Return(Some(Operand::Reg(0)))]);
    let a = allocate(&f, 1);
    assert_eq!(generate_function(&f, &a), generate_function(&f, &a));
}
