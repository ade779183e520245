use ir_compiler::liveness::{analyze_register, check_defined, AllocationError};
use ir_compiler::lowering::{lower_function, BinOp, FunctionAst, Inst, LowFunction, Operand, Stmt};
use ir_compiler::regalloc::{allocate, Location, CALLEE_SAVED, NUM_PHYS};

fn s(x: &str) -> String {
    x.to_string()
}

fn add(dest: usize, lhs: Operand, rhs: Operand) -> Stmt {
    Stmt::Op(Inst::Binary { op: BinOp::Add, dest, lhs, rhs })
}

fn lowered(params: Vec<usize>, body: Vec<Stmt>) -> LowFunction {
    lower_function(FunctionAst { name: s("f"), params, body }).unwrap()
}

fn round_trip() -> LowFunction {
    lowered(
        vec![],
        vec![
            add(1, Operand::Imm(2), Operand::Imm(3)),
            Stmt::Op(Inst::CompareLe { dest: 2, lhs: Operand::Reg(1), rhs: Operand::Imm(10) }),
            Stmt::Branch { cond: 2, then_label: s("yes"), else_label: s("no") },
            Stmt::Label(s("yes")),
            Stmt::Exit(0),
            Stmt::Label(s("no")),
            Stmt::Exit(1),
        ],
    )
}

fn counting_loop() -> LowFunction {
    lowered(
        vec![],
        vec![
            add(0, Operand::Imm(0), Operand::Imm(0)),
            Stmt::Label(s("head")),
            Stmt::Op(Inst::CompareLe { dest: 1, lhs: Operand::Reg(0), rhs: Operand::Imm(10) }),
            Stmt::Branch { cond: 1, then_label: s("body"), else_label: s("done") },
            Stmt::Label(s("body")),
            add(0, Operand::Reg(0), Operand::Imm(1)),
            Stmt::Jump(s("head")),
            Stmt::Label(s("done")),
            Stmt::Return(Some(Operand::Reg(0))),
        ],
    )
}

#[test]
fn round_trip_registers_stay_inside_the_entry_block() {
    let f = round_trip();
    for r in [1usize, 2] {
        let info = analyze_register(&f, r);
        assert_eq!(info.reg, r);
        assert_eq!(info.live_in, vec![false, false, false]);
        assert_eq!(info.live_out, vec![false, false, false]);
    }
    assert!(check_defined(&f).is_ok());
}

#[test]
fn round_trip_allocation_uses_two_registers_and_no_spill() {
    let f = round_trip();
    let a = allocate(&f, 3);
    assert_eq!(a.spill_slots, 0);
    assert!(matches!(a.locs[1], Location::Reg(_)));
    assert!(matches!(a.locs[2], Location::Reg(_)));
    assert_ne!(a.locs[1], a.locs[2]);
    // Neither spans a call: the first takes the caller-saved register, the
    // second, which interferes with it, the lowest callee-saved one.
    assert_eq!(a.locs[1], Location::Reg(CALLEE_SAVED));
    assert_eq!(a.locs[2], Location::Reg(0));
}

#[test]
fn loop_counter_is_live_around_the_loop() {
    let f = counting_loop();
    assert_eq!(f.blocks.len(), 4);
    let info = analyze_register(&f, 0);
    assert_eq!(info.live_in, vec![false, true, true, true]);
    assert_eq!(info.live_out, vec![true, true, true, false]);
    let cond = analyze_register(&f, 1);
    assert_eq!(cond.live_in, vec![false, false, false, false]);
    assert_eq!(cond.live_out, vec![false, false, false, false]);
}

#[test]
fn unused_register_is_live_nowhere() {
    let f = counting_loop();
    let info = analyze_register(&f, 7);
    assert_eq!(info.live_in, vec![false; 4]);
    assert_eq!(info.live_out, vec![false; 4]);
}

#[test]
fn use_before_definition_is_reported() {
    let f = lowered(vec![], vec![add(0, Operand::Reg(3), Operand::Imm(1)), Stmt::Return(Some(Operand::Reg(0)))]);
    match check_defined(&f) {
        Err(AllocationError::UseBeforeDef { function, register }) => {
            assert_eq!(function, "f");
            assert_eq!(register, 3);
        }
        other => panic!("unexpected result {:?}", other),
    }
}

#[test]
fn branch_on_undefined_register_is_reported() {
    let f = lowered(
        vec![],
        vec![
            Stmt::Branch { cond: 4, then_label: s("a"), else_label: s("a") },
            Stmt::Label(s("a")),
            Stmt::Exit(0),
        ],
    );
    match check_defined(&f) {
        Err(AllocationError::UseBeforeDef { register, .. }) => assert_eq!(register, 4),
        other => panic!("unexpected result {:?}", other),
    }
}

#[test]
fn parameters_count_as_defined() {
    let f = lowered(vec![3], vec![add(0, Operand::Reg(3), Operand::Imm(1)), Stmt::Return(Some(Operand::Reg(0)))]);
    assert!(check_defined(&f).is_ok());
}

#[test]
fn more_live_registers_than_physical_ones_spill() {
    let n = NUM_PHYS + 1;
    let mut body: Vec<Stmt> = (0..n).map(|r| add(r, Operand::Imm(r as i64), Operand::Imm(1))).collect();
    body.push(Stmt::Op(Inst::Call { dest: None, callee: s("g"), args: vec![] }));
    let f0 = lowered(vec![], body);
    // With a call in the block every register spans it: only the callee-saved pool is open.
    let a0 = allocate(&f0, n);
    assert_eq!(a0.spill_slots, n - CALLEE_SAVED);

    let body: Vec<Stmt> = (0..n).map(|r| add(r, Operand::Imm(r as i64), Operand::Imm(1))).collect();
    let f = lowered(vec![], body);
    let a = allocate(&f, n);
    assert_eq!(a.spill_slots, 1);
    assert_eq!(a.locs[n - 1], Location::Spill(0));
    for i in 0..n - 1 {
        assert!(matches!(a.locs[i], Location::Reg(_)));
        for j in 0..i {
            assert_ne!(a.locs[i], a.locs[j]);
        }
    }
}

#[test]
fn register_live_across_a_call_is_callee_saved() {
    let f = lowered(
        vec![],
        vec![
            add(0, Operand::Imm(1), Operand::Imm(2)),
            Stmt::Op(Inst::Call { dest: Some(1), callee: s("g"), args: vec![Operand::Reg(0)] }),
            Stmt::Return(Some(Operand::Reg(0))),
        ],
    );
    let a = allocate(&f, 2);
    for r in 0..2 {
        match a.locs[r] {
            Location::Reg(p) => assert!(p < CALLEE_SAVED),
            Location::Spill(_) => {}
            Location::Arg(_) => panic!("not a parameter"),
        }
    }
    assert_eq!(a.locs[0], Location::Reg(0));
    assert_eq!(a.locs[1], Location::Reg(1));
}

#[test]
fn registers_in_different_blocks_may_share() {
    let f = lowered(
        vec![],
        vec![
            add(0, Operand::Imm(1), Operand::Imm(2)),
            Stmt::Exit(0),
            Stmt::Label(s("other")),
            add(1, Operand::Imm(1), Operand::Imm(2)),
            Stmt::Exit(1),
        ],
    );
    let a = allocate(&f, 2);
    assert_eq!(a.locs[0], a.locs[1]);
}

#[test]
fn parameters_take_their_argument_places() {
    let f = lowered(vec![0, 1, 2], vec![Stmt::Return(Some(Operand::Reg(0)))]);
    let a = allocate(&f, 3);
    assert_eq!(a.locs[0], Location::Arg(0));
    assert_eq!(a.locs[1], Location::Arg(1));
    assert_eq!(a.locs[2], Location::Arg(2));
}

#[test]
fn stack_parameters_take_stack_argument_places() {
    let params: Vec<usize> = (0..8).collect();
    let f = lowered(params, vec![Stmt::Return(Some(Operand::Reg(7)))]);
    let a = allocate(&f, 9);
    for i in 0..8 {
        assert_eq!(a.locs[i], Location::Arg(i));
    }
    assert_eq!(a.locs[8], Location::Reg(CALLEE_SAVED));
}
