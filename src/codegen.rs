use vstd::prelude::*;
use crate::lowering::{BinOp, Block, Inst, LowFunction, Operand, Terminator};
use crate::regalloc::{Allocation, Location};

verus! {

/// x86-64 general-purpose registers.
#[derive(Debug, Clone, Copy, PartialEq, Eq, Structural)]
pub enum MReg {
    Rax,
    Rbx,
    Rcx,
    Rdx,
    Rsi,
    Rdi,
    Rsp,
    Rbp,
    R8,
    R9,
    R10,
    R11,
    R12,
    R13,
    R14,
    R15,
}

/// An operand: a register, the word at `rbp + offset`, or an immediate.
#[derive(Debug, Clone, Copy, PartialEq, Eq, Structural)]
pub enum Opnd {
    R(MReg),
    Frame(i64),
    Imm(i64),
}

/// One line of assembly.
#[derive(Debug, Clone, PartialEq, Eq)]
pub enum Asm {
    /// The program's entry point: calls `main`, then exits with its result.
    EntryStub,
    /// The start of the named function; the blocks after it are its own.
    FunctionLabel(String),
    /// The label of block `index` of the function being emitted.
    BlockLabel(usize),
    Push(Opnd),
    Pop(MReg),
    Mov(Opnd, Opnd),
    Add(MReg, Opnd),
    Sub(MReg, Opnd),
    Imul(MReg, Opnd),
    /// Sign-extends `rax` into `rdx`.
    Cqo,
    Idiv(MReg),
    Cmp(MReg, Opnd),
    /// Sets the register to 1 if the last comparison found less-or-equal, else 0.
    SetLe(MReg),
    Jmp(usize),
    Jne(usize),
    /// Calls the named function.
    Call(String),
    Ret,
    Syscall,
}

/// Callee-saved registers saved by every prologue, in push order.
pub open spec fn saved_regs() -> Seq<MReg> {
    seq![MReg::Rbx, MReg::R12, MReg::R13, MReg::R14, MReg::R15]
}

pub const WORD: i64 = 8;

/// Number of arguments passed in registers.
pub const ARG_REGS: usize = 6;

/// Largest frame, in slots, whose offsets fit in a 32-bit displacement.
pub const MAX_SLOTS: usize = 0x0fff_ffff;

pub open spec fn arg_reg(i: int) -> MReg {
    if i == 0 {
        MReg::Rdi
    } else if i == 1 {
        MReg::Rsi
    } else if i == 2 {
        MReg::Rdx
    } else if i == 3 {
        MReg::Rcx
    } else if i == 4 {
        MReg::R8
    } else {
        MReg::R9
    }
}

fn arg_reg_exec(i: usize) -> (r: MReg)
    ensures
        r == arg_reg(i as int),
{
    if i == 0 {
        MReg::Rdi
    } else if i == 1 {
        MReg::Rsi
    } else if i == 2 {
        MReg::Rdx
    } else if i == 3 {
        MReg::Rcx
    } else if i == 4 {
        MReg::R8
    } else {
        MReg::R9
    }
}

/// The machine register of allocatable physical register `p`: callee-saved
/// `rbx, r12..r15`, then caller-saved `r10`. `rax` and `r11` are scratch
/// registers, and the argument registers hold parameters.
pub open spec fn phys(p: usize) -> MReg {
    if p == 0 {
        MReg::Rbx
    } else if p == 1 {
        MReg::R12
    } else if p == 2 {
        MReg::R13
    } else if p == 3 {
        MReg::R14
    } else if p == 4 {
        MReg::R15
    } else {
        MReg::R10
    }
}

fn phys_exec(p: usize) -> (r: MReg)
    ensures
        r == phys(p),
{
    if p == 0 {
        MReg::Rbx
    } else if p == 1 {
        MReg::R12
    } else if p == 2 {
        MReg::R13
    } else if p == 3 {
        MReg::R14
    } else if p == 4 {
        MReg::R15
    } else {
        MReg::R10
    }
}

/// Offset from `rbp` of stack argument slot `i`: above the saved `rbp` and
/// the return address.
pub open spec fn stack_param_offset(i: int) -> i64 {
    (2 * WORD + WORD * i) as i64
}

/// Where a location is: its register; its slot below the saved registers;
/// or for a parameter, its argument register or stack argument slot.
pub open spec fn loc_opnd(l: Location) -> Opnd {
    match l {
        Location::Reg(p) => Opnd::R(phys(p)),
        Location::Spill(s) => Opnd::Frame((-WORD * (saved_regs().len() + 1 + s)) as i64),
        Location::Arg(i) => if i < ARG_REGS {
            Opnd::R(arg_reg(i as int))
        } else {
            Opnd::Frame(stack_param_offset(i - ARG_REGS))
        },
    }
}

fn loc_opnd_exec(l: Location) -> (r: Opnd)
    requires
        spill_ok(l),
    ensures
        r == loc_opnd(l),
{
    match l {
        Location::Reg(p) => Opnd::R(phys_exec(p)),
        Location::Spill(s) => Opnd::Frame(-WORD * (5 + 1 + s as i64)),
        Location::Arg(i) => if i < ARG_REGS {
            Opnd::R(arg_reg_exec(i))
        } else {
            Opnd::Frame(2 * WORD + WORD * (i - ARG_REGS) as i64)
        },
    }
}

pub open spec fn spill_ok(l: Location) -> bool {
    match l {
        Location::Spill(s) => s < MAX_SLOTS,
        Location::Arg(i) => i < MAX_SLOTS,
        _ => true,
    }
}

/// Register `r` has a location among `locs`, within the frame's reach.
pub open spec fn reg_ok(r: usize, locs: Seq<Location>) -> bool {
    r < locs.len() && spill_ok(locs[r as int])
}

pub open spec fn opnd_ok(o: Operand, locs: Seq<Location>) -> bool {
    o matches Operand::Reg(r) ==> reg_ok(r, locs)
}

pub open spec fn inst_ok(i: Inst, locs: Seq<Location>) -> bool {
    match i {
        Inst::Binary { dest, lhs, rhs, .. } => reg_ok(dest, locs) && opnd_ok(lhs, locs) && opnd_ok(rhs, locs),
        Inst::CompareLe { dest, lhs, rhs } => reg_ok(dest, locs) && opnd_ok(lhs, locs) && opnd_ok(rhs, locs),
        Inst::Call { dest, args, .. } => (dest matches Some(d) ==> reg_ok(d, locs)) && args@.len()
            <= MAX_SLOTS && forall|k: int| 0 <= k < args@.len() ==> opnd_ok(#[trigger] args@[k], locs),
    }
}

pub open spec fn term_ok(t: Terminator, locs: Seq<Location>) -> bool {
    match t {
        Terminator::Branch { cond, .. } => reg_ok(cond, locs),
        Terminator::Return(Some(o)) => opnd_ok(o, locs),
        _ => true,
    }
}

/// Every register of `f` has a location in `a` that the frame can address.
pub open spec fn emittable(f: LowFunction, a: Allocation) -> bool {
    &&& a.spill_slots <= MAX_SLOTS
    &&& f.params@.len() <= MAX_SLOTS
    &&& forall|i: int| 0 <= i < f.params@.len() ==> reg_ok(#[trigger] f.params@[i], a.locs@)
    &&& forall|b: int| 0 <= b < f.blocks@.len() ==> term_ok(#[trigger] f.blocks@[b].term, a.locs@)
    &&& forall|b: int, k: int|
        0 <= b < f.blocks@.len() && 0 <= k < f.blocks@[b].insts@.len() ==> inst_ok(
            #[trigger] f.blocks@[b].insts@[k],
            a.locs@,
        )
}

pub open spec fn val(o: Operand, locs: Seq<Location>) -> Opnd {
    match o {
        Operand::Reg(r) => loc_opnd(locs[r as int]),
        Operand::Imm(v) => Opnd::Imm(v),
    }
}

fn val_exec(o: &Operand, locs: &Vec<Location>) -> (r: Opnd)
    requires
        opnd_ok(*o, locs@),
    ensures
        r == val(*o, locs@),
{
    match o {
        Operand::Reg(x) => loc_opnd_exec(locs[*x]),
        Operand::Imm(v) => Opnd::Imm(*v),
    }
}

pub open spec fn binary_code(op: BinOp, dest: usize, lhs: Operand, rhs: Operand, locs: Seq<Location>) -> Seq<Asm> {
    seq![Asm::Mov(Opnd::R(MReg::Rax), val(lhs, locs)), Asm::Mov(Opnd::R(MReg::R11), val(rhs, locs))]
        + match op {
        BinOp::Add => seq![Asm::Add(MReg::Rax, Opnd::R(MReg::R11))],
        BinOp::Sub => seq![Asm::Sub(MReg::Rax, Opnd::R(MReg::R11))],
        BinOp::Mul => seq![Asm::Imul(MReg::Rax, Opnd::R(MReg::R11))],
        BinOp::Div => seq![Asm::Push(Opnd::R(MReg::Rdx)), Asm::Cqo, Asm::Idiv(MReg::R11), Asm::Pop(MReg::Rdx)],
    } + seq![Asm::Mov(loc_opnd(locs[dest as int]), Opnd::R(MReg::Rax))]
}

/// A comparison stores its outcome, 1 or 0, in its destination register, so
/// that the value can live across blocks and calls like any other; the
/// branch that consumes it tests that value (`term_code`). Nothing stands
/// between `cmp` and `setle`, which reads its flags.
pub open spec fn compare_code(dest: usize, lhs: Operand, rhs: Operand, locs: Seq<Location>) -> Seq<Asm> {
    seq![
        Asm::Mov(Opnd::R(MReg::Rax), val(lhs, locs)),
        Asm::Mov(Opnd::R(MReg::R11), val(rhs, locs)),
        Asm::Cmp(MReg::Rax, Opnd::R(MReg::R11)),
        Asm::SetLe(MReg::Rax),
        Asm::Mov(loc_opnd(locs[dest as int]), Opnd::R(MReg::Rax)),
    ]
}

/// Pushes `args[lo..]`, the last one first, so that `args[lo]` ends on top.
pub open spec fn push_args(args: Seq<Operand>, locs: Seq<Location>, lo: int) -> Seq<Asm>
    decreases args.len() - lo,
{
    if lo >= args.len() || lo < 0 {
        seq![]
    } else {
        push_args(args, locs, lo + 1) + seq![Asm::Mov(Opnd::R(MReg::Rax), val(args[lo], locs)), Asm::Push(Opnd::R(MReg::Rax))]
    }
}

/// Pops into the first `m` argument registers, in order.
pub open spec fn pop_args(m: int) -> Seq<Asm>
    decreases m,
{
    if m <= 0 {
        seq![]
    } else {
        pop_args(m - 1) + seq![Asm::Pop(arg_reg(m - 1))]
    }
}

/// Arguments passed on the stack.
pub open spec fn stack_args(n: int) -> int {
    if n > ARG_REGS { n - ARG_REGS } else { 0 }
}

/// One padding word keeps `rsp` 16-byte aligned at the call: the return
/// address, `rbp`, the saved registers, the spill slots, the `saved`
/// parameter registers and the stack arguments must fill an even number of
/// words.
pub open spec fn call_pad(slots: int, saved: int, n: int) -> int {
    if (saved_regs().len() + 2 + slots + saved + stack_args(n)) % 2 == 1 { 1 } else { 0 }
}

/// Pops the argument registers `lo..m` back, the last first.
pub open spec fn restore_regs(lo: int, m: int) -> Seq<Asm>
    decreases m - lo,
{
    if lo >= m || lo < 0 {
        seq![]
    } else {
        restore_regs(lo + 1, m) + seq![Asm::Pop(arg_reg(lo))]
    }
}

/// A call: the argument registers that hold the function's parameters are
/// saved, the arguments pushed last to first, the first `ARG_REGS` popped
/// into the argument registers, the callee called, the stack arguments and
/// padding dropped, the parameter registers restored, and the result moved
/// from `rax` to the destination.
pub open spec fn call_code(
    dest: Option<usize>,
    callee: String,
    args: Seq<Operand>,
    locs: Seq<Location>,
    slots: int,
    saved: int,
) -> Seq<Asm> {
    let n = args.len() as int;
    let pad = call_pad(slots, saved, n);
    let drop = stack_args(n) + pad;
    push_param_regs(saved) + (if pad == 1 { seq![Asm::Sub(MReg::Rsp, Opnd::Imm(WORD))] } else { seq![] })
        + push_args(args, locs, 0) + pop_args(if n > ARG_REGS { ARG_REGS as int } else { n }) + seq![Asm::Call(callee)]
        + (if drop > 0 { seq![Asm::Add(MReg::Rsp, Opnd::Imm((WORD * drop) as i64))] } else { seq![] })
        + restore_regs(0, saved)
        + match dest {
        Some(d) => seq![Asm::Mov(loc_opnd(locs[d as int]), Opnd::R(MReg::Rax))],
        None => seq![],
    }
}

pub open spec fn inst_code(i: Inst, locs: Seq<Location>, slots: int, saved: int) -> Seq<Asm> {
    match i {
        Inst::Binary { op, dest, lhs, rhs } => binary_code(op, dest, lhs, rhs, locs),
        Inst::CompareLe { dest, lhs, rhs } => compare_code(dest, lhs, rhs, locs),
        Inst::Call { dest, callee, args } => call_code(dest, callee, args@, locs, slots, saved),
    }
}

fn emit_inst(out: &mut Vec<Asm>, i: &Inst, locs: &Vec<Location>, slots: usize, saved: usize)
    requires
        inst_ok(*i, locs@),
        slots <= MAX_SLOTS,
        saved <= ARG_REGS,
    ensures
        final(out)@ == old(out)@ + inst_code(*i, locs@, slots as int, saved as int),
{
    let ghost start = out@;
    match i {
        Inst::Binary { op, dest, lhs, rhs } => {
            out.push(Asm::Mov(Opnd::R(MReg::Rax), val_exec(lhs, locs)));
            out.push(Asm::Mov(Opnd::R(MReg::R11), val_exec(rhs, locs)));
            match op {
                BinOp::Add => out.push(Asm::Add(MReg::Rax, Opnd::R(MReg::R11))),
                BinOp::Sub => out.push(Asm::Sub(MReg::Rax, Opnd::R(MReg::R11))),
                BinOp::Mul => out.push(Asm::Imul(MReg::Rax, Opnd::R(MReg::R11))),
                BinOp::Div => {
                    out.push(Asm::Push(Opnd::R(MReg::Rdx)));
                    out.push(Asm::Cqo);
                    out.push(Asm::Idiv(MReg::R11));
                    out.push(Asm::Pop(MReg::Rdx));
                },
            }
            out.push(Asm::Mov(loc_opnd_exec(locs[*dest]), Opnd::R(MReg::Rax)));
            assert(out@ =~= start + inst_code(*i, locs@, slots as int, saved as int));
        },
        Inst::CompareLe { dest, lhs, rhs } => {
            out.push(Asm::Mov(Opnd::R(MReg::Rax), val_exec(lhs, locs)));
            out.push(Asm::Mov(Opnd::R(MReg::R11), val_exec(rhs, locs)));
            out.push(Asm::Cmp(MReg::Rax, Opnd::R(MReg::R11)));
            out.push(Asm::SetLe(MReg::Rax));
            out.push(Asm::Mov(loc_opnd_exec(locs[*dest]), Opnd::R(MReg::Rax)));
            assert(out@ =~= start + inst_code(*i, locs@, slots as int, saved as int));
        },
        Inst::Call { dest, callee, args } => {
            emit_call(out, dest, callee, args, locs, slots, saved);
        },
    }
}

#[verifier::rlimit(80)]
fn emit_call(
    out: &mut Vec<Asm>,
    dest: &Option<usize>,
    callee: &String,
    args: &Vec<Operand>,
    locs: &Vec<Location>,
    slots: usize,
    saved: usize,
)
    requires
        dest matches Some(d) ==> reg_ok(*d, locs@),
        args@.len() <= MAX_SLOTS,
        forall|k: int| 0 <= k < args@.len() ==> opnd_ok(#[trigger] args@[k], locs@),
        slots <= MAX_SLOTS,
        saved <= ARG_REGS,
    ensures
        final(out)@ == old(out)@ + call_code(*dest, *callee, args@, locs@, slots as int, saved as int),
{
    let ghost start = out@;
    let mut q: usize = 0;
    while q < saved
        invariant
            q <= saved,
            saved <= ARG_REGS,
            out@ == start + push_param_regs(q as int),
        decreases saved - q,
    {
        out.push(Asm::Push(Opnd::R(arg_reg_exec(q))));
        q += 1;
        assert(out@ =~= start + push_param_regs(q as int));
    }
    let n = args.len();
    let stack: usize = if n > ARG_REGS { n - ARG_REGS } else { 0 };
    let pad: usize = if (5 + 2 + slots + saved + stack) % 2 == 1 { 1 } else { 0 };
    if pad == 1 {
        out.push(Asm::Sub(MReg::Rsp, Opnd::Imm(WORD)));
    }
    let ghost mid = out@;
    let mut j = n;
    while j > 0
        invariant
            j <= n,
            n == args@.len(),
            forall|k: int| 0 <= k < args@.len() ==> opnd_ok(#[trigger] args@[k], locs@),
            out@ == mid + push_args(args@, locs@, j as int),
        decreases j,
    {
        j -= 1;
        out.push(Asm::Mov(Opnd::R(MReg::Rax), val_exec(&args[j], locs)));
        out.push(Asm::Push(Opnd::R(MReg::Rax)));
        assert(out@ =~= mid + push_args(args@, locs@, j as int));
    }
    let ghost mid2 = out@;
    let m = if n > ARG_REGS { ARG_REGS } else { n };
    let mut i: usize = 0;
    while i < m
        invariant
            i <= m,
            m <= ARG_REGS,
            out@ == mid2 + pop_args(i as int),
        decreases m - i,
    {
        out.push(Asm::Pop(arg_reg_exec(i)));
        i += 1;
        assert(out@ =~= mid2 + pop_args(i as int));
    }
    out.push(Asm::Call(callee.clone()));
    let drop = stack + pad;
    if drop > 0 {
        out.push(Asm::Add(MReg::Rsp, Opnd::Imm(WORD * drop as i64)));
    }
    let ghost mid3 = out@;
    let mut q = saved;
    while q > 0
        invariant
            q <= saved,
            out@ == mid3 + restore_regs(q as int, saved as int),
        decreases q,
    {
        q -= 1;
        out.push(Asm::Pop(arg_reg_exec(q)));
        assert(out@ =~= mid3 + restore_regs(q as int, saved as int));
    }
    match dest {
        Some(d) => out.push(Asm::Mov(loc_opnd_exec(locs[*d]), Opnd::R(MReg::Rax))),
        None => {},
    }
    assert(out@ =~= start + call_code(*dest, *callee, args@, locs@, slots as int, saved as int));
}

/// Restores `rsp`, the callee-saved registers and `rbp`, and returns.
pub open spec fn epilogue() -> Seq<Asm> {
    seq![
        Asm::Mov(Opnd::R(MReg::Rsp), Opnd::R(MReg::Rbp)),
        Asm::Sub(MReg::Rsp, Opnd::Imm(40)),
        Asm::Pop(MReg::R15),
        Asm::Pop(MReg::R14),
        Asm::Pop(MReg::R13),
        Asm::Pop(MReg::R12),
        Asm::Pop(MReg::Rbx),
        Asm::Pop(MReg::Rbp),
        Asm::Ret,
    ]
}

/// A block's terminator. A branch tests its condition register, as stored by
/// `compare_code`, and jumps to the `then` block if it is non-zero, else to
/// the `else` block; a return leaves its value in `rax`, the return register.
pub open spec fn term_code(t: Terminator, locs: Seq<Location>) -> Seq<Asm> {
    match t {
        Terminator::Jump { target, .. } => seq![Asm::Jmp(target)],
        Terminator::Branch { cond, then_target, else_target, .. } => seq![
            Asm::Mov(Opnd::R(MReg::Rax), loc_opnd(locs[cond as int])),
            Asm::Cmp(MReg::Rax, Opnd::Imm(0)),
            Asm::Jne(then_target),
            Asm::Jmp(else_target),
        ],
        Terminator::Return(None) => epilogue(),
        Terminator::Return(Some(o)) => seq![Asm::Mov(Opnd::R(MReg::Rax), val(o, locs))] + epilogue(),
        Terminator::Exit(c) => seq![
            Asm::Mov(Opnd::R(MReg::Rdi), Opnd::Imm(c)),
            Asm::Mov(Opnd::R(MReg::Rax), Opnd::Imm(60)),
            Asm::Syscall,
        ],
    }
}

fn emit_epilogue(out: &mut Vec<Asm>)
    ensures
        final(out)@ == old(out)@ + epilogue(),
{
    let ghost start = out@;
    out.push(Asm::Mov(Opnd::R(MReg::Rsp), Opnd::R(MReg::Rbp)));
    out.push(Asm::Sub(MReg::Rsp, Opnd::Imm(40)));
    out.push(Asm::Pop(MReg::R15));
    out.push(Asm::Pop(MReg::R14));
    out.push(Asm::Pop(MReg::R13));
    out.push(Asm::Pop(MReg::R12));
    out.push(Asm::Pop(MReg::Rbx));
    out.push(Asm::Pop(MReg::Rbp));
    out.push(Asm::Ret);
    assert(out@ =~= start + epilogue());
}

fn emit_term(out: &mut Vec<Asm>, t: &Terminator, locs: &Vec<Location>)
    requires
        term_ok(*t, locs@),
    ensures
        final(out)@ == old(out)@ + term_code(*t, locs@),
{
    let ghost start = out@;
    match t {
        Terminator::Jump { target, .. } => {
            out.push(Asm::Jmp(*target));
            assert(out@ =~= start + term_code(*t, locs@));
        },
        Terminator::Branch { cond, then_target, else_target, .. } => {
            out.push(Asm::Mov(Opnd::R(MReg::Rax), loc_opnd_exec(locs[*cond])));
            out.push(Asm::Cmp(MReg::Rax, Opnd::Imm(0)));
            out.push(Asm::Jne(*then_target));
            out.push(Asm::Jmp(*else_target));
            assert(out@ =~= start + term_code(*t, locs@));
        },
        Terminator::Return(v) => {
            match v {
                Some(o) => {
                    out.push(Asm::Mov(Opnd::R(MReg::Rax), val_exec(o, locs)));
                },
                None => {},
            }
            let ghost mid = out@;
            emit_epilogue(out);
            assert(out@ =~= start + term_code(*t, locs@));
        },
        Terminator::Exit(c) => {
            out.push(Asm::Mov(Opnd::R(MReg::Rdi), Opnd::Imm(*c)));
            out.push(Asm::Mov(Opnd::R(MReg::Rax), Opnd::Imm(60)));
            out.push(Asm::Syscall);
            assert(out@ =~= start + term_code(*t, locs@));
        },
    }
}

pub open spec fn insts_code(insts: Seq<Inst>, locs: Seq<Location>, slots: int, saved: int, k: int) -> Seq<Asm>
    decreases k,
{
    if k <= 0 || k > insts.len() {
        seq![]
    } else {
        insts_code(insts, locs, slots, saved, k - 1) + inst_code(insts[k - 1], locs, slots, saved)
    }
}

/// A block: its label, its instructions, its terminator.
pub open spec fn block_code(b: Block, index: int, locs: Seq<Location>, slots: int, saved: int) -> Seq<Asm> {
    seq![Asm::BlockLabel(index as usize)] + insts_code(b.insts@, locs, slots, saved, b.insts@.len() as int)
        + term_code(b.term, locs)
}

pub open spec fn blocks_code(blocks: Seq<Block>, locs: Seq<Location>, slots: int, saved: int, k: int) -> Seq<Asm>
    decreases k,
{
    if k <= 0 || k > blocks.len() {
        seq![]
    } else {
        blocks_code(blocks, locs, slots, saved, k - 1) + block_code(blocks[k - 1], k - 1, locs, slots, saved)
    }
}

/// Saves `rbp` and the callee-saved registers and reserves the spill slots.
pub open spec fn prologue(slots: int) -> Seq<Asm> {
    seq![
        Asm::Push(Opnd::R(MReg::Rbp)),
        Asm::Mov(Opnd::R(MReg::Rbp), Opnd::R(MReg::Rsp)),
        Asm::Push(Opnd::R(MReg::Rbx)),
        Asm::Push(Opnd::R(MReg::R12)),
        Asm::Push(Opnd::R(MReg::R13)),
        Asm::Push(Opnd::R(MReg::R14)),
        Asm::Push(Opnd::R(MReg::R15)),
        Asm::Sub(MReg::Rsp, Opnd::Imm((WORD * slots) as i64)),
    ]
}

/// Pushes the first `m` argument registers, in order.
pub open spec fn push_param_regs(m: int) -> Seq<Asm>
    decreases m,
{
    if m <= 0 {
        seq![]
    } else {
        push_param_regs(m - 1) + seq![Asm::Push(Opnd::R(arg_reg(m - 1)))]
    }
}

pub open spec fn reg_params(n: int) -> int {
    if n > ARG_REGS { ARG_REGS as int } else { n }
}

/// The code of a function: the prologue, then each block in order.
/// Parameters stay where the calling convention passes them.
pub open spec fn function_code(f: LowFunction, a: Allocation) -> Seq<Asm> {
    prologue(a.spill_slots as int) + blocks_code(
        f.blocks@,
        a.locs@,
        a.spill_slots as int,
        reg_params(f.params@.len() as int),
        f.blocks@.len() as int,
    )
}

/// Emits the assembly of `f` with its registers placed by `a`.
pub fn generate_function(f: &LowFunction, a: &Allocation) -> (out: Vec<Asm>)
    requires
        emittable(*f, *a),
    ensures
        out@ == function_code(*f, *a),
{
    let locs = &a.locs;
    let slots = a.spill_slots;
    let mut out: Vec<Asm> = Vec::new();
    out.push(Asm::Push(Opnd::R(MReg::Rbp)));
    out.push(Asm::Mov(Opnd::R(MReg::Rbp), Opnd::R(MReg::Rsp)));
    out.push(Asm::Push(Opnd::R(MReg::Rbx)));
    out.push(Asm::Push(Opnd::R(MReg::R12)));
    out.push(Asm::Push(Opnd::R(MReg::R13)));
    out.push(Asm::Push(Opnd::R(MReg::R14)));
    out.push(Asm::Push(Opnd::R(MReg::R15)));
    out.push(Asm::Sub(MReg::Rsp, Opnd::Imm(WORD * slots as i64)));
    assert(out@ =~= prologue(slots as int));
    let np = f.params.len();
    let saved = if np > ARG_REGS { ARG_REGS } else { np };
    let ghost after_params = out@;
    let mut b: usize = 0;
    while b < f.blocks.len()
        invariant
            b <= f.blocks@.len(),
            emittable(*f, *a),
            locs == a.locs,
            slots == a.spill_slots,
            saved as int == reg_params(f.params@.len() as int),
            out@ == after_params + blocks_code(f.blocks@, locs@, slots as int, saved as int, b as int),
        decreases f.blocks@.len() - b,
    {
        let block = &f.blocks[b];
        let ghost before = out@;
        out.push(Asm::BlockLabel(b));
        let mut q: usize = 0;
        while q < block.insts.len()
            invariant
                b < f.blocks@.len(),
                *block == f.blocks@[b as int],
                q <= block.insts@.len(),
                emittable(*f, *a),
                locs == a.locs,
                slots == a.spill_slots,
                saved <= ARG_REGS,
                out@ == before + seq![Asm::BlockLabel(b)] + insts_code(block.insts@, locs@, slots as int, saved as int, q as int),
            decreases block.insts@.len() - q,
        {
            emit_inst(&mut out, &block.insts[q], locs, slots, saved);
            q += 1;
            assert(out@ =~= before + seq![Asm::BlockLabel(b)] + insts_code(block.insts@, locs@, slots as int, saved as int, q as int));
        }
        emit_term(&mut out, &block.term, locs);
        b += 1;
        assert(out@ =~= after_params + blocks_code(f.blocks@, locs@, slots as int, saved as int, b as int));
    }
    assert(out@ =~= function_code(*f, *a));
    out
}

/// Frame size: the only stack space a function's prologue reserves below
/// its saved registers is one word per spill slot.
pub proof fn lemma_frame_size(f: LowFunction, a: Allocation)
    ensures
        function_code(f, a).subrange(0, 8) == prologue(a.spill_slots as int),
        prologue(a.spill_slots as int)[7] == Asm::Sub(
            MReg::Rsp,
            Opnd::Imm((WORD * a.spill_slots) as i64),
        ),
{
    let p = prologue(a.spill_slots as int);
    let code = function_code(f, a);
    assert(p.len() == 8);
    assert(code.subrange(0, 8) =~= p);
}

proof fn lemma_pop_args(m: int, j: int)
    requires
        0 <= j < m,
    ensures
        pop_args(m).len() == m,
        pop_args(m)[j] == Asm::Pop(arg_reg(j)),
    decreases m,
{
    if j < m - 1 {
        lemma_pop_args(m - 1, j);
    } else if m > 1 {
        lemma_pop_args(m - 1, m - 2);
    }
}

proof fn lemma_push_args(args: Seq<Operand>, locs: Seq<Location>, lo: int, j: int)
    requires
        0 <= lo <= j < args.len(),
    ensures
        push_args(args, locs, lo).len() == 2 * (args.len() - lo),
        push_args(args, locs, lo)[2 * (args.len() - 1 - j)] == Asm::Mov(
            Opnd::R(MReg::Rax),
            val(args[j], locs),
        ),
        push_args(args, locs, lo)[2 * (args.len() - 1 - j) + 1] == Asm::Push(Opnd::R(MReg::Rax)),
    decreases args.len() - lo,
{
    if lo < j {
        lemma_push_args(args, locs, lo + 1, j);
    } else if lo + 1 < args.len() {
        lemma_push_args(args, locs, lo + 1, lo + 1);
    } else {
        assert(push_args(args, locs, lo + 1) == Seq::<Asm>::empty());
    }
}

/// Call arguments: a call pushes its arguments from the last to the first,
/// then pops the first `ARG_REGS` of them into the argument registers in
/// order, so that argument `j` ends in argument register `j`, or, past the
/// register count, `j - ARG_REGS` words above the stack pointer, the stack
/// arguments in left-to-right order. The callee's parameter `j` is read from
/// that same place: `loc_opnd(Location::Arg(j))` is argument register `j`,
/// or the stack argument slot `j - ARG_REGS` above its saved `rbp` and the
/// return address.
pub proof fn lemma_stack_arguments(args: Seq<Operand>, locs: Seq<Location>, j: int)
    requires
        0 <= j < args.len(),
        args.len() <= MAX_SLOTS,
    ensures
        push_args(args, locs, 0).len() == 2 * args.len(),
        push_args(args, locs, 0)[2 * (args.len() - 1 - j)] == Asm::Mov(
            Opnd::R(MReg::Rax),
            val(args[j], locs),
        ),
        push_args(args, locs, 0)[2 * (args.len() - 1 - j) + 1] == Asm::Push(Opnd::R(MReg::Rax)),
        j < ARG_REGS ==> pop_args(if args.len() > ARG_REGS { ARG_REGS as int } else { args.len() as int })[j]
            == Asm::Pop(arg_reg(j)) && loc_opnd(Location::Arg(j as usize)) == Opnd::R(arg_reg(j)),
        j >= ARG_REGS ==> loc_opnd(Location::Arg(j as usize)) == Opnd::Frame(
            stack_param_offset(j - ARG_REGS),
        ),
{
    lemma_push_args(args, locs, 0, j);
    if j < ARG_REGS {
        lemma_pop_args(if args.len() > ARG_REGS { ARG_REGS as int } else { args.len() as int }, j);
    }
}

} // verus!
