use vstd::prelude::*;
use crate::codegen::{emittable, function_code, generate_function, Asm, MAX_SLOTS};
use crate::liveness::{check_defined, defined_at_entry, use_before_def, AllocationError};
use crate::lowering::{lower_function, lowered, lowers, reported, FunctionAst, Inst, LowFunction, LoweringError, Operand, Terminator};
use crate::regalloc::{allocate, lemma_allocation_unique, valid_allocation, Allocation, Location};

verus! {

#[derive(Debug)]
pub enum CompileError {
    Lowering(LoweringError),
    Allocation(AllocationError),
    /// A register index, parameter list or argument list too large for the
    /// frame's 32-bit displacements.
    TooLarge,
}

pub open spec fn opnd_below(o: Operand, n: usize) -> bool {
    o matches Operand::Reg(r) ==> r < n
}

pub open spec fn inst_below(i: Inst, n: usize) -> bool {
    match i {
        Inst::Binary { dest, lhs, rhs, .. } => dest < n && opnd_below(lhs, n) && opnd_below(rhs, n),
        Inst::CompareLe { dest, lhs, rhs } => dest < n && opnd_below(lhs, n) && opnd_below(rhs, n),
        Inst::Call { dest, args, .. } => (dest matches Some(d) ==> d < n) && args@.len() <= MAX_SLOTS
            && forall|k: int| 0 <= k < args@.len() ==> opnd_below(#[trigger] args@[k], n),
    }
}

pub open spec fn term_below(t: Terminator, n: usize) -> bool {
    match t {
        Terminator::Branch { cond, .. } => cond < n,
        Terminator::Return(Some(o)) => opnd_below(o, n),
        _ => true,
    }
}

/// Every register of `f` is below `n`, and its lists fit the frame.
pub open spec fn within(f: LowFunction, n: usize) -> bool {
    &&& f.params@.len() <= MAX_SLOTS
    &&& forall|i: int| 0 <= i < f.params@.len() ==> #[trigger] f.params@[i] < n
    &&& forall|b: int| 0 <= b < f.blocks@.len() ==> term_below(#[trigger] f.blocks@[b].term, n)
    &&& forall|b: int, k: int|
        0 <= b < f.blocks@.len() && 0 <= k < f.blocks@[b].insts@.len() ==> inst_below(
            #[trigger] f.blocks@[b].insts@[k],
            n,
        )
}

fn raise(n: usize, r: usize) -> (res: Option<usize>)
    requires
        n <= MAX_SLOTS,
    ensures
        match res {
            Some(m) => n <= m <= MAX_SLOTS && r < m && (m == n || m == r + 1),
            None => r + 1 > MAX_SLOTS,
        },
{
    if r >= MAX_SLOTS {
        None
    } else if r < n {
        Some(n)
    } else {
        Some(r + 1)
    }
}

fn raise_opnd(n: usize, o: &Operand) -> (res: Option<usize>)
    requires
        n <= MAX_SLOTS,
    ensures
        match res {
            Some(m) => n <= m <= MAX_SLOTS && opnd_below(*o, m),
            None => o matches Operand::Reg(r) && r + 1 > MAX_SLOTS,
        },
{
    match o {
        Operand::Reg(r) => raise(n, *r),
        Operand::Imm(_) => Some(n),
    }
}

fn inst_bound(n: usize, i: &Inst) -> (res: Option<usize>)
    requires
        n <= MAX_SLOTS,
    ensures
        match res {
            Some(m) => n <= m <= MAX_SLOTS && inst_below(*i, m),
            None => forall|m: usize| m <= MAX_SLOTS ==> !inst_below(*i, m),
        },
{
    match i {
        Inst::Binary { dest, lhs, rhs, .. } => {
            let m1 = raise(n, *dest)?;
            let m2 = raise_opnd(m1, lhs)?;
            let m3 = raise_opnd(m2, rhs)?;
            Some(m3)
        },
        Inst::CompareLe { dest, lhs, rhs } => {
            let m1 = raise(n, *dest)?;
            let m2 = raise_opnd(m1, lhs)?;
            let m3 = raise_opnd(m2, rhs)?;
            Some(m3)
        },
        Inst::Call { dest, callee, args } => {
            let mut m = n;
            if let Some(d) = dest {
                m = raise(n, *d)?;
            }
            if args.len() > MAX_SLOTS {
                return None;
            }
            let ghost m0 = m;
            let mut j: usize = 0;
            while j < args.len()
                invariant
                    *i == (Inst::Call { dest: *dest, callee: *callee, args: *args }),
                    n <= m0 <= m <= MAX_SLOTS,
                    dest matches Some(d) ==> d < m0,
                    j <= args@.len(),
                    forall|q: int| 0 <= q < j ==> opnd_below(#[trigger] args@[q], m),
                decreases args@.len() - j,
            {
                match raise_opnd(m, &args[j]) {
                    Some(k) => {
                        m = k;
                    },
                    None => {
                        proof {
                            assert forall|x: usize| x <= MAX_SLOTS implies !inst_below(*i, x) by {
                                assert(!opnd_below(args@[j as int], x));
                            }
                        }
                        return None;
                    },
                }
                j += 1;
            }
            Some(m)
        },
    }
}

fn term_bound(n: usize, t: &Terminator) -> (res: Option<usize>)
    requires
        n <= MAX_SLOTS,
    ensures
        match res {
            Some(m) => n <= m <= MAX_SLOTS && term_below(*t, m),
            None => forall|m: usize| m <= MAX_SLOTS ==> !term_below(*t, m),
        },
{
    match t {
        Terminator::Branch { cond, .. } => raise(n, *cond),
        Terminator::Return(Some(o)) => raise_opnd(n, o),
        _ => Some(n),
    }
}

/// The least register count that covers every register of `f`, if one fits
/// the frame.
fn reg_bound(f: &LowFunction) -> (res: Option<usize>)
    ensures
        match res {
            Some(n) => n <= MAX_SLOTS && within(*f, n),
            None => forall|m: usize| m <= MAX_SLOTS ==> !within(*f, m),
        },
{
    if f.params.len() > MAX_SLOTS {
        return None;
    }
    let mut n: usize = 0;
    let mut i: usize = 0;
    while i < f.params.len()
        invariant
            n <= MAX_SLOTS,
            i <= f.params@.len(),
            forall|j: int| 0 <= j < i ==> #[trigger] f.params@[j] < n,
        decreases f.params@.len() - i,
    {
        match raise(n, f.params[i]) {
            Some(m) => {
                n = m;
            },
            None => {
                proof {
                    assert forall|m: usize| m <= MAX_SLOTS implies !within(*f, m) by {
                        assert(!(f.params@[i as int] < m));
                    }
                }
                return None;
            },
        }
        i += 1;
    }
    let mut b: usize = 0;
    while b < f.blocks.len()
        invariant
            n <= MAX_SLOTS,
            f.params@.len() <= MAX_SLOTS,
            b <= f.blocks@.len(),
            forall|j: int| 0 <= j < f.params@.len() ==> #[trigger] f.params@[j] < n,
            forall|c: int| 0 <= c < b ==> term_below(#[trigger] f.blocks@[c].term, n),
            forall|c: int, k: int|
                0 <= c < b && 0 <= k < f.blocks@[c].insts@.len() ==> inst_below(#[trigger] f.blocks@[c].insts@[k], n),
        decreases f.blocks@.len() - b,
    {
        let block = &f.blocks[b];
        let ghost n0 = n;
        let mut k: usize = 0;
        while k < block.insts.len()
            invariant
                n0 <= n <= MAX_SLOTS,
                b < f.blocks@.len(),
                *block == f.blocks@[b as int],
                k <= block.insts@.len(),
                forall|q: int| 0 <= q < k ==> inst_below(#[trigger] block.insts@[q], n),
            decreases block.insts@.len() - k,
        {
            let ghost n1 = n;
            match inst_bound(n, &block.insts[k]) {
                Some(m) => {
                    n = m;
                },
                None => {
                    proof {
                        assert forall|m: usize| m <= MAX_SLOTS implies !within(*f, m) by {
                            assert(!inst_below(f.blocks@[b as int].insts@[k as int], m));
                        }
                    }
                    return None;
                },
            }
            proof {
                assert forall|q: int| 0 <= q < k + 1 implies inst_below(#[trigger] block.insts@[q], n) by {
                    let i = block.insts@[q];
                    if q < k {
                        assert(inst_below(i, n1));
                        if let Inst::Call { args, .. } = i {
                            assert(forall|j: int| 0 <= j < args@.len() ==> opnd_below(#[trigger] args@[j], n1));
                        }
                    }
                }
            }
            k += 1;
        }
        match term_bound(n, &block.term) {
            Some(m) => {
                n = m;
            },
            None => {
                proof {
                    assert forall|m: usize| m <= MAX_SLOTS implies !within(*f, m) by {
                        assert(!term_below(f.blocks@[b as int].term, m));
                    }
                }
                return None;
            },
        }
        proof {
            assert forall|c: int, q: int|
                0 <= c < b + 1 && 0 <= q < f.blocks@[c].insts@.len() implies inst_below(#[trigger] f.blocks@[c].insts@[q], n) by {
                let i = f.blocks@[c].insts@[q];
                if let Inst::Call { args, .. } = i {
                    if c < b {
                        assert(inst_below(i, n0));
                        assert(forall|j: int| 0 <= j < args@.len() ==> opnd_below(#[trigger] args@[j], n0));
                    } else {
                        assert(inst_below(block.insts@[q], n));
                    }
                } else {
                    if c < b {
                        assert(inst_below(i, n0));
                    } else {
                        assert(inst_below(block.insts@[q], n));
                    }
                }
            }
            assert forall|c: int| 0 <= c < b + 1 implies term_below(#[trigger] f.blocks@[c].term, n) by {
                if c < b {
                    assert(term_below(f.blocks@[c].term, n0));
                }
            }
        }
        b += 1;
    }
    Some(n)
}

proof fn lemma_emittable(f: LowFunction, n: usize, a: Allocation)
    requires
        within(f, n),
        n <= MAX_SLOTS,
        valid_allocation(f.blocks@, f.params@, n, a),
    ensures
        emittable(f, a),
{
    let locs = a.locs@;
    assert forall|r: usize| r < n implies crate::codegen::reg_ok(r, locs) by {
        let l = locs[r as int];
        assert(match l {
            Location::Reg(p) => crate::regalloc::allowed(f.blocks@, f.params@, r, p) && !f.params@.contains(r),
            Location::Spill(s) => s < a.spill_slots && !f.params@.contains(r),
            Location::Arg(i) => crate::regalloc::first_param(f.params@, r, i as int),
        });
    }
    assert forall|b: int, k: int|
        0 <= b < f.blocks@.len() && 0 <= k < f.blocks@[b].insts@.len() implies crate::codegen::inst_ok(
            #[trigger] f.blocks@[b].insts@[k],
            locs,
        ) by {
        let i = f.blocks@[b].insts@[k];
        assert(inst_below(i, n));
        if let Inst::Call { args, .. } = i {
            assert forall|j: int| 0 <= j < args@.len() implies crate::codegen::opnd_ok(#[trigger] args@[j], locs) by {
                assert(opnd_below(args@[j], n));
            }
        }
    }
    assert forall|b: int| 0 <= b < f.blocks@.len() implies crate::codegen::term_ok(#[trigger] f.blocks@[b].term, locs) by {
        assert(term_below(f.blocks@[b].term, n));
    }
    assert forall|i: int| 0 <= i < f.params@.len() implies crate::codegen::reg_ok(#[trigger] f.params@[i], locs) by {
        assert(f.params@[i] < n);
    }
}

/// `code` is the code of `f`: lowered, checked, allocated and emitted.
#[verifier::opaque]
pub open spec fn compiles_to(f: FunctionAst, code: Seq<Asm>) -> bool {
    exists|lf: LowFunction, a: Allocation, n: usize|
        #[trigger] lowered(f, lf) && (forall|x: usize| defined_at_entry(lf, x)) && within(lf, n)
            && #[trigger] valid_allocation(lf.blocks@, lf.params@, n, a) && code == function_code(lf, a)
}

pub open spec fn compiles(f: FunctionAst) -> bool {
    exists|c: Seq<Asm>| compiles_to(f, c)
}

/// `e` is the error of the first stage that `f` fails.
#[verifier::opaque]
pub open spec fn fails_with(f: FunctionAst, e: CompileError) -> bool {
    match e {
        CompileError::Lowering(e) => !lowers(f) && reported(f, e),
        CompileError::Allocation(e) => exists|lf: LowFunction|
            #[trigger] lowered(f, lf) && use_before_def(lf, e),
        CompileError::TooLarge => exists|lf: LowFunction|
            #[trigger] lowered(f, lf) && (forall|x: usize| defined_at_entry(lf, x)) && forall|m: usize|
                m <= MAX_SLOTS ==> !within(lf, m),
    }
}

pub open spec fn compile_outcome(f: FunctionAst, r: Result<Vec<Asm>, CompileError>) -> bool {
    &&& (r matches Err(CompileError::Lowering(_))) <==> !lowers(f)
    &&& match r {
        Ok(code) => compiles_to(f, code@),
        Err(e) => fails_with(f, e),
    }
}

/// Compiles one function: lowering, the check that no register is read
/// before it is assigned, register allocation, then code generation. The
/// first stage that fails decides the error.
pub fn compile_function(f: FunctionAst) -> (r: Result<Vec<Asm>, CompileError>)
    ensures
        compile_outcome(f, r),
{
    reveal(compiles_to);
    reveal(fails_with);
    let ghost f0 = f;
    let lf = match lower_function(f) {
        Ok(lf) => lf,
        Err(e) => {
            return Err(CompileError::Lowering(e));
        },
    };
    match check_defined(&lf) {
        Ok(()) => {},
        Err(e) => {
            proof {
                assert(lowered(f0, lf) && use_before_def(lf, e));
            }
            return Err(CompileError::Allocation(e));
        },
    }
    let n = match reg_bound(&lf) {
        Some(n) => n,
        None => {
            proof {
                assert(lowered(f0, lf));
            }
            return Err(CompileError::TooLarge);
        },
    };
    let a = allocate(&lf, n);
    proof {
        lemma_emittable(lf, n, a);
    }
    let code = generate_function(&lf, &a);
    proof {
        assert(lowered(f0, lf) && valid_allocation(lf.blocks@, lf.params@, n, a));
    }
    Ok(code)
}

/// Determinism: once a function is lowered, its allocation and so its code
/// are decided; two valid allocations give byte-for-byte the same code.
pub proof fn lemma_code_deterministic(lf: LowFunction, n: usize, a1: Allocation, a2: Allocation)
    requires
        valid_allocation(lf.blocks@, lf.params@, n, a1),
        valid_allocation(lf.blocks@, lf.params@, n, a2),
    ensures
        function_code(lf, a1) == function_code(lf, a2),
{
    lemma_allocation_unique(lf.blocks@, lf.params@, n, a1, a2);
}

/// The program's code: the entry stub, then each function's label and code.
pub open spec fn program_code(program: Seq<FunctionAst>, codes: Seq<Seq<Asm>>, k: int) -> Seq<Asm>
    decreases k,
{
    if k <= 0 || k > program.len() {
        seq![Asm::EntryStub]
    } else {
        program_code(program, codes, k - 1) + seq![Asm::FunctionLabel(program[k - 1].name)] + codes[k - 1]
    }
}

/// Compiles each function of `program` in order, after the entry stub; the
/// first function that fails decides the error.
pub fn compile(program: Vec<FunctionAst>) -> (r: Result<Vec<Asm>, CompileError>)
    ensures
        r matches Ok(out) ==> exists|codes: Seq<Seq<Asm>>|
            codes.len() == program@.len() && (forall|i: int|
                0 <= i < program@.len() ==> compiles_to(#[trigger] program@[i], codes[i])) && out@
                == program_code(program@, codes, program@.len() as int),
        r matches Err(e) ==> exists|i: int|
            0 <= i < program@.len() && fails_with(#[trigger] program@[i], e) && forall|j: int|
                0 <= j < i ==> compiles(#[trigger] program@[j]),
{
    let ghost p = program@;
    let n = program.len();
    let mut rest = crate::lowering::reversed(program);
    let mut out: Vec<Asm> = Vec::new();
    out.push(Asm::EntryStub);
    let ghost mut codes: Seq<Seq<Asm>> = seq![];
    proof {
        assert(out@ =~= program_code(p, codes, 0));
    }
    while rest.len() > 0
        invariant
            p == program@,
            p.len() == n,
            codes.len() + rest@.len() == n,
            forall|k: int| 0 <= k < rest@.len() ==> rest@[k] == p[n - 1 - k],
            forall|i: int| 0 <= i < codes.len() ==> compiles_to(#[trigger] p[i], codes[i]),
            out@ == program_code(p, codes, codes.len() as int),
        decreases rest@.len(),
    {
        let ghost i = codes.len() as int;
        let f = rest.pop().unwrap();
        proof {
            assert(f == p[i]);
        }
        let name = f.name.clone();
        match compile_function(f) {
            Ok(code) => {
                let ghost before = out@;
                let ghost cv = code@;
                out.push(Asm::FunctionLabel(name));
                let mut code = code;
                out.append(&mut code);
                assert(out@ =~= before + seq![Asm::FunctionLabel(name)] + cv);
                proof {
                    let old_codes = codes;
                    codes = codes.push(cv);
                    assert forall|j: int| 0 <= j < old_codes.len() implies codes[j] == old_codes[j] by {}
                    assert(program_code(p, codes, i) == program_code(p, old_codes, i)) by {
                        lemma_program_code_prefix(p, old_codes, codes, i);
                    }
                }
            },
            Err(e) => {
                proof {
                    assert(fails_with(p[i], e));
                    assert forall|j: int| 0 <= j < i implies compiles(#[trigger] program@[j]) by {
                        assert(compiles_to(p[j], codes[j]));
                    }
                    assert(0 <= i < program@.len() && fails_with(program@[i], e));
                }
                return Err(e);
            },
        }
    }
    Ok(out)
}

proof fn lemma_program_code_prefix(p: Seq<FunctionAst>, c1: Seq<Seq<Asm>>, c2: Seq<Seq<Asm>>, k: int)
    requires
        0 <= k <= c1.len(),
        k <= c2.len(),
        forall|j: int| 0 <= j < k ==> c1[j] == c2[j],
    ensures
        program_code(p, c1, k) == program_code(p, c2, k),
    decreases k,
{
    if k > 0 {
        lemma_program_code_prefix(p, c1, c2, k - 1);
    }
}

} // verus!
