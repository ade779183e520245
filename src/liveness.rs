use vstd::prelude::*;
use crate::lowering::{Block, Inst, LowFunction, Operand, Terminator};

verus! {

pub open spec fn inst_reads(i: Inst, r: usize) -> bool {
    match i {
        Inst::Binary { lhs, rhs, .. } => lhs == Operand::Reg(r) || rhs == Operand::Reg(r),
        Inst::CompareLe { lhs, rhs, .. } => lhs == Operand::Reg(r) || rhs == Operand::Reg(r),
        Inst::Call { args, .. } => args@.contains(Operand::Reg(r)),
    }
}

pub open spec fn inst_writes(i: Inst, r: usize) -> bool {
    match i {
        Inst::Binary { dest, .. } => dest == r,
        Inst::CompareLe { dest, .. } => dest == r,
        Inst::Call { dest, .. } => dest == Some(r),
    }
}

pub open spec fn term_reads(t: Terminator, r: usize) -> bool {
    match t {
        Terminator::Branch { cond, .. } => cond == r,
        Terminator::Return(Some(o)) => o == Operand::Reg(r),
        _ => false,
    }
}

/// `r` is assigned somewhere in the block.
pub open spec fn defines(b: Block, r: usize) -> bool {
    exists|j: int| 0 <= j < b.insts@.len() && inst_writes(#[trigger] b.insts@[j], r)
}

/// `r` is read in the block before any assignment to it there.
pub open spec fn exposed(b: Block, r: usize) -> bool {
    ||| exists|k: int|
        0 <= k < b.insts@.len() && inst_reads(#[trigger] b.insts@[k], r) && forall|j: int|
            0 <= j < k ==> !inst_writes(#[trigger] b.insts@[j], r)
    ||| term_reads(b.term, r) && !defines(b, r)
}

/// Block `s` is a successor of the block that `t` ends.
pub open spec fn succ(t: Terminator, s: int) -> bool {
    match t {
        Terminator::Jump { target, .. } => target == s,
        Terminator::Branch { then_target, else_target, .. } => then_target == s || else_target == s,
        _ => false,
    }
}

/// Live-out of block `b`, given the live-in flags `live` of each block.
pub open spec fn live_out(blocks: Seq<Block>, live: Seq<bool>, b: int) -> bool {
    exists|s: int| 0 <= s < blocks.len() && succ(blocks[b].term, s) && #[trigger] live[s]
}

/// `live` gives, for each block, whether `r` is live into it, and satisfies the
/// dataflow equations `in(B) = uses(B) ∪ (out(B) − defs(B))`, `out(B) = ∪ in(S)`.
pub open spec fn solves(blocks: Seq<Block>, r: usize, live: Seq<bool>) -> bool {
    &&& live.len() == blocks.len()
    &&& forall|b: int|
        0 <= b < blocks.len() ==> (#[trigger] live[b] <==> (exposed(blocks[b], r) || (!defines(
            blocks[b],
            r,
        ) && live_out(blocks, live, b))))
}

fn operand_is(o: &Operand, r: usize) -> (res: bool)
    ensures
        res == (*o == Operand::Reg(r)),
{
    match o {
        Operand::Reg(x) => *x == r,
        Operand::Imm(_) => false,
    }
}

pub(crate) fn reads_inst(i: &Inst, r: usize) -> (res: bool)
    ensures
        res == inst_reads(*i, r),
{
    match i {
        Inst::Binary { lhs, rhs, .. } => operand_is(lhs, r) || operand_is(rhs, r),
        Inst::CompareLe { lhs, rhs, .. } => operand_is(lhs, r) || operand_is(rhs, r),
        Inst::Call { args, .. } => {
            let mut k: usize = 0;
            while k < args.len()
                invariant
                    inst_reads(*i, r) == args@.contains(Operand::Reg(r)),
                    k <= args@.len(),
                    forall|j: int| 0 <= j < k ==> args@[j] != Operand::Reg(r),
                decreases args@.len() - k,
            {
                if operand_is(&args[k], r) {
                    assert(args@[k as int] == Operand::Reg(r));
                    assert(args@.contains(Operand::Reg(r)));
                    return true;
                }
                k += 1;
            }
            assert(!args@.contains(Operand::Reg(r)));
            false
        },
    }
}

pub(crate) fn writes_inst(i: &Inst, r: usize) -> (res: bool)
    ensures
        res == inst_writes(*i, r),
{
    match i {
        Inst::Binary { dest, .. } => *dest == r,
        Inst::CompareLe { dest, .. } => *dest == r,
        Inst::Call { dest, .. } => match dest {
            Some(d) => *d == r,
            None => false,
        },
    }
}

pub(crate) fn term_uses_reg(t: &Terminator, r: usize) -> (res: bool)
    ensures
        res == term_reads(*t, r),
{
    match t {
        Terminator::Branch { cond, .. } => *cond == r,
        Terminator::Return(Some(o)) => operand_is(o, r),
        _ => false,
    }
}

/// Whether `r` is read before assigned in `b`, and whether `b` assigns it.
fn exposed_and_defined(b: &Block, r: usize) -> (res: (bool, bool))
    ensures
        res.0 == exposed(*b, r),
        res.1 == defines(*b, r),
{
    let mut k: usize = 0;
    let mut exp = false;
    while k < b.insts.len()
        invariant
            k <= b.insts@.len(),
            forall|j: int| 0 <= j < k ==> !inst_writes(#[trigger] b.insts@[j], r),
            exp == exists|m: int|
                0 <= m < k && inst_reads(#[trigger] b.insts@[m], r) && forall|j: int|
                    0 <= j < m ==> !inst_writes(#[trigger] b.insts@[j], r),
        decreases b.insts@.len() - k,
    {
        if !exp && reads_inst(&b.insts[k], r) {
            exp = true;
        }
        if writes_inst(&b.insts[k], r) {
            proof {
                assert(inst_writes(b.insts@[k as int], r));
                assert forall|m: int|
                    0 <= m < b.insts@.len() && inst_reads(#[trigger] b.insts@[m], r) && forall|j: int|
                        0 <= j < m ==> !inst_writes(#[trigger] b.insts@[j], r) implies m <= k by {
                    if m > k {
                        assert(!inst_writes(b.insts@[k as int], r));
                    }
                }
            }
            return (exp, true);
        }
        k += 1;
    }
    let t = term_uses_reg(&b.term, r);
    (exp || t, false)
}

/// `path` is a walk along the control-flow graph whose last block reads `r`
/// before assigning it and whose other blocks do not assign it.
pub open spec fn path_to_use(blocks: Seq<Block>, r: usize, path: Seq<int>) -> bool {
    &&& path.len() >= 1
    &&& forall|i: int| 0 <= i < path.len() ==> 0 <= #[trigger] path[i] < blocks.len()
    &&& forall|i: int|
        0 <= i < path.len() - 1 ==> succ(blocks[#[trigger] path[i]].term, path[i + 1]) && !defines(
            blocks[path[i]],
            r,
        )
    &&& exposed(blocks[path.last()], r)
}

/// `r` is live into block `b`: some path from `b` reads it before assigning it.
pub open spec fn is_live_in(blocks: Seq<Block>, r: usize, b: int) -> bool {
    exists|path: Seq<int>| #[trigger] path_to_use(blocks, r, path) && path[0] == b
}

proof fn lemma_path_extend(blocks: Seq<Block>, r: usize, c: int, path: Seq<int>)
    requires
        path_to_use(blocks, r, path),
        0 <= c < blocks.len(),
        succ(blocks[c].term, path[0]),
        !defines(blocks[c], r),
    ensures
        path_to_use(blocks, r, seq![c] + path),
        (seq![c] + path)[0] == c,
{
    let q = seq![c] + path;
    assert forall|i: int| 0 <= i < q.len() - 1 implies succ(blocks[#[trigger] q[i]].term, q[i + 1])
        && !defines(blocks[q[i]], r) by {
        if i > 0 {
            assert(q[i] == path[i - 1] && q[i + 1] == path[i]);
        }
    }
    assert(q.last() == path.last());
}

/// A solution of the dataflow equations holds every register that a path reads.
proof fn lemma_solution_covers(blocks: Seq<Block>, r: usize, live: Seq<bool>, path: Seq<int>)
    requires
        solves(blocks, r, live),
        path_to_use(blocks, r, path),
    ensures
        live[path[0]],
    decreases path.len(),
{
    let b = path[0];
    assert(0 <= path[0] < blocks.len());
    if path.len() > 1 {
        let rest = path.drop_first();
        assert forall|i: int| 0 <= i < rest.len() - 1 implies succ(
            blocks[#[trigger] rest[i]].term,
            rest[i + 1],
        ) && !defines(blocks[rest[i]], r) by {
            assert(rest[i] == path[i + 1] && rest[i + 1] == path[i + 2]);
        }
        assert(rest.last() == path.last());
        assert(forall|i: int| 0 <= i < rest.len() ==> #[trigger] rest[i] == path[i + 1]);
        lemma_solution_covers(blocks, r, live, rest);
        assert(succ(blocks[path[0]].term, path[1]) && !defines(blocks[path[0]], r));
        assert(live[rest[0]]);
        assert(live_out(blocks, live, b));
    }
}

/// The number of blocks that `live` marks as not live.
pub open spec fn falses(live: Seq<bool>) -> nat
    decreases live.len(),
{
    if live.len() == 0 {
        0
    } else {
        falses(live.drop_last()) + if live.last() {
            0nat
        } else {
            1nat
        }
    }
}

proof fn lemma_falses_set(live: Seq<bool>, i: int)
    requires
        0 <= i < live.len(),
        !live[i],
    ensures
        falses(live.update(i, true)) + 1 == falses(live),
    decreases live.len(),
{
    let u = live.update(i, true);
    if i == live.len() - 1 {
        assert(u.drop_last() =~= live.drop_last());
    } else {
        assert(u.drop_last() =~= live.drop_last().update(i, true));
        lemma_falses_set(live.drop_last(), i);
    }
}

fn live_out_at(blocks: &Vec<Block>, live: &Vec<bool>, b: usize) -> (res: bool)
    requires
        live@.len() == blocks@.len(),
        b < blocks@.len(),
    ensures
        res == live_out(blocks@, live@, b as int),
{
    match &blocks[b].term {
        Terminator::Jump { target, .. } => *target < live.len() && live[*target],
        Terminator::Branch { then_target, else_target, .. } => (*then_target < live.len()
            && live[*then_target]) || (*else_target < live.len() && live[*else_target]),
        _ => false,
    }
}

/// Liveness of one virtual register over the blocks of a function.
#[derive(Debug)]
pub struct RegLiveness {
    pub reg: usize,
    /// For each block, whether the register is live into it.
    pub live_in: Vec<bool>,
    /// For each block, whether the register is live out of it.
    pub live_out: Vec<bool>,
}

/// Computes where `r` is live in `f`, by iterating the dataflow equations
/// from the blocks that read `r` before assigning it until nothing changes.
pub fn analyze_register(f: &LowFunction, r: usize) -> (res: RegLiveness)
    ensures
        res.reg == r,
        solves(f.blocks@, r, res.live_in@),
        forall|b: int| 0 <= b < f.blocks@.len() ==> #[trigger] res.live_in@[b] == is_live_in(f.blocks@, r, b),
        res.live_out@.len() == f.blocks@.len(),
        forall|b: int|
            0 <= b < f.blocks@.len() ==> #[trigger] res.live_out@[b] == live_out(
                f.blocks@,
                res.live_in@,
                b,
            ),
{
    let blocks = &f.blocks;
    let n = blocks.len();
    let mut live: Vec<bool> = Vec::new();
    let mut defs: Vec<bool> = Vec::new();
    let mut b: usize = 0;
    while b < n
        invariant
            n == blocks@.len(),
            b <= n,
            live@.len() == b,
            defs@.len() == b,
            forall|c: int| 0 <= c < b ==> #[trigger] live@[c] == exposed(blocks@[c], r),
            forall|c: int| 0 <= c < b ==> #[trigger] defs@[c] == defines(blocks@[c], r),
            forall|c: int| 0 <= c < b && #[trigger] live@[c] ==> is_live_in(blocks@, r, c),
        decreases n - b,
    {
        let (e, d) = exposed_and_defined(&blocks[b], r);
        proof {
            if e {
                assert(path_to_use(blocks@, r, seq![b as int]));
                assert(is_live_in(blocks@, r, b as int));
            }
        }
        live.push(e);
        defs.push(d);
        b += 1;
    }
    loop
        invariant
            n == blocks@.len(),
            live@.len() == n,
            defs@.len() == n,
            forall|c: int| 0 <= c < n ==> #[trigger] defs@[c] == defines(blocks@[c], r),
            forall|c: int| 0 <= c < n && exposed(blocks@[c], r) ==> #[trigger] live@[c],
            forall|c: int|
                0 <= c < n && #[trigger] live@[c] ==> exposed(blocks@[c], r) || (!defines(
                    blocks@[c],
                    r,
                ) && live_out(blocks@, live@, c)),
            forall|c: int| 0 <= c < n && #[trigger] live@[c] ==> is_live_in(blocks@, r, c),
        ensures
            live@.len() == n,
            solves(blocks@, r, live@),
        decreases falses(live@),
    {
        let ghost start = live@;
        let mut changed = false;
        let mut c: usize = 0;
        while c < n
            invariant
                n == blocks@.len(),
                c <= n,
                live@.len() == n,
                defs@.len() == n,
                forall|k: int| 0 <= k < n ==> #[trigger] defs@[k] == defines(blocks@[k], r),
                forall|k: int| 0 <= k < n ==> start[k] ==> #[trigger] live@[k],
                forall|k: int| 0 <= k < n && exposed(blocks@[k], r) ==> #[trigger] live@[k],
                forall|k: int|
                    0 <= k < n && #[trigger] live@[k] ==> exposed(blocks@[k], r) || (!defines(
                        blocks@[k],
                        r,
                    ) && live_out(blocks@, live@, k)),
                forall|k: int| 0 <= k < n && #[trigger] live@[k] ==> is_live_in(blocks@, r, k),
                changed ==> falses(live@) < falses(start),
                !changed ==> live@ == start,
                !changed ==> forall|k: int|
                    0 <= k < c ==> #[trigger] live@[k] || defs@[k] || !live_out(blocks@, live@, k),
            decreases n - c,
        {
            if !live[c] && !defs[c] && live_out_at(blocks, &live, c) {
                let ghost before = live@;
                proof {
                    let s = choose|s: int|
                        0 <= s < blocks@.len() && succ(blocks@[c as int].term, s) && #[trigger] before[s];
                    let path = choose|path: Seq<int>| #[trigger] path_to_use(blocks@, r, path) && path[0] == s;
                    lemma_path_extend(blocks@, r, c as int, path);
                    assert(is_live_in(blocks@, r, c as int));
                }
                live.set(c, true);
                proof {
                    lemma_falses_set(before, c as int);
                    assert forall|k: int| 0 <= k < n && live_out(blocks@, before, k) implies live_out(
                        blocks@,
                        live@,
                        k,
                    ) by {
                        let s = choose|s: int|
                            0 <= s < blocks@.len() && succ(blocks@[k].term, s) && #[trigger] before[s];
                        assert(live@[s]);
                    }
                }
                changed = true;
            }
            c += 1;
        }
        if !changed {
            break;
        }
    }
    proof {
        assert forall|b: int| 0 <= b < n && is_live_in(blocks@, r, b) implies #[trigger] live@[b] by {
            let path = choose|path: Seq<int>| #[trigger] path_to_use(blocks@, r, path) && path[0] == b;
            lemma_solution_covers(blocks@, r, live@, path);
        }
    }
    let mut outs: Vec<bool> = Vec::new();
    let mut b: usize = 0;
    while b < n
        invariant
            n == blocks@.len(),
            live@.len() == n,
            b <= n,
            outs@.len() == b,
            forall|c: int| 0 <= c < b ==> #[trigger] outs@[c] == live_out(blocks@, live@, c),
        decreases n - b,
    {
        let o = live_out_at(blocks, &live, b);
        outs.push(o);
        b += 1;
    }
    RegLiveness { reg: r, live_in: live, live_out: outs }
}

#[derive(Debug)]
pub enum AllocationError {
    UseBeforeDef { function: String, register: usize },
}

/// `x` is a parameter of `f`, or is not live into its entry block.
pub open spec fn defined_at_entry(f: LowFunction, x: usize) -> bool {
    f.params@.contains(x) || f.blocks@.len() == 0 || !is_live_in(f.blocks@, x, 0)
}

pub open spec fn use_before_def(f: LowFunction, e: AllocationError) -> bool {
    match e {
        AllocationError::UseBeforeDef { function, register } => function@ == f.name@
            && !defined_at_entry(f, register),
    }
}

pub open spec fn block_reads(b: Block, x: usize) -> bool {
    (exists|k: int| 0 <= k < b.insts@.len() && inst_reads(#[trigger] b.insts@[k], x)) || term_reads(
        b.term,
        x,
    )
}

proof fn lemma_live_is_read(blocks: Seq<Block>, x: usize, b: int)
    requires
        is_live_in(blocks, x, b),
    ensures
        exists|c: int| 0 <= c < blocks.len() && block_reads(#[trigger] blocks[c], x),
{
    let path = choose|path: Seq<int>| #[trigger] path_to_use(blocks, x, path) && path[0] == b;
    let c = path.last();
    assert(0 <= path[path.len() - 1] < blocks.len());
    assert(exposed(blocks[c], x));
    assert(block_reads(blocks[c], x));
}

pub(crate) fn is_param(f: &LowFunction, x: usize) -> (res: bool)
    ensures
        res == f.params@.contains(x),
{
    let mut i: usize = 0;
    while i < f.params.len()
        invariant
            i <= f.params@.len(),
            forall|j: int| 0 <= j < i ==> f.params@[j] != x,
        decreases f.params@.len() - i,
    {
        if f.params[i] == x {
            assert(f.params@[i as int] == x);
            return true;
        }
        i += 1;
    }
    false
}

fn check_operand(f: &LowFunction, o: &Operand) -> (res: Result<(), AllocationError>)
    ensures
        match res {
            Ok(()) => forall|x: usize| *o == Operand::Reg(x) ==> defined_at_entry(*f, x),
            Err(e) => use_before_def(*f, e),
        },
{
    match o {
        Operand::Imm(_) => Ok(()),
        Operand::Reg(x) => {
            let x = *x;
            let info = analyze_register(f, x);
            if f.blocks.len() > 0 && info.live_in[0] && !is_param(f, x) {
                Err(AllocationError::UseBeforeDef { function: f.name.clone(), register: x })
            } else {
                Ok(())
            }
        },
    }
}

fn check_inst(f: &LowFunction, i: &Inst) -> (res: Result<(), AllocationError>)
    ensures
        match res {
            Ok(()) => forall|x: usize| inst_reads(*i, x) ==> defined_at_entry(*f, x),
            Err(e) => use_before_def(*f, e),
        },
{
    match i {
        Inst::Binary { lhs, rhs, .. } => {
            check_operand(f, lhs)?;
            check_operand(f, rhs)
        },
        Inst::CompareLe { lhs, rhs, .. } => {
            check_operand(f, lhs)?;
            check_operand(f, rhs)
        },
        Inst::Call { args, .. } => {
            let mut k: usize = 0;
            while k < args.len()
                invariant
                    forall|x: usize| inst_reads(*i, x) <==> args@.contains(Operand::Reg(x)),
                    k <= args@.len(),
                    forall|j: int|
                        0 <= j < k ==> match #[trigger] args@[j] {
                            Operand::Reg(x) => defined_at_entry(*f, x),
                            Operand::Imm(_) => true,
                        },
                decreases args@.len() - k,
            {
                check_operand(f, &args[k])?;
                k += 1;
            }
            Ok(())
        },
    }
}

/// Checks that no register of `f` is read, on some path from the entry
/// block, before it is assigned, parameters aside.
pub fn check_defined(f: &LowFunction) -> (res: Result<(), AllocationError>)
    ensures
        (res is Ok) <==> forall|x: usize| defined_at_entry(*f, x),
        res matches Err(e) ==> use_before_def(*f, e),
{
    let mut b: usize = 0;
    while b < f.blocks.len()
        invariant
            b <= f.blocks@.len(),
            forall|c: int, x: usize|
                0 <= c < b && #[trigger] block_reads(f.blocks@[c], x) ==> defined_at_entry(*f, x),
        decreases f.blocks@.len() - b,
    {
        let block = &f.blocks[b];
        let mut k: usize = 0;
        while k < block.insts.len()
            invariant
                b < f.blocks@.len(),
                *block == f.blocks@[b as int],
                k <= block.insts@.len(),
                forall|j: int, x: usize|
                    0 <= j < k && #[trigger] inst_reads(block.insts@[j], x) ==> defined_at_entry(*f, x),
            decreases block.insts@.len() - k,
        {
            match check_inst(f, &block.insts[k]) {
                Ok(()) => {},
                Err(e) => {
                    return Err(e);
                },
            }
            k += 1;
        }
        match &block.term {
            Terminator::Branch { cond, .. } => {
                let o = Operand::Reg(*cond);
                match check_operand(f, &o) {
                    Ok(()) => {},
                    Err(e) => {
                        return Err(e);
                    },
                }
            },
            Terminator::Return(Some(o)) => match check_operand(f, o) {
                Ok(()) => {},
                Err(e) => {
                    return Err(e);
                },
            },
            _ => {},
        }
        b += 1;
    }
    proof {
        assert forall|x: usize| defined_at_entry(*f, x) by {
            if !f.params@.contains(x) && f.blocks@.len() > 0 && is_live_in(f.blocks@, x, 0) {
                lemma_live_is_read(f.blocks@, x, 0);
            }
        }
    }
    Ok(())
}

/// `walk` follows edges of the control-flow graph.
pub open spec fn is_walk(blocks: Seq<Block>, walk: Seq<int>) -> bool {
    &&& walk.len() >= 1
    &&& forall|i: int| 0 <= i < walk.len() ==> 0 <= #[trigger] walk[i] < blocks.len()
    &&& forall|i: int| 0 <= i < walk.len() - 1 ==> succ(blocks[#[trigger] walk[i]].term, walk[i + 1])
}

/// Liveness soundness: in a function that passes `check_defined`, a register
/// that is live into a block and is not a parameter is assigned on every walk
/// from the entry block to that block, before the walk arrives there. So no
/// register but a parameter is live into the entry block.
pub proof fn lemma_live_in_is_defined_before(f: LowFunction, x: usize, walk: Seq<int>)
    requires
        forall|y: usize| defined_at_entry(f, y),
        is_walk(f.blocks@, walk),
        walk[0] == 0,
        is_live_in(f.blocks@, x, walk.last()),
        !f.params@.contains(x),
    ensures
        exists|i: int| 0 <= i < walk.len() - 1 && defines(f.blocks@[#[trigger] walk[i]], x),
{
    let blocks = f.blocks@;
    if !exists|i: int| 0 <= i < walk.len() - 1 && defines(blocks[#[trigger] walk[i]], x) {
        let p = choose|p: Seq<int>| #[trigger] path_to_use(blocks, x, p) && p[0] == walk.last();
        let w = walk.drop_last();
        let q = w + p;
        assert forall|i: int| 0 <= i < q.len() implies 0 <= #[trigger] q[i] < blocks.len() by {
            if i < w.len() {
                assert(q[i] == walk[i]);
            } else {
                assert(q[i] == p[i - w.len()]);
            }
        }
        assert forall|i: int| 0 <= i < q.len() - 1 implies succ(blocks[#[trigger] q[i]].term, q[i + 1])
            && !defines(blocks[q[i]], x) by {
            if i < w.len() {
                assert(q[i] == walk[i]);
                if i + 1 < w.len() {
                    assert(q[i + 1] == walk[i + 1]);
                } else {
                    assert(q[i + 1] == p[0]);
                }
            } else {
                assert(q[i] == p[i - w.len()]);
                assert(q[i + 1] == p[i + 1 - w.len()]);
            }
        }
        assert(q.last() == p.last());
        assert(path_to_use(blocks, x, q));
        if w.len() > 0 {
            assert(q[0] == walk[0]);
        } else {
            assert(q[0] == p[0]);
        }
        assert(is_live_in(blocks, x, 0));
        assert(defined_at_entry(f, x));
    }
}

} // verus!
