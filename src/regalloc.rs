use vstd::prelude::*;
use vstd::set_lib::{lemma_int_range, lemma_len_subset, lemma_map_size, set_int_range};
use crate::liveness::{analyze_register, inst_reads, inst_writes, is_live_in, succ, term_reads};
use crate::lowering::{Block, Inst, LowFunction, Operand, Terminator};

verus! {

/// Physical registers that can be allocated are numbered from 0; those below
/// `CALLEE_SAVED` are callee-saved, the others caller-saved. The argument
/// registers are kept for parameters and are not among them.
pub const NUM_PHYS: usize = 6;

pub const CALLEE_SAVED: usize = 5;

/// Where a virtual register lives: a physical register, a stack slot, or,
/// for parameter `i` of the function, where the calling convention passes
/// it: argument register `i`, or past the register count, the caller's
/// stack argument slot `i - ARG_REGS`.
#[derive(Debug, Clone, Copy, PartialEq, Eq, Structural)]
pub enum Location {
    Reg(usize),
    Spill(usize),
    Arg(usize),
}

/// `i` is the first place of `r` among the parameters.
pub open spec fn first_param(params: Seq<usize>, r: usize, i: int) -> bool {
    0 <= i < params.len() && params[i] == r && forall|j: int| 0 <= j < i ==> params[j] != r
}

fn param_index(f: &LowFunction, r: usize) -> (res: Option<usize>)
    ensures
        match res {
            Some(i) => first_param(f.params@, r, i as int),
            None => !f.params@.contains(r),
        },
{
    let mut i: usize = 0;
    while i < f.params.len()
        invariant
            i <= f.params@.len(),
            forall|j: int| 0 <= j < i ==> f.params@[j] != r,
        decreases f.params@.len() - i,
    {
        if f.params[i] == r {
            return Some(i);
        }
        i += 1;
    }
    None
}

#[derive(Debug)]
pub struct Allocation {
    /// The location of each virtual register, by index.
    pub locs: Vec<Location>,
    /// How many stack slots the function's frame holds.
    pub spill_slots: usize,
}

/// `r` is read or assigned in block `b`.
pub open spec fn mentions(b: Block, r: usize) -> bool {
    ||| exists|k: int|
        0 <= k < b.insts@.len() && (inst_reads(#[trigger] b.insts@[k], r) || inst_writes(
            b.insts@[k],
            r,
        ))
    ||| term_reads(b.term, r)
}

pub open spec fn is_live_out(blocks: Seq<Block>, r: usize, b: int) -> bool {
    exists|s: int| 0 <= s < blocks.len() && succ(blocks[b].term, s) && #[trigger] is_live_in(blocks, r, s)
}

/// `r` holds a value somewhere in block `b`: it is live into or out of it,
/// the block reads or assigns it, or it is a parameter and `b` the entry block.
pub open spec fn occupies(blocks: Seq<Block>, params: Seq<usize>, r: usize, b: int) -> bool {
    is_live_in(blocks, r, b) || is_live_out(blocks, r, b) || mentions(blocks[b], r) || (b == 0
        && params.contains(r))
}

/// Two registers that hold values in a common block may be live at once.
pub open spec fn interfere(blocks: Seq<Block>, params: Seq<usize>, r1: usize, r2: usize) -> bool {
    exists|b: int| 0 <= b < blocks.len() && #[trigger] occupies(blocks, params, r1, b) && occupies(blocks, params, r2, b)
}

pub open spec fn has_call(b: Block) -> bool {
    exists|k: int| 0 <= k < b.insts@.len() && (#[trigger] b.insts@[k] is Call)
}

/// `r` holds a value in a block that makes a call, so it may be live across it.
pub open spec fn spans_call(blocks: Seq<Block>, params: Seq<usize>, r: usize) -> bool {
    exists|b: int| 0 <= b < blocks.len() && #[trigger] occupies(blocks, params, r, b) && has_call(blocks[b])
}

fn mentions_exec(b: &Block, r: usize) -> (res: bool)
    ensures
        res == mentions(*b, r),
{
    let mut k: usize = 0;
    while k < b.insts.len()
        invariant
            k <= b.insts@.len(),
            forall|j: int| 0 <= j < k ==> !inst_reads(#[trigger] b.insts@[j], r) && !inst_writes(b.insts@[j], r),
        decreases b.insts@.len() - k,
    {
        if crate::liveness::reads_inst(&b.insts[k], r) || crate::liveness::writes_inst(&b.insts[k], r) {
            return true;
        }
        k += 1;
    }
    crate::liveness::term_uses_reg(&b.term, r)
}

fn has_call_exec(b: &Block) -> (res: bool)
    ensures
        res == has_call(*b),
{
    let mut k: usize = 0;
    while k < b.insts.len()
        invariant
            k <= b.insts@.len(),
            forall|j: int| 0 <= j < k ==> !(#[trigger] b.insts@[j] is Call),
        decreases b.insts@.len() - k,
    {
        if let Inst::Call { .. } = &b.insts[k] {
            return true;
        }
        k += 1;
    }
    false
}

/// For register `r`, whether it occupies each block of `f`.
fn occupancy(f: &LowFunction, r: usize) -> (res: Vec<bool>)
    ensures
        res@.len() == f.blocks@.len(),
        forall|b: int| 0 <= b < f.blocks@.len() ==> #[trigger] res@[b] == occupies(f.blocks@, f.params@, r, b),
{
    let info = analyze_register(f, r);
    let mut occ: Vec<bool> = Vec::new();
    let mut b: usize = 0;
    while b < f.blocks.len()
        invariant
            b <= f.blocks@.len(),
            occ@.len() == b,
            info.live_in@.len() == f.blocks@.len(),
            info.live_out@.len() == f.blocks@.len(),
            forall|c: int| 0 <= c < f.blocks@.len() ==> #[trigger] info.live_in@[c] == is_live_in(f.blocks@, r, c),
            forall|c: int|
                0 <= c < f.blocks@.len() ==> #[trigger] info.live_out@[c] == crate::liveness::live_out(
                    f.blocks@,
                    info.live_in@,
                    c,
                ),
            forall|c: int| 0 <= c < b ==> #[trigger] occ@[c] == occupies(f.blocks@, f.params@, r, c),
        decreases f.blocks@.len() - b,
    {
        proof {
            let bb = b as int;
            if crate::liveness::live_out(f.blocks@, info.live_in@, bb) {
                let s = choose|s: int|
                    0 <= s < f.blocks@.len() && succ(f.blocks@[bb].term, s) && #[trigger] info.live_in@[s];
                assert(is_live_out(f.blocks@, r, bb));
            }
            if is_live_out(f.blocks@, r, bb) {
                let s = choose|s: int|
                    0 <= s < f.blocks@.len() && succ(f.blocks@[bb].term, s) && #[trigger] is_live_in(f.blocks@, r, s);
                assert(info.live_in@[s]);
            }
        }
        let o = info.live_in[b] || info.live_out[b] || mentions_exec(&f.blocks[b], r) || (b == 0
            && crate::liveness::is_param(f, r));
        occ.push(o);
        b += 1;
    }
    occ
}

/// Some register before `r` that interferes with it sits in physical register `p`.
pub open spec fn taken(blocks: Seq<Block>, params: Seq<usize>, locs: Seq<Location>, r: int, p: usize) -> bool {
    exists|q: int| 0 <= q < r && interfere(blocks, params, q as usize, r as usize) && #[trigger] locs[q] == Location::Reg(p)
}

fn overlap(a: &Vec<bool>, b: &Vec<bool>) -> (res: bool)
    requires
        a@.len() == b@.len(),
    ensures
        res == exists|k: int| 0 <= k < a@.len() && #[trigger] a@[k] && b@[k],
{
    let mut k: usize = 0;
    while k < a.len()
        invariant
            a@.len() == b@.len(),
            k <= a@.len(),
            forall|j: int| 0 <= j < k ==> !(#[trigger] a@[j] && b@[j]),
        decreases a@.len() - k,
    {
        if a[k] && b[k] {
            return true;
        }
        k += 1;
    }
    false
}

/// The lowest physical register in `lo..hi` that no earlier interfering
/// register holds.
fn first_free(
    blocks: Ghost<Seq<Block>>,
    pars: Ghost<Seq<usize>>,
    occs: &Vec<Vec<bool>>,
    locs: &Vec<Location>,
    r: usize,
    lo: usize,
    hi: usize,
) -> (res: Option<usize>)
    requires
        r == locs@.len(),
        r < occs@.len(),
        forall|q: int, b: int|
            0 <= q < occs@.len() && 0 <= b < blocks@.len() ==> #[trigger] occs@[q]@[b] == occupies(
                blocks@,
                pars@,
                q as usize,
                b,
            ),
        forall|q: int| 0 <= q < occs@.len() ==> (#[trigger] occs@[q])@.len() == blocks@.len(),
    ensures
        match res {
            Some(p) => lo <= p < hi && !taken(blocks@, pars@, locs@, r as int, p) && forall|x: usize|
                lo <= x < p ==> taken(blocks@, pars@, locs@, r as int, x),
            None => forall|x: usize| lo <= x < hi ==> taken(blocks@, pars@, locs@, r as int, x),
        },
{
    let mut p = lo;
    while p < hi
        invariant
            lo <= p,
            r == locs@.len(),
            r < occs@.len(),
            forall|q: int, b: int|
                0 <= q < occs@.len() && 0 <= b < blocks@.len() ==> #[trigger] occs@[q]@[b] == occupies(
                    blocks@,
                    pars@,
                    q as usize,
                    b,
                ),
            forall|q: int| 0 <= q < occs@.len() ==> (#[trigger] occs@[q])@.len() == blocks@.len(),
            forall|x: usize| lo <= x < p ==> taken(blocks@, pars@, locs@, r as int, x),
        decreases hi - p,
    {
        let mut q: usize = 0;
        let mut busy = false;
        while q < r
            invariant
                r == locs@.len(),
                r < occs@.len(),
                q <= r,
                forall|a: int, b: int|
                    0 <= a < occs@.len() && 0 <= b < blocks@.len() ==> #[trigger] occs@[a]@[b]
                        == occupies(blocks@, pars@, a as usize, b),
                forall|a: int| 0 <= a < occs@.len() ==> (#[trigger] occs@[a])@.len() == blocks@.len(),
                busy ==> taken(blocks@, pars@, locs@, r as int, p),
                !busy ==> forall|a: int|
                    0 <= a < q ==> !(interfere(blocks@, pars@, a as usize, r as usize) && #[trigger] locs@[a]
                        == Location::Reg(p)),
            decreases r - q,
        {
            if locs[q] == Location::Reg(p) && overlap(&occs[q], &occs[r]) {
                proof {
                    let k = choose|k: int| 0 <= k < occs@[q as int]@.len() && #[trigger] occs@[q as int]@[k] && occs@[r as int]@[k];
                    assert(occupies(blocks@, pars@, q, k) && occupies(blocks@, pars@, r, k));
                    assert(interfere(blocks@, pars@, q, r));
                }
                busy = true;
            } else {
                proof {
                    if interfere(blocks@, pars@, q, r) {
                        let k = choose|k: int| 0 <= k < blocks@.len() && #[trigger] occupies(blocks@, pars@, q, k) && occupies(blocks@, pars@, r, k);
                        assert(occs@[q as int]@[k] && occs@[r as int]@[k]);
                    }
                }
            }
            q += 1;
        }
        if !busy {
            return Some(p);
        }
        p += 1;
    }
    None
}

/// The physical registers that `r` may take: callee-saved ones only when it
/// spans a call.
pub open spec fn allowed(blocks: Seq<Block>, params: Seq<usize>, r: usize, p: usize) -> bool {
    p < NUM_PHYS && (spans_call(blocks, params, r) ==> p < CALLEE_SAVED)
}

/// Place of physical register `p` in the order in which `r` tries them:
/// callee-saved ones only, from 0, when it spans a call; else the
/// caller-saved ones first, then the callee-saved ones.
pub open spec fn rank(blocks: Seq<Block>, params: Seq<usize>, r: usize, p: usize) -> int {
    if spans_call(blocks, params, r) || p >= CALLEE_SAVED {
        if spans_call(blocks, params, r) { p as int } else { p - CALLEE_SAVED }
    } else {
        p + (NUM_PHYS - CALLEE_SAVED)
    }
}

/// How many of `locs[..k]` are stack slots.
pub open spec fn spill_count(locs: Seq<Location>, k: int) -> nat
    decreases k,
{
    if k <= 0 || k > locs.len() {
        0
    } else {
        spill_count(locs, k - 1) + if locs[k - 1] is Spill {
            1nat
        } else {
            0nat
        }
    }
}

proof fn lemma_spill_count_push(locs: Seq<Location>, x: Location, k: int)
    requires
        0 <= k <= locs.len(),
    ensures
        spill_count(locs.push(x), k) == spill_count(locs, k),
    decreases k,
{
    if k > 0 {
        lemma_spill_count_push(locs, x, k - 1);
    }
}

/// What an allocation of virtual registers `0..nregs` of a function with
/// blocks `blocks` guarantees.
pub open spec fn valid_allocation(blocks: Seq<Block>, params: Seq<usize>, nregs: usize, a: Allocation) -> bool {
    &&& a.locs@.len() == nregs
    &&& a.spill_slots <= nregs
    &&& a.spill_slots == spill_count(a.locs@, nregs as int)
    &&& forall|r: int| 0 <= r < nregs && #[trigger] a.locs@[r] is Spill ==> a.locs@[r]->Spill_0 == spill_count(a.locs@, r)
    &&& forall|r1: int, r2: int|
        0 <= r1 < nregs && 0 <= r2 < nregs && r1 != r2 && interfere(blocks, params, r1 as usize, r2 as usize)
            && #[trigger] a.locs@[r1] is Reg ==> a.locs@[r1] != #[trigger] a.locs@[r2]
    &&& forall|r: int| 0 <= r < nregs ==> match #[trigger] a.locs@[r] {
        Location::Reg(p) => allowed(blocks, params, r as usize, p) && !params.contains(r as usize),
        Location::Spill(s) => s < a.spill_slots && !params.contains(r as usize),
        Location::Arg(i) => first_param(params, r as usize, i as int),
    }
    &&& forall|r: int| 0 <= r < nregs && params.contains(r as usize) ==> #[trigger] a.locs@[r] is Arg
    &&& forall|r1: int, r2: int|
        0 <= r1 < r2 < nregs && #[trigger] a.locs@[r1] is Spill && #[trigger] a.locs@[r2] is Spill
            ==> a.locs@[r1]->Spill_0 < a.locs@[r2]->Spill_0
    &&& forall|r: int| 0 <= r < nregs && #[trigger] a.locs@[r] is Spill ==> forall|p: usize|
        allowed(blocks, params, r as usize, p) ==> taken(blocks, params, a.locs@, r, p)
    &&& forall|r: int| 0 <= r < nregs && #[trigger] a.locs@[r] is Reg ==> forall|x: usize|
        allowed(blocks, params, r as usize, x) && rank(blocks, params, r as usize, x) < rank(
            blocks,
            params,
            r as usize,
            a.locs@[r]->Reg_0,
        ) ==> taken(blocks, params, a.locs@, r, x)
}

proof fn lemma_interfere_symmetric(blocks: Seq<Block>, params: Seq<usize>, r1: usize, r2: usize)
    requires
        interfere(blocks, params, r1, r2),
    ensures
        interfere(blocks, params, r2, r1),
{
    let b = choose|b: int| 0 <= b < blocks.len() && #[trigger] occupies(blocks, params, r1, b) && occupies(blocks, params, r2, b);
    assert(occupies(blocks, params, r2, b) && occupies(blocks, params, r1, b));
}

/// Assigns each parameter of `f` the place where the calling convention
/// passes it (`Location::Arg`), and each other virtual register of `0..nregs`
/// a physical register or a stack slot, in order of index: the lowest free register of its pool
/// (callee-saved if it spans a call; else caller-saved first), or else the
/// next stack slot, slots being numbered up from 0. Registers that hold values in a common
/// block never share a physical register.
pub fn allocate(f: &LowFunction, nregs: usize) -> (a: Allocation)
    ensures
        valid_allocation(f.blocks@, f.params@, nregs, a),
{
    let ghost blocks = f.blocks@;
    let ghost params = f.params@;
    let mut calls: Vec<bool> = Vec::new();
    let mut b: usize = 0;
    while b < f.blocks.len()
        invariant
            blocks == f.blocks@,
            b <= blocks.len(),
            calls@.len() == b,
            forall|c: int| 0 <= c < b ==> #[trigger] calls@[c] == has_call(blocks[c]),
        decreases blocks.len() - b,
    {
        calls.push(has_call_exec(&f.blocks[b]));
        b += 1;
    }
    let mut occs: Vec<Vec<bool>> = Vec::new();
    let mut r: usize = 0;
    while r < nregs
        invariant
            blocks == f.blocks@,
            params == f.params@,
            r <= nregs,
            occs@.len() == r,
            forall|q: int, c: int|
                0 <= q < r && 0 <= c < blocks.len() ==> #[trigger] occs@[q]@[c] == occupies(blocks, params, q as usize, c),
            forall|q: int| 0 <= q < r ==> (#[trigger] occs@[q])@.len() == blocks.len(),
        decreases nregs - r,
    {
        occs.push(occupancy(f, r));
        r += 1;
    }
    let mut locs: Vec<Location> = Vec::new();
    let mut slots: usize = 0;
    let mut r: usize = 0;
    while r < nregs
        invariant
            blocks == f.blocks@,
            params == f.params@,
            r <= nregs,
            occs@.len() == nregs,
            calls@.len() == blocks.len(),
            forall|c: int| 0 <= c < blocks.len() ==> #[trigger] calls@[c] == has_call(blocks[c]),
            forall|q: int, c: int|
                0 <= q < nregs && 0 <= c < blocks.len() ==> #[trigger] occs@[q]@[c] == occupies(blocks, params, q as usize, c),
            forall|q: int| 0 <= q < nregs ==> (#[trigger] occs@[q])@.len() == blocks.len(),
            slots <= r,
            valid_allocation(blocks, params, r, Allocation { locs, spill_slots: slots }),
        decreases nregs - r,
    {
        let ghost before = locs@;
        let spans = overlap(&occs[r], &calls);
        proof {
            if spans {
                let k = choose|k: int| 0 <= k < occs@[r as int]@.len() && #[trigger] occs@[r as int]@[k] && calls@[k];
                assert(occupies(blocks, params, r, k) && has_call(blocks[k]));
            }
            if spans_call(blocks, params, r) {
                let k = choose|k: int| 0 <= k < blocks.len() && #[trigger] occupies(blocks, params, r, k) && has_call(blocks[k]);
                assert(occs@[r as int]@[k] && calls@[k]);
            }
        }
        let pi = param_index(f, r);
        let choice = if pi.is_some() {
            None
        } else if spans {
            first_free(Ghost(blocks), Ghost(params), &occs, &locs, r, 0, CALLEE_SAVED)
        } else {
            match first_free(Ghost(blocks), Ghost(params), &occs, &locs, r, CALLEE_SAVED, NUM_PHYS) {
                Some(p) => Some(p),
                None => first_free(Ghost(blocks), Ghost(params), &occs, &locs, r, 0, CALLEE_SAVED),
            }
        };
        let loc = match pi {
            Some(i) => Location::Arg(i),
            None => match choice {
                Some(p) => Location::Reg(p),
                None => {
                    let s = slots;
                    slots += 1;
                    Location::Spill(s)
                },
            },
        };
        locs.push(loc);
        proof {
            lemma_spill_count_push(before, loc, r as int);
            assert forall|k: int| 0 <= k <= r implies spill_count(locs@, k) == spill_count(before, k) by {
                lemma_spill_count_push(before, loc, k);
            }
            assert(spill_count(locs@, r + 1) == spill_count(before, r as int) + if loc is Spill { 1nat } else { 0nat });
            assert forall|r1: int| 0 <= r1 < r + 1 && #[trigger] locs@[r1] is Spill implies locs@[r1]->Spill_0 == spill_count(locs@, r1) by {
                if r1 < r {
                    assert(before[r1] == locs@[r1]);
                }
            }
            assert forall|p: usize| taken(blocks, params, before, r as int, p) <==> taken(blocks, params, locs@, r as int, p) by {
                if taken(blocks, params, before, r as int, p) {
                    let q = choose|q: int| 0 <= q < r && interfere(blocks, params, q as usize, r as usize) && #[trigger] before[q] == Location::Reg(p);
                    assert(locs@[q] == Location::Reg(p));
                }
                if taken(blocks, params, locs@, r as int, p) {
                    let q = choose|q: int| 0 <= q < r && interfere(blocks, params, q as usize, r as usize) && #[trigger] locs@[q] == Location::Reg(p);
                    assert(before[q] == Location::Reg(p));
                }
            }
            assert forall|r1: int, r2: int|
                0 <= r1 < r + 1 && 0 <= r2 < r + 1 && r1 != r2 && interfere(blocks, params, r1 as usize, r2 as usize)
                    && #[trigger] locs@[r1] is Reg implies locs@[r1] != #[trigger] locs@[r2] by {
                if r2 == r {
                    if locs@[r1] == locs@[r2] {
                        assert(before[r1] == locs@[r1]);
                        assert(taken(blocks, params, before, r as int, locs@[r1]->Reg_0));
                    }
                } else if r1 == r {
                    if locs@[r1] == locs@[r2] {
                        lemma_interfere_symmetric(blocks, params, r1 as usize, r2 as usize);
                        assert(before[r2] == locs@[r2]);
                        assert(taken(blocks, params, before, r as int, locs@[r1]->Reg_0));
                    }
                } else {
                    assert(before[r1] == locs@[r1] && before[r2] == locs@[r2]);
                }
            }
            assert forall|r1: int| 0 <= r1 < r + 1 && #[trigger] locs@[r1] is Spill implies forall|p: usize|
                allowed(blocks, params, r1 as usize, p) ==> taken(blocks, params, locs@, r1, p) by {
                if r1 < r {
                    assert(before[r1] == locs@[r1]);
                    assert forall|p: usize| allowed(blocks, params, r1 as usize, p) implies taken(blocks, params, locs@, r1, p) by {
                        assert(taken(blocks, params, before, r1, p));
                        let q = choose|q: int| 0 <= q < r1 && interfere(blocks, params, q as usize, r1 as usize) && #[trigger] before[q] == Location::Reg(p);
                        assert(locs@[q] == Location::Reg(p));
                    }
                } else {
                    assert(pi is None);
                    assert(choice is None);
                    assert forall|p: usize| allowed(blocks, params, r1 as usize, p) implies taken(blocks, params, locs@, r1, p) by {
                        assert(taken(blocks, params, before, r as int, p));
                    }
                }
            }
            assert forall|r1: int| 0 <= r1 < r + 1 && #[trigger] locs@[r1] is Reg implies forall|x: usize|
                allowed(blocks, params, r1 as usize, x) && rank(blocks, params, r1 as usize, x) < rank(blocks, params, r1 as usize, locs@[r1]->Reg_0)
                    ==> taken(blocks, params, locs@, r1, x) by {
                let p = locs@[r1]->Reg_0;
                if r1 < r {
                    assert(before[r1] == locs@[r1]);
                    assert forall|x: usize| allowed(blocks, params, r1 as usize, x) && rank(blocks, params, r1 as usize, x) < rank(blocks, params, r1 as usize, p)
                        implies taken(blocks, params, locs@, r1, x) by {
                        assert(taken(blocks, params, before, r1, x));
                        let q = choose|q: int| 0 <= q < r1 && interfere(blocks, params, q as usize, r1 as usize) && #[trigger] before[q] == Location::Reg(x);
                        assert(locs@[q] == Location::Reg(x));
                    }
                } else {
                    assert forall|x: usize| allowed(blocks, params, r1 as usize, x) && rank(blocks, params, r1 as usize, x) < rank(blocks, params, r1 as usize, p)
                        implies taken(blocks, params, locs@, r1, x) by {
                        assert(taken(blocks, params, before, r as int, x));
                    }
                }
            }
            assert forall|r1: int| 0 <= r1 < r + 1 implies match #[trigger] locs@[r1] {
                Location::Reg(p) => allowed(blocks, params, r1 as usize, p) && !params.contains(r1 as usize),
                Location::Spill(s) => s < slots && !params.contains(r1 as usize),
                Location::Arg(i) => first_param(params, r1 as usize, i as int),
            } by {
                if r1 < r {
                    assert(before[r1] == locs@[r1]);
                }
            }
            assert forall|r1: int| 0 <= r1 < r + 1 && params.contains(r1 as usize) implies #[trigger] locs@[r1] is Arg by {
                if r1 < r {
                    assert(before[r1] == locs@[r1]);
                }
            }
            assert forall|r1: int, r2: int|
                0 <= r1 < r2 < r + 1 && #[trigger] locs@[r1] is Spill && #[trigger] locs@[r2] is Spill
                    implies locs@[r1]->Spill_0 < locs@[r2]->Spill_0 by {
                assert(before[r1] == locs@[r1]);
                if r2 < r {
                    assert(before[r2] == locs@[r2]);
                }
            }
        }
        r += 1;
    }
    Allocation { locs, spill_slots: slots }
}

/// Allocation safety: two distinct virtual registers that both hold values
/// in some block never share a physical register.
pub proof fn lemma_allocation_safety(
    blocks: Seq<Block>,
    params: Seq<usize>,
    nregs: usize,
    a: Allocation,
    r1: usize,
    r2: usize,
    b: int,
)
    requires
        valid_allocation(blocks, params, nregs, a),
        r1 < nregs,
        r2 < nregs,
        r1 != r2,
        0 <= b < blocks.len(),
        occupies(blocks, params, r1, b),
        occupies(blocks, params, r2, b),
    ensures
        a.locs@[r1 as int] is Reg ==> a.locs@[r1 as int] != a.locs@[r2 as int],
{
    assert(interfere(blocks, params, r1, r2));
}

/// Call safety: a virtual register that holds a value in a block making a
/// call is in a callee-saved register or on the stack, or is a parameter in
/// its argument register, which every call saves and restores around itself.
pub proof fn lemma_call_safety(blocks: Seq<Block>, params: Seq<usize>, nregs: usize, a: Allocation, r: usize, b: int)
    requires
        valid_allocation(blocks, params, nregs, a),
        r < nregs,
        0 <= b < blocks.len(),
        occupies(blocks, params, r, b),
        has_call(blocks[b]),
    ensures
        match a.locs@[r as int] {
            Location::Reg(p) => p < CALLEE_SAVED,
            Location::Spill(_) => true,
            Location::Arg(_) => params.contains(r),
        },
{
    assert(spans_call(blocks, params, r));
    let l = a.locs@[r as int];
    assert(match l {
        Location::Reg(p) => allowed(blocks, params, r, p) && !params.contains(r),
        Location::Spill(s) => s < a.spill_slots && !params.contains(r),
        Location::Arg(i) => crate::regalloc::first_param(params, r, i as int),
    });
}

/// Spilling: when more virtual registers than there are physical registers,
/// none a parameter, all interfere with one another, at least one of them
/// gets a stack slot.
pub proof fn lemma_spill_forced(
    blocks: Seq<Block>,
    params: Seq<usize>,
    nregs: usize,
    a: Allocation,
    regs: Seq<usize>,
)
    requires
        valid_allocation(blocks, params, nregs, a),
        regs.len() > NUM_PHYS,
        forall|i: int| 0 <= i < regs.len() ==> #[trigger] regs[i] < nregs && !params.contains(regs[i]),
        forall|i: int, j: int|
            0 <= i < regs.len() && 0 <= j < regs.len() && i != j ==> #[trigger] regs[i] != #[trigger] regs[j]
                && interfere(blocks, params, regs[i], regs[j]),
    ensures
        exists|i: int| 0 <= i < regs.len() && (#[trigger] a.locs@[regs[i] as int]) is Spill,
{
    if forall|i: int| 0 <= i < regs.len() ==> !((#[trigger] a.locs@[regs[i] as int]) is Spill) {
        let n = NUM_PHYS as int + 1;
        let x = set_int_range(0, n);
        let f = |i: int| a.locs@[regs[i] as int]->Reg_0 as int;
        lemma_int_range(0, n);
        lemma_int_range(0, NUM_PHYS as int);
        assert forall|i: int, j: int| x.contains(i) && x.contains(j) && #[trigger] f(i) == #[trigger] f(j) implies i == j by {
            if i != j {
                let r1 = regs[i] as int;
                let r2 = regs[j] as int;
                assert(a.locs@[r1] is Reg && a.locs@[r2] is Reg);
                assert(a.locs@[r1] != a.locs@[r2]);
            }
        }
        let y = x.map(f);
        lemma_map_size(x, y, f);
        assert forall|p: int| y.contains(p) implies set_int_range(0, NUM_PHYS as int).contains(p) by {
            let i = choose|i: int| x.contains(i) && f(i) == p;
            let r = regs[i] as int;
            assert(match a.locs@[r] {
                Location::Reg(q) => allowed(blocks, params, r as usize, q) && !params.contains(r as usize),
                Location::Spill(s) => s < a.spill_slots && !params.contains(r as usize),
                Location::Arg(i) => crate::regalloc::first_param(params, r as usize, i as int),
            });
        }
        lemma_len_subset(y, set_int_range(0, NUM_PHYS as int));
    }
}

proof fn lemma_spill_count_same(l1: Seq<Location>, l2: Seq<Location>, k: int)
    requires
        0 <= k <= l1.len(),
        k <= l2.len(),
        forall|i: int| 0 <= i < k ==> l1[i] == l2[i],
    ensures
        spill_count(l1, k) == spill_count(l2, k),
    decreases k,
{
    if k > 0 {
        lemma_spill_count_same(l1, l2, k - 1);
    }
}

/// A register that some valid allocation puts in `p` finds `p` free.
proof fn lemma_reg_not_taken(blocks: Seq<Block>, params: Seq<usize>, nregs: usize, a: Allocation, q: int)
    requires
        valid_allocation(blocks, params, nregs, a),
        0 <= q < nregs,
        a.locs@[q] is Reg,
    ensures
        !taken(blocks, params, a.locs@, q, a.locs@[q]->Reg_0),
{
    let p = a.locs@[q]->Reg_0;
    if taken(blocks, params, a.locs@, q, p) {
        let w = choose|w: int| 0 <= w < q && interfere(blocks, params, w as usize, q as usize) && #[trigger] a.locs@[w] == Location::Reg(p);
        assert(a.locs@[w] is Reg);
        assert(a.locs@[w] != a.locs@[q]);
    }
}

proof fn lemma_unique_upto(
    blocks: Seq<Block>,
    params: Seq<usize>,
    nregs: usize,
    a1: Allocation,
    a2: Allocation,
    r: int,
)
    requires
        valid_allocation(blocks, params, nregs, a1),
        valid_allocation(blocks, params, nregs, a2),
        0 <= r <= nregs,
    ensures
        forall|q: int| 0 <= q < r ==> a1.locs@[q] == a2.locs@[q],
    decreases r,
{
    if r > 0 {
        lemma_unique_upto(blocks, params, nregs, a1, a2, r - 1);
        let q = r - 1;
        let l1 = a1.locs@;
        let l2 = a2.locs@;
        assert forall|p: usize| taken(blocks, params, l1, q, p) <==> taken(blocks, params, l2, q, p) by {
            if taken(blocks, params, l1, q, p) {
                let w = choose|w: int| 0 <= w < q && interfere(blocks, params, w as usize, q as usize) && #[trigger] l1[w] == Location::Reg(p);
                assert(l2[w] == Location::Reg(p));
            }
            if taken(blocks, params, l2, q, p) {
                let w = choose|w: int| 0 <= w < q && interfere(blocks, params, w as usize, q as usize) && #[trigger] l2[w] == Location::Reg(p);
                assert(l1[w] == Location::Reg(p));
            }
        }
        assert(match l1[q] {
            Location::Reg(p) => allowed(blocks, params, q as usize, p) && !params.contains(q as usize),
            Location::Spill(s) => s < a1.spill_slots && !params.contains(q as usize),
            Location::Arg(i) => crate::regalloc::first_param(params, q as usize, i as int),
        });
        assert(match l2[q] {
            Location::Reg(p) => allowed(blocks, params, q as usize, p) && !params.contains(q as usize),
            Location::Spill(s) => s < a2.spill_slots && !params.contains(q as usize),
            Location::Arg(i) => crate::regalloc::first_param(params, q as usize, i as int),
        });
        if l1[q] is Reg {
            lemma_reg_not_taken(blocks, params, nregs, a1, q);
        }
        if l2[q] is Reg {
            lemma_reg_not_taken(blocks, params, nregs, a2, q);
        }
        if l1[q] is Spill && l2[q] is Spill {
            lemma_spill_count_same(l1, l2, q);
        }
    }
}

/// Determinism: the allocation of a function's registers is fully decided by
/// the function, so two valid allocations agree and give the same code.
pub proof fn lemma_allocation_unique(
    blocks: Seq<Block>,
    params: Seq<usize>,
    nregs: usize,
    a1: Allocation,
    a2: Allocation,
)
    requires
        valid_allocation(blocks, params, nregs, a1),
        valid_allocation(blocks, params, nregs, a2),
    ensures
        a1.locs@ == a2.locs@,
        a1.spill_slots == a2.spill_slots,
{
    lemma_unique_upto(blocks, params, nregs, a1, a2, nregs as int);
    assert(a1.locs@ =~= a2.locs@);
}

} // verus!
