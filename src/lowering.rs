use vstd::prelude::*;

verus! {

/// A source value: a virtual register, by its index in the function, or an
/// integer constant.
#[derive(Debug, Clone, Copy, PartialEq, Eq, Structural)]
pub enum Operand {
    Reg(usize),
    Imm(i64),
}

#[derive(Debug, Clone, Copy, PartialEq, Eq, Structural)]
pub enum BinOp {
    Add,
    Sub,
    Mul,
    Div,
}

/// A non-control instruction, the same in the syntax tree and in the low IR.
#[derive(Debug)]
pub enum Inst {
    Binary { op: BinOp, dest: usize, lhs: Operand, rhs: Operand },
    /// `dest` is set to whether `lhs <= rhs`.
    CompareLe { dest: usize, lhs: Operand, rhs: Operand },
    Call { dest: Option<usize>, callee: String, args: Vec<Operand> },
}

/// A statement of a function body in the syntax tree.
#[derive(Debug)]
pub enum Stmt {
    Label(String),
    Op(Inst),
    Jump(String),
    Branch { cond: usize, then_label: String, else_label: String },
    Return(Option<Operand>),
    Exit(i64),
}

#[derive(Debug)]
pub struct FunctionAst {
    pub name: String,
    pub params: Vec<usize>,
    pub body: Vec<Stmt>,
}

/// The control transfer that ends a block; a target is kept both by its label
/// and by the index of the block that bears it.
#[derive(Debug)]
pub enum Terminator {
    Jump { label: String, target: usize },
    Branch {
        cond: usize,
        then_label: String,
        then_target: usize,
        else_label: String,
        else_target: usize,
    },
    Return(Option<Operand>),
    Exit(i64),
}

#[derive(Debug)]
pub struct Block {
    pub label: Option<String>,
    pub insts: Vec<Inst>,
    pub term: Terminator,
}

#[derive(Debug)]
pub struct LowFunction {
    pub name: String,
    pub params: Vec<usize>,
    pub blocks: Vec<Block>,
}

#[derive(Debug)]
pub enum LoweringError {
    UnknownLabel { function: String, label: String },
    DuplicateLabel { function: String, label: String },
}

pub open spec fn stmt_label(s: Stmt) -> Option<Seq<char>> {
    match s {
        Stmt::Label(n) => Some(n@),
        _ => None,
    }
}

/// The labels that a statement names as jump or branch targets.
pub open spec fn stmt_targets(s: Stmt) -> Seq<Seq<char>> {
    match s {
        Stmt::Jump(n) => seq![n@],
        Stmt::Branch { then_label, else_label, .. } => seq![then_label@, else_label@],
        _ => seq![],
    }
}

pub open spec fn has_label(body: Seq<Stmt>, n: Seq<char>) -> bool {
    exists|i: int| 0 <= i < body.len() && stmt_label(#[trigger] body[i]) == Some(n)
}

pub open spec fn is_duplicate(body: Seq<Stmt>, n: Seq<char>) -> bool {
    exists|i: int, j: int|
        0 <= i < j < body.len() && stmt_label(#[trigger] body[i]) == Some(n) && stmt_label(
            #[trigger] body[j],
        ) == Some(n)
}

pub open spec fn has_duplicate(body: Seq<Stmt>) -> bool {
    exists|n: Seq<char>| is_duplicate(body, n)
}

pub open spec fn is_unknown_target(body: Seq<Stmt>, n: Seq<char>) -> bool {
    &&& exists|i: int, k: int|
        0 <= i < body.len() && 0 <= k < stmt_targets(body[i]).len() && #[trigger] stmt_targets(
            body[i],
        )[k] == n
    &&& !has_label(body, n)
}

pub open spec fn all_resolve(body: Seq<Stmt>) -> bool {
    forall|n: Seq<char>| !is_unknown_target(body, n)
}

/// The labels of `body[..end]`, each compared with `name`; returns the first
/// `i < end` whose label is `name`.
fn find_label(body: &Vec<Stmt>, end: usize, name: &String) -> (r: Option<usize>)
    requires
        end <= body@.len(),
    ensures
        match r {
            Some(i) => i < end && stmt_label(body@[i as int]) == Some(name@),
            None => forall|i: int| 0 <= i < end ==> stmt_label(#[trigger] body@[i]) != Some(name@),
        },
{
    let mut i: usize = 0;
    while i < end
        invariant
            end <= body@.len(),
            i <= end,
            forall|j: int| 0 <= j < i ==> stmt_label(#[trigger] body@[j]) != Some(name@),
        decreases end - i,
    {
        if let Stmt::Label(n) = &body[i] {
            if n.eq(name) {
                return Some(i);
            }
        }
        i += 1;
    }
    None
}

/// The first label of `body` that an earlier label already bears, if any.
fn find_duplicate(body: &Vec<Stmt>) -> (r: Option<usize>)
    ensures
        match r {
            Some(j) => j < body@.len() && stmt_label(body@[j as int]) is Some && is_duplicate(
                body@,
                stmt_label(body@[j as int])->0,
            ),
            None => !has_duplicate(body@),
        },
{
    let mut j: usize = 0;
    while j < body.len()
        invariant
            j <= body@.len(),
            forall|a: int, b: int|
                0 <= a < b < j ==> stmt_label(#[trigger] body@[a]) is None || stmt_label(body@[a])
                    != stmt_label(#[trigger] body@[b]),
        decreases body@.len() - j,
    {
        if let Stmt::Label(n) = &body[j] {
            if let Some(i) = find_label(body, j, n) {
                return Some(j);
            }
        }
        j += 1;
    }
    proof {
        if has_duplicate(body@) {
            let n = choose|n: Seq<char>| is_duplicate(body@, n);
            let (a, b) = choose|a: int, b: int|
                0 <= a < b < body@.len() && stmt_label(#[trigger] body@[a]) == Some(n) && stmt_label(
                    #[trigger] body@[b],
                ) == Some(n);
            assert(stmt_label(body@[a]) != stmt_label(body@[b]));
        }
    }
    None
}

/// The first jump or branch target of `body` that no label of `body` bears:
/// the statement's index and the target's place among its targets.
fn find_unknown(body: &Vec<Stmt>) -> (r: Option<(usize, usize)>)
    ensures
        match r {
            Some((i, k)) => i < body@.len() && k < stmt_targets(body@[i as int]).len()
                && is_unknown_target(body@, stmt_targets(body@[i as int])[k as int]),
            None => all_resolve(body@),
        },
{
    let mut i: usize = 0;
    while i < body.len()
        invariant
            i <= body@.len(),
            forall|a: int, k: int|
                0 <= a < i && 0 <= k < stmt_targets(body@[a]).len() ==> has_label(
                    body@,
                    #[trigger] stmt_targets(body@[a])[k],
                ),
        decreases body@.len() - i,
    {
        match &body[i] {
            Stmt::Jump(n) => {
                if find_label(body, body.len(), n).is_none() {
                    return Some((i, 0));
                }
            },
            Stmt::Branch { then_label, else_label, .. } => {
                if find_label(body, body.len(), then_label).is_none() {
                    return Some((i, 0));
                }
                if find_label(body, body.len(), else_label).is_none() {
                    return Some((i, 1));
                }
            },
            _ => {},
        }
        i += 1;
    }
    None
}

pub open spec fn opt_view(o: Option<String>) -> Option<Seq<char>> {
    match o {
        Some(s) => Some(s@),
        None => None,
    }
}

pub open spec fn term_targets(t: Terminator) -> Seq<Seq<char>> {
    match t {
        Terminator::Jump { label, .. } => seq![label@],
        Terminator::Branch { then_label, else_label, .. } => seq![then_label@, else_label@],
        _ => seq![],
    }
}

/// Whether each target of `t` is the index of a block, among blocks labelled
/// `labels`, that bears the target's label.
pub open spec fn resolved_in(labels: Seq<Option<Seq<char>>>, t: Terminator) -> bool {
    match t {
        Terminator::Jump { label, target } => target < labels.len() && labels[target as int] == Some(
            label@,
        ),
        Terminator::Branch { then_label, then_target, else_label, else_target, .. } => then_target
            < labels.len() && labels[then_target as int] == Some(then_label@) && else_target
            < labels.len() && labels[else_target as int] == Some(else_label@),
        _ => true,
    }
}

/// `u` is `t` with its targets' indices set anew.
pub open spec fn retargeted(t: Terminator, u: Terminator) -> bool {
    match (t, u) {
        (Terminator::Jump { label: a, .. }, Terminator::Jump { label: b, .. }) => a == b,
        (
            Terminator::Branch { cond: c1, then_label: t1, else_label: e1, .. },
            Terminator::Branch { cond: c2, then_label: t2, else_label: e2, .. },
        ) => c1 == c2 && t1 == t2 && e1 == e2,
        (Terminator::Return(a), Terminator::Return(b)) => a == b,
        (Terminator::Exit(a), Terminator::Exit(b)) => a == b,
        _ => false,
    }
}

pub open spec fn label_views(labels: Seq<Option<String>>) -> Seq<Option<Seq<char>>> {
    labels.map_values(|o: Option<String>| opt_view(o))
}

pub open spec fn block_labels(blocks: Seq<Block>) -> Seq<Option<Seq<char>>> {
    blocks.map_values(|b: Block| opt_view(b.label))
}

/// Every jump and branch target names a block of the function by its label.
pub open spec fn labels_resolve(blocks: Seq<Block>) -> bool {
    forall|b: int| 0 <= b < blocks.len() ==> resolved_in(block_labels(blocks), #[trigger] blocks[b].term)
}

fn find_block(labels: &Vec<Option<String>>, name: &String) -> (r: Option<usize>)
    ensures
        match r {
            Some(k) => k < labels@.len() && label_views(labels@)[k as int] == Some(name@),
            None => forall|k: int| 0 <= k < labels@.len() ==> label_views(labels@)[k] != Some(name@),
        },
{
    let mut k: usize = 0;
    while k < labels.len()
        invariant
            k <= labels@.len(),
            forall|j: int| 0 <= j < k ==> label_views(labels@)[j] != Some(name@),
        decreases labels@.len() - k,
    {
        if let Some(n) = &labels[k] {
            if n.eq(name) {
                return Some(k);
            }
        }
        k += 1;
    }
    None
}

/// Sets the target indices of `t` from the block labels `labels`; `None` when
/// some target is not among them.
fn resolve(t: Terminator, labels: &Vec<Option<String>>) -> (r: Option<Terminator>)
    ensures
        match r {
            Some(u) => retargeted(t, u) && resolved_in(label_views(labels@), u),
            None => exists|k: int|
                0 <= k < term_targets(t).len() && forall|j: int|
                    0 <= j < labels@.len() ==> label_views(labels@)[j] != Some(
                        #[trigger] term_targets(t)[k],
                    ),
        },
{
    match t {
        Terminator::Jump { label, target } => {
            match find_block(labels, &label) {
                Some(k) => Some(Terminator::Jump { label, target: k }),
                None => {
                    assert(term_targets(Terminator::Jump { label, target })[0] == label@);
                    None
                },
            }
        },
        Terminator::Branch { cond, then_label, then_target, else_label, else_target } => {
            let ghost tt = term_targets(Terminator::Branch { cond, then_label, then_target, else_label, else_target });
            assert(tt[0] == then_label@ && tt[1] == else_label@);
            match find_block(labels, &then_label) {
                Some(a) => match find_block(labels, &else_label) {
                    Some(b) => Some(
                        Terminator::Branch {
                            cond,
                            then_label,
                            then_target: a,
                            else_label,
                            else_target: b,
                        },
                    ),
                    None => None,
                },
                None => None,
            }
        },
        Terminator::Return(v) => Some(Terminator::Return(v)),
        Terminator::Exit(c) => Some(Terminator::Exit(c)),
    }
}

pub(crate) fn reversed<T>(v: Vec<T>) -> (r: Vec<T>)
    ensures
        r@.len() == v@.len(),
        forall|k: int| 0 <= k < v@.len() ==> r@[k] == v@[v@.len() - 1 - k],
{
    let ghost v0 = v@;
    let mut v = v;
    let mut r: Vec<T> = Vec::new();
    while v.len() > 0
        invariant
            v@.len() + r@.len() == v0.len(),
            forall|k: int| 0 <= k < v@.len() ==> v@[k] == v0[k],
            forall|k: int| 0 <= k < r@.len() ==> r@[k] == v0[v0.len() - 1 - k],
        decreases v@.len(),
    {
        let x = v.pop().unwrap();
        r.push(x);
    }
    r
}

/// The instructions of `body`, in order.
pub open spec fn ops(body: Seq<Stmt>) -> Seq<Inst>
    decreases body.len(),
{
    if body.len() == 0 {
        seq![]
    } else {
        ops(body.drop_last()) + match body.last() {
            Stmt::Op(i) => seq![i],
            _ => seq![],
        }
    }
}

/// The instructions of `blocks`, block after block.
pub open spec fn all_insts(blocks: Seq<Block>) -> Seq<Inst>
    decreases blocks.len(),
{
    if blocks.len() == 0 {
        seq![]
    } else {
        all_insts(blocks.drop_last()) + blocks.last().insts@
    }
}

proof fn lemma_all_insts_push(blocks: Seq<Block>, b: Block)
    ensures
        all_insts(blocks.push(b)) == all_insts(blocks) + b.insts@,
{
    assert(blocks.push(b).drop_last() =~= blocks);
}

proof fn lemma_all_insts_same(a: Seq<Block>, b: Seq<Block>)
    requires
        a.len() == b.len(),
        forall|k: int| 0 <= k < a.len() ==> (#[trigger] a[k]).insts == b[k].insts,
    ensures
        all_insts(a) == all_insts(b),
    decreases a.len(),
{
    if a.len() > 0 {
        lemma_all_insts_same(a.drop_last(), b.drop_last());
    }
}

proof fn lemma_ops_step(body: Seq<Stmt>, i: int)
    requires
        0 <= i < body.len(),
    ensures
        ops(body.subrange(0, i + 1)) == ops(body.subrange(0, i)) + match body[i] {
            Stmt::Op(x) => seq![x],
            _ => seq![],
        },
{
    assert(body.subrange(0, i + 1).drop_last() =~= body.subrange(0, i));
}

/// A terminator by its labels, before targets are numbered.
pub enum TermShape {
    Jump(Seq<char>),
    Branch(usize, Seq<char>, Seq<char>),
    Return(Option<Operand>),
    Exit(i64),
}

/// A block as lowering builds it: label, instructions, terminator.
pub struct BlockShape {
    pub label: Option<Seq<char>>,
    pub insts: Seq<Inst>,
    pub term: TermShape,
}

pub open spec fn term_shape(t: Terminator) -> TermShape {
    match t {
        Terminator::Jump { label, .. } => TermShape::Jump(label@),
        Terminator::Branch { cond, then_label, else_label, .. } => TermShape::Branch(
            cond,
            then_label@,
            else_label@,
        ),
        Terminator::Return(v) => TermShape::Return(v),
        Terminator::Exit(c) => TermShape::Exit(c),
    }
}

pub open spec fn shape_of(b: Block) -> BlockShape {
    BlockShape { label: opt_view(b.label), insts: b.insts@, term: term_shape(b.term) }
}

pub open spec fn shapes(blocks: Seq<Block>) -> Seq<BlockShape> {
    blocks.map_values(|b: Block| shape_of(b))
}

/// Blocks closed so far, and the block being filled (label, instructions),
/// if one is open.
pub struct SplitState {
    pub closed: Seq<BlockShape>,
    pub open: Option<(Option<Seq<char>>, Seq<Inst>)>,
}

/// The terminator shape that a statement ends its block with, if it is one.
pub open spec fn stmt_term(s: Stmt) -> Option<TermShape> {
    match s {
        Stmt::Jump(n) => Some(TermShape::Jump(n@)),
        Stmt::Branch { cond, then_label, else_label } => Some(
            TermShape::Branch(cond, then_label@, else_label@),
        ),
        Stmt::Return(v) => Some(TermShape::Return(v)),
        Stmt::Exit(c) => Some(TermShape::Exit(c)),
        _ => None,
    }
}

/// One statement of the split. A label starts a block: it names the entry
/// block while that is still empty and unnamed; otherwise the open block
/// ends in a jump to the label (falling through), the one edge lowering adds
/// besides the final return. An instruction joins the open block, or starts
/// an unnamed one after a terminator. A terminator closes the block.
pub open spec fn split_step(st: SplitState, s: Stmt) -> SplitState {
    match s {
        Stmt::Label(n) => match st.open {
            Some((None, insts)) if insts.len() == 0 => SplitState {
                closed: st.closed,
                open: Some((Some(n@), seq![])),
            },
            Some((l, insts)) => SplitState {
                closed: st.closed.push(BlockShape { label: l, insts, term: TermShape::Jump(n@) }),
                open: Some((Some(n@), seq![])),
            },
            None => SplitState { closed: st.closed, open: Some((Some(n@), seq![])) },
        },
        Stmt::Op(i) => match st.open {
            Some((l, insts)) => SplitState { closed: st.closed, open: Some((l, insts.push(i))) },
            None => SplitState { closed: st.closed, open: Some((None, seq![i])) },
        },
        _ => {
            let (l, insts) = match st.open {
                Some((l, insts)) => (l, insts),
                None => (None, seq![]),
            };
            SplitState {
                closed: st.closed.push(BlockShape { label: l, insts, term: stmt_term(s)->0 }),
                open: None,
            }
        },
    }
}

/// The split after the first `k` statements of `body`.
pub open spec fn split(body: Seq<Stmt>, k: int) -> SplitState
    decreases k,
{
    if k <= 0 || k > body.len() {
        SplitState { closed: seq![], open: Some((None, seq![])) }
    } else {
        split_step(split(body, k - 1), body[k - 1])
    }
}

/// The blocks of `body`, in source order: the split, with a block still
/// open at the end returning nothing.
pub open spec fn blocks_of(body: Seq<Stmt>) -> Seq<BlockShape> {
    let st = split(body, body.len() as int);
    match st.open {
        Some((l, insts)) => st.closed.push(BlockShape { label: l, insts, term: TermShape::Return(None) }),
        None => st.closed,
    }
}

/// Whether `n` labels one of `drafts` or is the label `open` of the block
/// being filled.
pub open spec fn bears(drafts: Seq<Block>, open: Option<Seq<char>>, n: Seq<char>) -> bool {
    (exists|b: int| 0 <= b < drafts.len() && #[trigger] block_labels(drafts)[b] == Some(n)) || open
        == Some(n)
}

/// Splits `body` into blocks: a label starts a block, and so does any
/// statement after a terminator; a block that runs into a label jumps to it,
/// and the last one returns nothing if it has no terminator. Targets are left
/// unresolved (index 0).
fn draft_blocks(body: Vec<Stmt>) -> (r: Vec<Block>)
    requires
        all_resolve(body@),
        !has_duplicate(body@),
    ensures
        r@.len() >= 1,
        shapes(r@) == blocks_of(body@),
        all_insts(r@) == ops(body@),
        forall|b: int, k: int|
            0 <= b < r@.len() && 0 <= k < term_targets(r@[b].term).len() ==> has_label(
                body@,
                #[trigger] term_targets(r@[b].term)[k],
            ),
        forall|n: Seq<char>| has_label(body@, n) ==> bears(r@, None, n),
        forall|a: int, b: int|
            0 <= a < b < r@.len() && block_labels(r@)[a] is Some ==> block_labels(r@)[a]
                != block_labels(r@)[b],
{
    let ghost body0 = body@;
    let total = body.len();
    let mut rest = reversed(body);
    let mut drafts: Vec<Block> = Vec::new();
    let mut open_label: Option<String> = None;
    let mut open_insts: Vec<Inst> = Vec::new();
    let mut is_open = true;
    let mut i: usize = 0;
    while rest.len() > 0
        invariant
            all_resolve(body0),
            !has_duplicate(body0),
            body0.len() == total,
            i + rest@.len() == body0.len(),
            forall|k: int| 0 <= k < rest@.len() ==> rest@[k] == body0[body0.len() - 1 - k],
            !is_open ==> open_label is None,
            !is_open ==> open_insts@.len() == 0,
            is_open || drafts@.len() >= 1,
            all_insts(drafts@) + open_insts@ == ops(body0.subrange(0, i as int)),
            shapes(drafts@) == split(body0, i as int).closed,
            split(body0, i as int).open == (if is_open {
                Some((opt_view(open_label), open_insts@))
            } else {
                None
            }),
            forall|b: int, k: int|
                0 <= b < drafts@.len() && 0 <= k < term_targets(drafts@[b].term).len() ==> has_label(
                    body0,
                    #[trigger] term_targets(drafts@[b].term)[k],
                ),
            forall|j: int|
                0 <= j < i && #[trigger] stmt_label(body0[j]) is Some ==> bears(
                    drafts@,
                    opt_view(open_label),
                    stmt_label(body0[j])->0,
                ),
            forall|b: int| 0 <= b < drafts@.len() && #[trigger] block_labels(drafts@)[b] is Some
                ==> exists|j: int| 0 <= j < i && stmt_label(#[trigger] body0[j]) == block_labels(drafts@)[b],
            opt_view(open_label) is Some ==> exists|j: int|
                0 <= j < i && stmt_label(#[trigger] body0[j]) == opt_view(open_label),
            forall|a: int, b: int|
                0 <= a < b < drafts@.len() && block_labels(drafts@)[a] is Some ==> #[trigger] block_labels(drafts@)[a]
                    != #[trigger] block_labels(drafts@)[b],
            forall|b: int| 0 <= b < drafts@.len() && #[trigger] block_labels(drafts@)[b] is Some
                ==> block_labels(drafts@)[b] != opt_view(open_label),
        decreases rest@.len(),
    {
        let stmt = rest.pop().unwrap();
        proof {
            assert(stmt == body0[i as int]);
        }
        let ghost old_drafts = drafts@;
        let ghost old_open = opt_view(open_label);
        let ghost old_insts = open_insts@;
        proof {
            lemma_ops_step(body0, i as int);
        }
        let term = match stmt {
            Stmt::Label(n) => {
                proof {
                    assert(stmt_label(body0[i as int]) == Some(n@));
                    if exists|j: int| 0 <= j < i && stmt_label(#[trigger] body0[j]) == Some(n@) {
                        let j = choose|j: int| 0 <= j < i && stmt_label(#[trigger] body0[j]) == Some(n@);
                        assert(is_duplicate(body0, n@));
                    }
                }
                if is_open && open_label.is_none() && open_insts.len() == 0 {
                    open_label = Some(n);
                } else {
                    if is_open {
                        let fall = n.clone();
                        let label = open_label;
                        let insts = open_insts;
                        let ghost blk = Block { label, insts, term: Terminator::Jump { label: fall, target: 0 } };
                        drafts.push(Block { label, insts, term: Terminator::Jump { label: fall, target: 0 } });
                        proof {
                            lemma_all_insts_push(old_drafts, blk);
                            assert(block_labels(drafts@) =~= block_labels(old_drafts).push(old_open));
                            assert(term_targets(drafts@[drafts@.len() - 1].term)[0] == n@);
                            assert(has_label(body0, n@));
                        }
                    }
                    open_label = Some(n);
                    open_insts = Vec::new();
                    is_open = true;
                }
                None
            },
            Stmt::Op(inst) => {
                if !is_open {
                    open_label = None;
                    open_insts = Vec::new();
                    is_open = true;
                }
                open_insts.push(inst);
                None
            },
            Stmt::Jump(n) => Some(Terminator::Jump { label: n, target: 0 }),
            Stmt::Branch { cond, then_label, else_label } => Some(
                Terminator::Branch { cond, then_label, then_target: 0, else_label, else_target: 0 },
            ),
            Stmt::Return(v) => Some(Terminator::Return(v)),
            Stmt::Exit(c) => Some(Terminator::Exit(c)),
        };
        if let Some(t) = term {
            proof {
                assert(term_targets(t) == stmt_targets(body0[i as int]));
                assert forall|k: int| 0 <= k < term_targets(t).len() implies has_label(
                    body0,
                    #[trigger] term_targets(t)[k],
                ) by {
                    assert(!is_unknown_target(body0, term_targets(t)[k]));
                }
            }
            let label = open_label;
            let insts = if is_open { open_insts } else { Vec::new() };
            proof {
                assert(insts@ =~= old_insts);
                lemma_all_insts_push(old_drafts, Block { label, insts, term: t });
            }
            drafts.push(Block { label, insts, term: t });
            proof {
                assert(block_labels(drafts@) =~= block_labels(old_drafts).push(old_open));
            }
            open_label = None;
            open_insts = Vec::new();
            is_open = false;
        }
        proof {
            assert(drafts@.len() >= old_drafts.len());
            assert(forall|b: int|
                0 <= b < old_drafts.len() ==> block_labels(drafts@)[b] == block_labels(old_drafts)[b]);
            assert(old_open is None || opt_view(open_label) == old_open || (drafts@.len()
                > old_drafts.len() && block_labels(drafts@)[old_drafts.len() as int] == old_open));
            assert forall|j: int|
                0 <= j < i + 1 && #[trigger] stmt_label(body0[j]) is Some implies bears(
                    drafts@,
                    opt_view(open_label),
                    stmt_label(body0[j])->0,
                ) by {
                let m = stmt_label(body0[j])->0;
                if j < i {
                    if old_open == Some(m) {
                        if opt_view(open_label) != old_open {
                            assert(block_labels(drafts@)[old_drafts.len() as int] == Some(m));
                        }
                    } else {
                        let b = choose|b: int|
                            0 <= b < old_drafts.len() && #[trigger] block_labels(old_drafts)[b] == Some(m);
                        assert(block_labels(drafts@)[b] == Some(m));
                    }
                }
            }
        }
        i += 1;
    }
    if is_open {
        let ghost old_drafts = drafts@;
        let ghost old_open = opt_view(open_label);
        let label = open_label;
        let insts = open_insts;
        proof {
            lemma_all_insts_push(old_drafts, Block { label, insts, term: Terminator::Return(None) });
        }
        drafts.push(Block { label, insts, term: Terminator::Return(None) });
        proof {
            assert(block_labels(drafts@) =~= block_labels(old_drafts).push(old_open));
            assert forall|b: int| 0 <= b < old_drafts.len() && #[trigger] block_labels(drafts@)[b] is Some
                implies exists|j: int| 0 <= j < i && stmt_label(#[trigger] body0[j]) == block_labels(drafts@)[b] by {
                assert(block_labels(drafts@)[b] == block_labels(old_drafts)[b]);
            }
            assert forall|j: int| 0 <= j < i && #[trigger] stmt_label(body0[j]) is Some implies bears(
                drafts@,
                None,
                stmt_label(body0[j])->0,
            ) by {
                let m = stmt_label(body0[j])->0;
                if old_open == Some(m) {
                    assert(block_labels(drafts@)[old_drafts.len() as int] == Some(m));
                } else {
                    let b = choose|b: int|
                        0 <= b < old_drafts.len() && #[trigger] block_labels(old_drafts)[b] == Some(m);
                    assert(block_labels(drafts@)[b] == Some(m));
                }
            }
        }
    }
    proof {
        assert(body0.subrange(0, i as int) =~= body0);
        assert(forall|j: int| 0 <= j < i && #[trigger] stmt_label(body0[j]) is Some ==> bears(
                drafts@,
                None,
                stmt_label(body0[j])->0,
            ));
        assert forall|n: Seq<char>| has_label(body0, n) implies bears(drafts@, None, n) by {
            let j = choose|j: int| 0 <= j < body0.len() && stmt_label(#[trigger] body0[j]) == Some(n);
            assert(stmt_label(body0[j]) is Some);
        }
    }
    drafts
}

/// Block labels are unique within the function.
pub open spec fn distinct_labels(blocks: Seq<Block>) -> bool {
    forall|a: int, b: int|
        0 <= a < blocks.len() && 0 <= b < blocks.len() && a != b && block_labels(blocks)[a] is Some
            ==> #[trigger] block_labels(blocks)[a] != #[trigger] block_labels(blocks)[b]
}

/// What lowering `f` into `lf` keeps and establishes: name and parameters;
/// the blocks of the body, in source order, as `blocks_of` splits it; every
/// target numbered by the block bearing its label; labels unique.
pub open spec fn lowered(f: FunctionAst, lf: LowFunction) -> bool {
    &&& lf.name == f.name
    &&& lf.params == f.params
    &&& lf.blocks@.len() >= 1
    &&& shapes(lf.blocks@) == blocks_of(f.body@)
    &&& all_insts(lf.blocks@) == ops(f.body@)
    &&& labels_resolve(lf.blocks@)
    &&& distinct_labels(lf.blocks@)
    &&& forall|n: Seq<char>|
        has_label(f.body@, n) ==> exists|b: int|
            0 <= b < lf.blocks@.len() && #[trigger] block_labels(lf.blocks@)[b] == Some(n)
}

/// Whether `e` is an error that `f` gives: a label borne twice, or, with
/// labels unique, a target that no label bears.
pub open spec fn reported(f: FunctionAst, e: LoweringError) -> bool {
    match e {
        LoweringError::DuplicateLabel { function, label } => function@ == f.name@ && is_duplicate(
            f.body@,
            label@,
        ),
        LoweringError::UnknownLabel { function, label } => function@ == f.name@ && !has_duplicate(
            f.body@,
        ) && is_unknown_target(f.body@, label@),
    }
}

pub open spec fn lowers(f: FunctionAst) -> bool {
    !has_duplicate(f.body@) && all_resolve(f.body@)
}

pub open spec fn lowering_outcome(f: FunctionAst, r: Result<LowFunction, LoweringError>) -> bool {
    &&& (r is Ok) <==> lowers(f)
    &&& match r {
        Ok(lf) => lowered(f, lf),
        Err(e) => reported(f, e),
    }
}

/// The label that `body` names as target `k` of statement `i`.
fn target_name(body: &Vec<Stmt>, i: usize, k: usize) -> (r: String)
    requires
        i < body@.len(),
        k < stmt_targets(body@[i as int]).len(),
    ensures
        r@ == stmt_targets(body@[i as int])[k as int],
{
    match &body[i] {
        Stmt::Jump(n) => n.clone(),
        Stmt::Branch { then_label, else_label, .. } => {
            if k == 0 {
                then_label.clone()
            } else {
                else_label.clone()
            }
        },
        _ => String::new(),
    }
}

/// Lowers one function into its control-flow graph. Labels must be unique,
/// and each jump or branch target must be a label of the same function.
pub fn lower_function(f: FunctionAst) -> (r: Result<LowFunction, LoweringError>)
    ensures
        lowering_outcome(f, r),
{
    let FunctionAst { name, params, body } = f;
    if let Some(j) = find_duplicate(&body) {
        let label = match &body[j] {
            Stmt::Label(n) => n.clone(),
            _ => String::new(),
        };
        return Err(LoweringError::DuplicateLabel { function: name, label });
    }
    if let Some((i, k)) = find_unknown(&body) {
        let label = target_name(&body, i, k);
        return Err(LoweringError::UnknownLabel { function: name, label });
    }
    let ghost body0 = body@;
    let drafts = draft_blocks(body);
    let mut labels: Vec<Option<String>> = Vec::new();
    let mut j: usize = 0;
    while j < drafts.len()
        invariant
            j <= drafts@.len(),
            label_views(labels@) =~= block_labels(drafts@).subrange(0, j as int),
        decreases drafts@.len() - j,
    {
        let l = match &drafts[j].label {
            Some(s) => Some(s.clone()),
            None => None,
        };
        let ghost old_labels = labels@;
        let ghost lv = opt_view(l);
        assert(lv == block_labels(drafts@)[j as int]);
        labels.push(l);
        j += 1;
        proof {
            assert(label_views(labels@) =~= label_views(old_labels).push(lv));
            assert(label_views(labels@) =~= block_labels(drafts@).subrange(0, j as int));
        }
    }
    let ghost d = drafts@;
    let n = drafts.len();
    let mut rest = reversed(drafts);
    let mut blocks: Vec<Block> = Vec::new();
    while rest.len() > 0
        invariant
            d.len() == n,
            label_views(labels@) == block_labels(d),
            blocks@.len() + rest@.len() == n,
            forall|k: int| 0 <= k < rest@.len() ==> rest@[k] == d[n - 1 - k],
            all_insts(d) == ops(body0),
            shapes(d) == blocks_of(body0),
            forall|b: int| 0 <= b < blocks@.len() ==> shape_of(#[trigger] blocks@[b]) == shape_of(d[b]),
            forall|b: int| 0 <= b < blocks@.len() ==> (#[trigger] blocks@[b]).label == d[b].label
                && blocks@[b].insts == d[b].insts && resolved_in(block_labels(d), blocks@[b].term),
            forall|b: int, k: int|
                0 <= b < d.len() && 0 <= k < term_targets(d[b].term).len() ==> has_label(
                    body0,
                    #[trigger] term_targets(d[b].term)[k],
                ),
            forall|m: Seq<char>| has_label(body0, m) ==> bears(d, None, m),
        decreases rest@.len(),
    {
        let ghost b = blocks@.len() as int;
        let Block { label, insts, term } = rest.pop().unwrap();
        proof {
            assert(term == d[b].term);
        }
        match resolve(term, &labels) {
            Some(u) => {
                proof {
                    assert(term_shape(u) == term_shape(d[b].term));
                }
                blocks.push(Block { label, insts, term: u });
            },
            None => {
                proof {
                    let k = choose|k: int|
                        0 <= k < term_targets(d[b].term).len() && forall|j: int|
                            0 <= j < labels@.len() ==> label_views(labels@)[j] != Some(
                                #[trigger] term_targets(d[b].term)[k],
                            );
                    let m = term_targets(d[b].term)[k];
                    assert(has_label(body0, m));
                    assert(bears(d, None, m));
                    let w = choose|w: int| 0 <= w < d.len() && #[trigger] block_labels(d)[w] == Some(m);
                    assert(labels@.len() == label_views(labels@).len());
                    assert(label_views(labels@)[w] == Some(m));
                    assert(label_views(labels@)[w] != Some(m));
                }
                return Err(LoweringError::UnknownLabel { function: name, label: String::new() });
            },
        }
    }
    proof {
        assert(shapes(blocks@) =~= shapes(d));
        lemma_all_insts_same(blocks@, d);
        assert(block_labels(blocks@) =~= block_labels(d));
        assert(labels_resolve(blocks@));
        assert(distinct_labels(blocks@)) by {
            assert forall|a: int, b: int|
                0 <= a < blocks@.len() && 0 <= b < blocks@.len() && a != b && block_labels(blocks@)[a] is Some
                    implies #[trigger] block_labels(blocks@)[a] != #[trigger] block_labels(blocks@)[b] by {
                if a < b {
                    assert(block_labels(d)[a] != block_labels(d)[b]);
                } else {
                    if block_labels(d)[b] is Some {
                        assert(block_labels(d)[b] != block_labels(d)[a]);
                    }
                }
            }
        }
        assert forall|m: Seq<char>| has_label(body0, m) implies exists|b: int|
            0 <= b < blocks@.len() && #[trigger] block_labels(blocks@)[b] == Some(m) by {
            assert(bears(d, None, m));
        }
    }
    Ok(LowFunction { name, params, blocks })
}

/// Lowers each function of `program` in order; the first function that
/// cannot be lowered decides the error.
pub fn lower(program: Vec<FunctionAst>) -> (r: Result<Vec<LowFunction>, LoweringError>)
    ensures
        (r is Ok) <==> forall|i: int| 0 <= i < program@.len() ==> lowers(#[trigger] program@[i]),
        r matches Ok(fs) ==> fs@.len() == program@.len() && forall|i: int|
            0 <= i < program@.len() ==> lowered(#[trigger] program@[i], fs@[i]),
        r matches Err(e) ==> exists|i: int|
            0 <= i < program@.len() && reported(#[trigger] program@[i], e) && forall|j: int|
                0 <= j < i ==> lowers(#[trigger] program@[j]),
{
    let ghost p = program@;
    let n = program.len();
    let mut rest = reversed(program);
    let mut out: Vec<LowFunction> = Vec::new();
    while rest.len() > 0
        invariant
            p == program@,
            p.len() == n,
            out@.len() + rest@.len() == n,
            forall|k: int| 0 <= k < rest@.len() ==> rest@[k] == p[n - 1 - k],
            forall|i: int| 0 <= i < out@.len() ==> lowers(#[trigger] p[i]) && lowered(p[i], out@[i]),
        decreases rest@.len(),
    {
        let ghost i = out@.len() as int;
        let f = rest.pop().unwrap();
        proof {
            assert(f == p[i]);
        }
        match lower_function(f) {
            Ok(lf) => {
                out.push(lf);
            },
            Err(e) => {
                proof {
                    assert(reported(p[i], e));
                    assert(!lowers(p[i]));
                    assert(forall|j: int| 0 <= j < i ==> lowers(#[trigger] p[j]));
                }
                return Err(e);
            },
        }
    }
    Ok(out)
}

/// Label resolution: in a lowered function, every jump or branch target is
/// the label of exactly one block of that function, and the terminator's
/// index points at that block.
pub proof fn lemma_targets_resolve(f: FunctionAst, lf: LowFunction, b: int, k: int)
    requires
        lowered(f, lf),
        0 <= b < lf.blocks@.len(),
        0 <= k < term_targets(lf.blocks@[b].term).len(),
    ensures
        exists|t: int|
            0 <= t < lf.blocks@.len() && #[trigger] block_labels(lf.blocks@)[t] == Some(
                term_targets(lf.blocks@[b].term)[k],
            ),
        forall|t1: int, t2: int|
            0 <= t1 < lf.blocks@.len() && 0 <= t2 < lf.blocks@.len() && block_labels(lf.blocks@)[t1]
                == Some(term_targets(lf.blocks@[b].term)[k]) && block_labels(lf.blocks@)[t2] == Some(
                term_targets(lf.blocks@[b].term)[k],
            ) ==> t1 == t2,
{
    let labels = block_labels(lf.blocks@);
    assert(resolved_in(labels, lf.blocks@[b].term));
    match lf.blocks@[b].term {
        Terminator::Jump { label, target } => {
            assert(labels[target as int] == Some(label@));
        },
        Terminator::Branch { then_label, then_target, else_label, else_target, .. } => {
            assert(labels[then_target as int] == Some(then_label@));
            assert(labels[else_target as int] == Some(else_label@));
        },
        _ => {},
    }
}

/// Label resolution, the other side: a function whose labels are unique but
/// which jumps or branches to a label it does not bear is refused with
/// `UnknownLabel`, naming that function.
pub proof fn lemma_dangling_label_refused(
    f: FunctionAst,
    r: Result<LowFunction, LoweringError>,
    n: Seq<char>,
)
    requires
        lowering_outcome(f, r),
        !has_duplicate(f.body@),
        is_unknown_target(f.body@, n),
    ensures
        r matches Err(LoweringError::UnknownLabel { function, label }) && function@ == f.name@,
{
}

/// The block indices a terminator jumps to.
pub open spec fn term_indices(t: Terminator) -> Seq<usize> {
    match t {
        Terminator::Jump { target, .. } => seq![target],
        Terminator::Branch { then_target, else_target, .. } => seq![then_target, else_target],
        _ => seq![],
    }
}

/// Determinism: lowering a function twice gives the same blocks, in the same
/// order, with the same terminators and the same target indices.
pub proof fn lemma_lowering_deterministic(f: FunctionAst, lf1: LowFunction, lf2: LowFunction)
    requires
        lowered(f, lf1),
        lowered(f, lf2),
    ensures
        shapes(lf1.blocks@) == shapes(lf2.blocks@),
        lf1.blocks@.len() == lf2.blocks@.len(),
        forall|b: int| 0 <= b < lf1.blocks@.len() ==> term_indices(#[trigger] lf1.blocks@[b].term)
            == term_indices(lf2.blocks@[b].term),
{
    let b1 = lf1.blocks@;
    let b2 = lf2.blocks@;
    assert(shapes(b1).len() == b1.len() && shapes(b2).len() == b2.len());
    assert forall|k: int| 0 <= k < b1.len() implies #[trigger] block_labels(b1)[k] == block_labels(b2)[k] by {
        assert(shapes(b1)[k] == shapes(b2)[k]);
    }
    assert forall|b: int| 0 <= b < b1.len() implies term_indices(#[trigger] b1[b].term) == term_indices(b2[b].term) by {
        assert(shapes(b1)[b] == shapes(b2)[b]);
        assert(resolved_in(block_labels(b1), b1[b].term));
        assert(resolved_in(block_labels(b2), b2[b].term));
        match (b1[b].term, b2[b].term) {
            (Terminator::Jump { target: t1, .. }, Terminator::Jump { target: t2, .. }) => {
                assert(block_labels(b1)[t2 as int] == block_labels(b2)[t2 as int]);
                assert(t1 == t2);
            },
            (
                Terminator::Branch { then_target: a1, else_target: e1, .. },
                Terminator::Branch { then_target: a2, else_target: e2, .. },
            ) => {
                assert(block_labels(b1)[a2 as int] == block_labels(b2)[a2 as int]);
                assert(block_labels(b1)[e2 as int] == block_labels(b2)[e2 as int]);
                assert(a1 == a2);
                assert(e1 == e2);
            },
            _ => {},
        }
        assert(term_indices(b1[b].term) =~= term_indices(b2[b].term));
    }
}

} // verus!
