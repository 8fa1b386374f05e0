//! The intermediate representation shared by every pipeline stage: variables
//! with SSA subscripts, expression trees, and statements (both the low-level
//! pre-structuring forms and the high-level structured forms), together with
//! the mathematical views (`ExprV`, `StmtV`) and the measures and use counts
//! that the SSA and optimizer passes reason about.

use vstd::prelude::*;

verus! {

/// A pseudo-register identity. `index` names a source-level register,
/// `subscript` distinguishes SSA versions (0 means "not yet versioned").
/// `asserted` marks variables whose type was pinned from signature metadata.
#[derive(Debug, Clone, Copy, PartialEq, Eq, Hash, Structural)]
pub struct Var {
    pub index: u32,
    pub subscript: u32,
    pub asserted: bool,
}

impl Var {
    pub fn new(index: u32, subscript: u32) -> (r: Self)
        ensures
            r == (Var { index, subscript, asserted: false }),
    {
        Var { index, subscript, asserted: false }
    }

    pub fn no_sub(index: u32) -> (r: Self)
        ensures
            r == (Var { index, subscript: 0, asserted: false }),
    {
        Var { index, subscript: 0, asserted: false }
    }

    pub fn set_asserted(&mut self)
        ensures
            final(self).index == old(self).index,
            final(self).subscript == old(self).subscript,
            final(self).asserted,
    {
        self.asserted = true;
    }
}

#[derive(Debug, Clone, Copy, PartialEq, Eq, Structural)]
pub enum UnOp {
    Neg,
    Not,
    Eqz,
}

#[derive(Debug, Clone, Copy, PartialEq, Eq, Structural)]
pub enum BinOp {
    Add,
    Sub,
    Mul,
    DivS,
    DivU,
    RemS,
    RemU,
    And,
    Or,
    Xor,
    Shl,
    ShrS,
    ShrU,
    Eq,
    Ne,
    LtS,
    LtU,
    GtS,
    GtU,
    LeS,
    LeU,
    GeS,
    GeU,
}

/// One incoming value of a phi-operation: the value of `var` flows in when
/// control arrives from predecessor block `pred`.
#[derive(Debug, Clone, Copy, PartialEq, Eq, Structural)]
pub struct PhiArg {
    pub pred: usize,
    pub var: Var,
}

/// An immutable expression tree. Call arguments and phi inputs are plain
/// variable reads, which is what the operand-stack simulation produces.
#[derive(Debug, PartialEq, Eq)]
pub enum Expr {
    Const(i64),
    Read(Var),
    Unary(UnOp, Box<Expr>),
    Binary(BinOp, Box<Expr>, Box<Expr>),
    Load(Box<Expr>),
    Call(u32, Vec<Var>),
    Phi(Vec<PhiArg>),
}

#[derive(Debug, Clone, Copy, PartialEq, Eq, Structural)]
pub enum LoopKind {
    /// `while (cond) { .. }`: the exit test runs before each iteration.
    PreTest,
    /// `do { .. } while (cond)`: the exit test runs after each iteration.
    PostTest,
    /// no structural exit test; the body leaves through `Break` or `Return`.
    Infinite,
}

/// A statement. `Assign`, `Store`, `Discard`, `Return` and `Trap` carry the
/// function's observable work; the remaining variants carry control flow, and
/// appear only in the structured output of the structuring engine.
#[derive(Debug, PartialEq, Eq)]
pub enum Stmt {
    Assign(Var, Expr),
    Store(Expr, Expr),
    Discard(Expr),
    Return(Option<Expr>),
    Trap,
    If(Expr, Vec<Stmt>, Vec<Stmt>),
    Loop(LoopKind, Option<Expr>, Vec<Stmt>),
    Block(Vec<Stmt>),
    Break(usize),
    Continue(usize),
    Goto(usize),
    Label(usize),
}

/// The mathematical view of an expression.
#[verifier::ext_equal]
pub enum ExprV {
    Const(i64),
    Read(Var),
    Unary(UnOp, Box<ExprV>),
    Binary(BinOp, Box<ExprV>, Box<ExprV>),
    Load(Box<ExprV>),
    Call(u32, Seq<Var>),
    Phi(Seq<PhiArg>),
}

/// The mathematical view of a statement.
#[verifier::ext_equal]
pub enum StmtV {
    Assign(Var, ExprV),
    Store(ExprV, ExprV),
    Discard(ExprV),
    Return(Option<ExprV>),
    Trap,
    If(ExprV, Seq<StmtV>, Seq<StmtV>),
    Loop(LoopKind, Option<ExprV>, Seq<StmtV>),
    Block(Seq<StmtV>),
    Break(usize),
    Continue(usize),
    Goto(usize),
    Label(usize),
}

pub open spec fn expr_view(e: Expr) -> ExprV
    decreases e,
{
    match e {
        Expr::Const(c) => ExprV::Const(c),
        Expr::Read(v) => ExprV::Read(v),
        Expr::Unary(op, a) => ExprV::Unary(op, Box::new(expr_view(*a))),
        Expr::Binary(op, a, b) => ExprV::Binary(
            op,
            Box::new(expr_view(*a)),
            Box::new(expr_view(*b)),
        ),
        Expr::Load(a) => ExprV::Load(Box::new(expr_view(*a))),
        Expr::Call(f, args) => ExprV::Call(f, args@),
        Expr::Phi(args) => ExprV::Phi(args@),
    }
}

impl View for Expr {
    type V = ExprV;

    open spec fn view(&self) -> ExprV {
        expr_view(*self)
    }
}

pub open spec fn stmt_view(s: Stmt) -> StmtV
    decreases s,
{
    match s {
        Stmt::Assign(v, e) => StmtV::Assign(v, e@),
        Stmt::Store(a, v) => StmtV::Store(a@, v@),
        Stmt::Discard(e) => StmtV::Discard(e@),
        Stmt::Return(oe) => StmtV::Return(
            match oe {
                Some(e) => Some(e@),
                None => None,
            },
        ),
        Stmt::Trap => StmtV::Trap,
        Stmt::If(c, t, e) => StmtV::If(c@, stmts_view(t@), stmts_view(e@)),
        Stmt::Loop(k, oc, b) => StmtV::Loop(
            k,
            match oc {
                Some(c) => Some(c@),
                None => None,
            },
            stmts_view(b@),
        ),
        Stmt::Block(b) => StmtV::Block(stmts_view(b@)),
        Stmt::Break(d) => StmtV::Break(d),
        Stmt::Continue(d) => StmtV::Continue(d),
        Stmt::Goto(l) => StmtV::Goto(l),
        Stmt::Label(l) => StmtV::Label(l),
    }
}

pub open spec fn stmts_view(s: Seq<Stmt>) -> Seq<StmtV>
    decreases s,
{
    if s.len() == 0 {
        Seq::empty()
    } else {
        seq![stmt_view(s[0])] + stmts_view(s.drop_first())
    }
}

impl View for Stmt {
    type V = StmtV;

    open spec fn view(&self) -> StmtV {
        stmt_view(*self)
    }
}

pub broadcast proof fn lemma_stmts_view_index(s: Seq<Stmt>)
    ensures
        (#[trigger] stmts_view(s)).len() == s.len(),
        forall|i: int| 0 <= i < s.len() ==> stmts_view(s)[i] == stmt_view(s[i]),
    decreases s,
{
    if s.len() > 0 {
        lemma_stmts_view_index(s.drop_first());
        assert forall|i: int| 0 <= i < s.len() implies stmts_view(s)[i] == stmt_view(s[i]) by {
            if i > 0 {
                assert(stmts_view(s)[i] == stmts_view(s.drop_first())[i - 1]);
                assert(s.drop_first()[i - 1] == s[i]);
            }
        }
    }
}

pub proof fn lemma_stmts_view_push(s: Seq<Stmt>, x: Stmt)
    ensures
        stmts_view(s.push(x)) =~= stmts_view(s).push(stmt_view(x)),
{
    broadcast use lemma_stmts_view_index;

    assert forall|i: int| 0 <= i < s.len() + 1 implies stmts_view(s.push(x))[i] == stmts_view(
        s,
    ).push(stmt_view(x))[i] by {
        if i < s.len() {
            assert(s.push(x)[i] == s[i]);
        } else {
            assert(s.push(x)[i] == x);
        }
    }
}

/// Number of nodes of an expression tree; the optimizer's termination measure
/// counts these.
pub open spec fn expr_size(e: ExprV) -> nat
    decreases e,
{
    match e {
        ExprV::Const(_) => 1,
        ExprV::Read(_) => 1,
        ExprV::Unary(_, a) => 1 + expr_size(*a),
        ExprV::Binary(_, a, b) => 1 + expr_size(*a) + expr_size(*b),
        ExprV::Load(a) => 1 + expr_size(*a),
        ExprV::Call(_, _) => 1,
        ExprV::Phi(_) => 1,
    }
}

/// How many times `v` is read inside `e` at a plain expression position
/// (not counting call arguments or phi inputs).
pub open spec fn expr_reads(e: ExprV, v: Var) -> nat
    decreases e,
{
    match e {
        ExprV::Const(_) => 0,
        ExprV::Read(w) => if w == v { 1nat } else { 0nat },
        ExprV::Unary(_, a) => expr_reads(*a, v),
        ExprV::Binary(_, a, b) => expr_reads(*a, v) + expr_reads(*b, v),
        ExprV::Load(a) => expr_reads(*a, v),
        ExprV::Call(_, _) => 0,
        ExprV::Phi(_) => 0,
    }
}

pub open spec fn count_vars(s: Seq<Var>, v: Var) -> nat
    decreases s,
{
    if s.len() == 0 {
        0
    } else {
        (if s[0] == v { 1nat } else { 0nat }) + count_vars(s.drop_first(), v)
    }
}

pub open spec fn count_phi_args(s: Seq<PhiArg>, v: Var) -> nat
    decreases s,
{
    if s.len() == 0 {
        0
    } else {
        (if s[0].var == v { 1nat } else { 0nat }) + count_phi_args(s.drop_first(), v)
    }
}

/// How many times `v` is read inside `e` at a position where no expression
/// can be substituted for it: as a call argument or a phi input.
pub open spec fn expr_fixed_reads(e: ExprV, v: Var) -> nat
    decreases e,
{
    match e {
        ExprV::Const(_) => 0,
        ExprV::Read(_) => 0,
        ExprV::Unary(_, a) => expr_fixed_reads(*a, v),
        ExprV::Binary(_, a, b) => expr_fixed_reads(*a, v) + expr_fixed_reads(*b, v),
        ExprV::Load(a) => expr_fixed_reads(*a, v),
        ExprV::Call(_, args) => count_vars(args, v),
        ExprV::Phi(args) => count_phi_args(args, v),
    }
}

/// An expression is pure when evaluating it has no observable effect and
/// cannot trap: no call, no memory access, no phi, no division or remainder.
pub open spec fn expr_pure(e: ExprV) -> bool
    decreases e,
{
    match e {
        ExprV::Const(_) => true,
        ExprV::Read(_) => true,
        ExprV::Unary(_, a) => expr_pure(*a),
        ExprV::Binary(op, a, b) => binop_pure(op) && expr_pure(*a) && expr_pure(*b),
        ExprV::Load(_) => false,
        ExprV::Call(_, _) => false,
        ExprV::Phi(_) => false,
    }
}

pub open spec fn binop_pure(op: BinOp) -> bool {
    !(op == BinOp::DivS || op == BinOp::DivU || op == BinOp::RemS || op == BinOp::RemU)
}

impl Clone for Expr {
    fn clone(&self) -> (r: Self)
        ensures
            r@ == self@,
        decreases *self,
    {
        match self {
            Expr::Const(c) => Expr::Const(*c),
            Expr::Read(v) => Expr::Read(*v),
            Expr::Unary(op, a) => Expr::Unary(*op, Box::new((**a).clone())),
            Expr::Binary(op, a, b) => Expr::Binary(
                *op,
                Box::new((**a).clone()),
                Box::new((**b).clone()),
            ),
            Expr::Load(a) => Expr::Load(Box::new((**a).clone())),
            Expr::Call(f, args) => {
                let r = Expr::Call(*f, clone_vars(args));
                proof {
                    assert(r@ =~= self@);
                }
                r
            },
            Expr::Phi(args) => {
                let r = Expr::Phi(clone_phi_args(args));
                proof {
                    assert(r@ =~= self@);
                }
                r
            },
        }
    }
}

pub fn clone_vars(v: &Vec<Var>) -> (r: Vec<Var>)
    ensures
        r@ == v@,
{
    let mut r: Vec<Var> = Vec::new();
    let mut i: usize = 0;
    while i < v.len()
        invariant
            i <= v.len(),
            r@ == v@.subrange(0, i as int),
        decreases v.len() - i,
    {
        r.push(v[i]);
        i = i + 1;
    }
    proof {
        assert(r@ =~= v@);
    }
    r
}

pub fn clone_phi_args(v: &Vec<PhiArg>) -> (r: Vec<PhiArg>)
    ensures
        r@ == v@,
{
    let mut r: Vec<PhiArg> = Vec::new();
    let mut i: usize = 0;
    while i < v.len()
        invariant
            i <= v.len(),
            r@ == v@.subrange(0, i as int),
        decreases v.len() - i,
    {
        r.push(v[i]);
        i = i + 1;
    }
    proof {
        assert(r@ =~= v@);
    }
    r
}

impl Clone for Stmt {
    fn clone(&self) -> (r: Self)
        ensures
            r@ == self@,
        decreases *self,
    {
        match self {
            Stmt::Assign(v, e) => Stmt::Assign(*v, e.clone()),
            Stmt::Store(a, v) => Stmt::Store(a.clone(), v.clone()),
            Stmt::Discard(e) => Stmt::Discard(e.clone()),
            Stmt::Return(oe) => Stmt::Return(
                match oe {
                    Some(e) => Some(e.clone()),
                    None => None,
                },
            ),
            Stmt::Trap => Stmt::Trap,
            Stmt::If(c, t, e) => {
                let r = Stmt::If(c.clone(), clone_stmts(t), clone_stmts(e));
                proof {
                    assert(r@ =~= self@);
                }
                r
            },
            Stmt::Loop(k, oc, b) => {
                let r = Stmt::Loop(
                    *k,
                    match oc {
                        Some(c) => Some(c.clone()),
                        None => None,
                    },
                    clone_stmts(b),
                );
                proof {
                    assert(r@ =~= self@);
                }
                r
            },
            Stmt::Block(b) => {
                let r = Stmt::Block(clone_stmts(b));
                proof {
                    assert(r@ =~= self@);
                }
                r
            },
            Stmt::Break(d) => Stmt::Break(*d),
            Stmt::Continue(d) => Stmt::Continue(*d),
            Stmt::Goto(l) => Stmt::Goto(*l),
            Stmt::Label(l) => Stmt::Label(*l),
        }
    }
}

pub fn clone_stmts(v: &Vec<Stmt>) -> (r: Vec<Stmt>)
    ensures
        stmts_view(r@) == stmts_view(v@),
    decreases v@,
{
    let mut r: Vec<Stmt> = Vec::new();
    let mut i: usize = 0;
    while i < v.len()
        invariant
            i <= v.len(),
            stmts_view(r@) =~= stmts_view(v@.subrange(0, i as int)),
        decreases v.len() - i,
    {
        proof {
            broadcast use lemma_stmts_view_index;

            lemma_stmts_view_push(r@, v@[i as int]);
        }
        let ghost old_r = r@;
        let s = v[i].clone();
        r.push(s);
        proof {
            assert(v@.subrange(0, i + 1 as int) =~= v@.subrange(0, i as int).push(v@[i as int]));
            lemma_stmts_view_push(v@.subrange(0, i as int), v@[i as int]);
            lemma_stmts_view_push(old_r, s);
            broadcast use lemma_stmts_view_index;

            assert(stmts_view(r@) =~= stmts_view(v@.subrange(0, i + 1 as int)));
        }
        i = i + 1;
    }
    proof {
        assert(v@.subrange(0, v@.len() as int) =~= v@);
    }
    r
}

} // verus!

verus! {

/// Number of nodes of a statement.
pub open spec fn stmt_size(s: StmtV) -> nat
    decreases s,
{
    match s {
        StmtV::Assign(_, e) => 1 + expr_size(e),
        StmtV::Store(a, v) => 1 + expr_size(a) + expr_size(v),
        StmtV::Discard(e) => 1 + expr_size(e),
        StmtV::Return(oe) => 1 + (if oe is Some {
            expr_size(oe->0)
        } else {
            0nat
        }),
        StmtV::Trap => 1,
        StmtV::If(c, t, e) => 1 + expr_size(c) + stmt_seq_size(t) + stmt_seq_size(e),
        StmtV::Loop(_, oc, b) => 1 + (if oc is Some {
            expr_size(oc->0)
        } else {
            0nat
        }) + stmt_seq_size(b),
        StmtV::Block(b) => 1 + stmt_seq_size(b),
        StmtV::Break(_) => 1,
        StmtV::Continue(_) => 1,
        StmtV::Goto(_) => 1,
        StmtV::Label(_) => 1,
    }
}

pub open spec fn stmt_seq_size(s: Seq<StmtV>) -> nat
    decreases s,
{
    if s.len() == 0 {
        0
    } else {
        stmt_size(s[0]) + stmt_seq_size(s.drop_first())
    }
}

} // verus!

verus! {

pub proof fn lemma_stmt_size_pos(s: StmtV)
    ensures
        stmt_size(s) >= 1,
{
    match s {
        StmtV::Assign(_, _) => {},
        StmtV::Store(_, _) => {},
        StmtV::Discard(_) => {},
        StmtV::Return(_) => {},
        StmtV::Trap => {},
        StmtV::If(_, _, _) => {},
        StmtV::Loop(_, _, _) => {},
        StmtV::Block(_) => {},
        StmtV::Break(_) => {},
        StmtV::Continue(_) => {},
        StmtV::Goto(_) => {},
        StmtV::Label(_) => {},
    }
}

} // verus!

verus! {

use crate::analysis::assign_target;
use crate::analysis::compute_def_use;
use crate::analysis::DefUseMap;
use crate::cfg::BasicBlock;
use crate::cfg::Cfg;
use crate::cfg::Term;

/// Any two distinct assignments to versioned variables with the same
/// register index carry different subscripts.
pub open spec fn ssa_targets_distinct(c: Cfg) -> bool {
    forall|b1: int, i1: int, b2: int, i2: int|
        (#[trigger] assign_target(c, b1, i1)) is Some && (#[trigger] assign_target(
            c,
            b2,
            i2,
        )) is Some && (b1 != b2 || i1 != i2) && assign_target(c, b1, i1)->0.subscript > 0
            && assign_target(c, b2, i2)->0.subscript > 0 && assign_target(c, b1, i1)->0.index
            == assign_target(c, b2, i2)->0.index ==> assign_target(c, b1, i1)->0.subscript
            != assign_target(c, b2, i2)->0.subscript
}

/// Every assignment targets a versioned variable.
pub open spec fn ssa_all_versioned(c: Cfg) -> bool {
    forall|b: int, i: int|
        (#[trigger] assign_target(c, b, i)) is Some ==> assign_target(c, b, i)->0.subscript > 0
}

/// The single-assignment property: after SSA construction, each
/// `(index, subscript)` pair has exactly one defining statement.
pub open spec fn ssa_single_assignment(c: Cfg) -> bool {
    ssa_targets_distinct(c) && ssa_all_versioned(c)
}

/// Two graphs assign the same variables at the same positions.
pub open spec fn targets_eq(c1: Cfg, c2: Cfg) -> bool {
    forall|b: int, i: int| (#[trigger] assign_target(c2, b, i)) == assign_target(c1, b, i)
}

/// The renaming pass's global invariant: every target's subscript stays at
/// or below the version counter, and any two distinct targets whose
/// subscripts exceed the starting value `base` carry distinct subscripts.
pub open spec fn rename_inv(c: Cfg, base: u32, counter: u32) -> bool {
    &&& counter >= base
    &&& forall|b: int, i: int|
        (#[trigger] assign_target(c, b, i)) is Some ==> assign_target(c, b, i)->0.subscript
            <= counter
    &&& forall|b1: int, i1: int, b2: int, i2: int|
        (#[trigger] assign_target(c, b1, i1)) is Some && (#[trigger] assign_target(
            c,
            b2,
            i2,
        )) is Some && (b1 != b2 || i1 != i2) && assign_target(c, b1, i1)->0.subscript > base
            && assign_target(c, b2, i2)->0.subscript > base ==> assign_target(
            c,
            b1,
            i1,
        )->0.subscript != assign_target(c, b2, i2)->0.subscript
}

/// All assignments of block `b` carry subscripts above `base`.
pub open spec fn block_renamed(c: Cfg, b: int, base: u32) -> bool {
    forall|i: int|
        (#[trigger] assign_target(c, b, i)) is Some ==> assign_target(c, b, i)->0.subscript > base
}

/// All visited blocks are fully renamed.
pub open spec fn visited_renamed(c: Cfg, visited: Seq<bool>, base: u32) -> bool {
    forall|b: int| 0 <= b < visited.len() && visited[b] ==> #[trigger] block_renamed(c, b, base)
}

pub open spec fn count_true(s: Seq<bool>, k: int) -> nat
    decreases k,
{
    if k <= 0 {
        0
    } else {
        count_true(s, k - 1) + (if s[k - 1] {
            1nat
        } else {
            0nat
        })
    }
}

proof fn lemma_count_true_le(s: Seq<bool>, k: int)
    requires
        0 <= k <= s.len(),
    ensures
        count_true(s, k) <= k,
    decreases k,
{
    if k > 0 {
        lemma_count_true_le(s, k - 1);
    }
}

proof fn lemma_count_true_update(s: Seq<bool>, b: int, k: int)
    requires
        0 <= b < s.len(),
        k <= s.len(),
        !s[b],
    ensures
        b < k ==> count_true(s.update(b, true), k) == count_true(s, k) + 1,
        b >= k ==> count_true(s.update(b, true), k) == count_true(s, k),
    decreases k,
{
    if k > 0 {
        lemma_count_true_update(s, b, k - 1);
        if b == k - 1 {
            assert(s.update(b, true)[k - 1]);
        } else {
            assert(s.update(b, true)[k - 1] == s[k - 1]);
        }
    }
}

} // verus!

verus! {

/// Position of a register index in the tracked-register list.
fn find_reg(regs: &Vec<u32>, idx: u32) -> (r: Option<usize>)
    ensures
        r matches Some(p) ==> (p as int) < regs@.len() && regs@[p as int] == idx,
{
    let mut k: usize = 0;
    while k < regs.len()
        invariant
            k <= regs@.len(),
        decreases regs@.len() - k,
    {
        if regs[k] == idx {
            return Some(k);
        }
        k = k + 1;
    }
    None
}

/// The version of register `idx` live at the current renaming point: the top
/// of its version stack, or the variable untouched when no version is live.
fn lookup_var(v: Var, regs: &Vec<u32>, stacks: &Vec<Vec<u32>>) -> (r: Var)
    requires
        stacks@.len() == regs@.len(),
{
    match find_reg(regs, v.index) {
        Some(p) => {
            let st = &stacks[p];
            if st.len() > 0 {
                Var { index: v.index, subscript: st[st.len() - 1], asserted: v.asserted }
            } else {
                v
            }
        },
        None => v,
    }
}

/// Rewrites every read in an expression to its live version. Phi inputs are
/// not touched here; they are filled in from the predecessors.
fn rename_expr_uses(e: &Expr, regs: &Vec<u32>, stacks: &Vec<Vec<u32>>) -> (r: Expr)
    requires
        stacks@.len() == regs@.len(),
    decreases *e,
{
    match e {
        Expr::Const(c) => Expr::Const(*c),
        Expr::Read(v) => Expr::Read(lookup_var(*v, regs, stacks)),
        Expr::Unary(op, a) => Expr::Unary(*op, Box::new(rename_expr_uses(a, regs, stacks))),
        Expr::Binary(op, a, b) => Expr::Binary(
            *op,
            Box::new(rename_expr_uses(a, regs, stacks)),
            Box::new(rename_expr_uses(b, regs, stacks)),
        ),
        Expr::Load(a) => Expr::Load(Box::new(rename_expr_uses(a, regs, stacks))),
        Expr::Call(f, args) => {
            let mut nargs: Vec<Var> = Vec::new();
            let mut k: usize = 0;
            while k < args.len()
                invariant
                    stacks@.len() == regs@.len(),
                    k <= args@.len(),
                decreases args@.len() - k,
            {
                nargs.push(lookup_var(args[k], regs, stacks));
                k = k + 1;
            }
            Expr::Call(*f, nargs)
        },
        Expr::Phi(args) => Expr::Phi(clone_phi_args(args)),
    }
}

/// Rewrites the reads of a statement to their live versions; the assignment
/// target (and a phi right-hand side) stays as it is.
fn rename_stmt_uses(s: &Stmt, regs: &Vec<u32>, stacks: &Vec<Vec<u32>>) -> (r: Stmt)
    requires
        stacks@.len() == regs@.len(),
    ensures
        match (s, r) {
            (Stmt::Assign(t1, _), Stmt::Assign(t2, _)) => t1 == t2,
            (Stmt::Assign(_, _), _) => false,
            (_, Stmt::Assign(_, _)) => false,
            _ => true,
        },
    decreases *s,
{
    match s {
        Stmt::Assign(t, e) => {
            let ne = match e {
                Expr::Phi(args) => Expr::Phi(clone_phi_args(args)),
                _ => rename_expr_uses(e, regs, stacks),
            };
            Stmt::Assign(*t, ne)
        },
        Stmt::Store(a, b) => Stmt::Store(
            rename_expr_uses(a, regs, stacks),
            rename_expr_uses(b, regs, stacks),
        ),
        Stmt::Discard(e) => Stmt::Discard(rename_expr_uses(e, regs, stacks)),
        Stmt::Return(oe) => match oe {
            Some(e) => Stmt::Return(Some(rename_expr_uses(e, regs, stacks))),
            None => Stmt::Return(None),
        },
        Stmt::Trap => Stmt::Trap,
        Stmt::If(_, _, _) => s.clone(),
        Stmt::Loop(_, _, _) => s.clone(),
        Stmt::Block(_) => s.clone(),
        Stmt::Break(d) => Stmt::Break(*d),
        Stmt::Continue(d) => Stmt::Continue(*d),
        Stmt::Goto(l) => Stmt::Goto(*l),
        Stmt::Label(l) => Stmt::Label(*l),
    }
}

fn rename_term_uses(t: &Term, regs: &Vec<u32>, stacks: &Vec<Vec<u32>>) -> (r: Term)
    requires
        stacks@.len() == regs@.len(),
    ensures
        crate::cfg::term_targets(r) == crate::cfg::term_targets(*t),
    decreases *t,
{
    match t {
        Term::Br(x) => Term::Br(*x),
        Term::CondBr(c, a, b) => {
            let r = Term::CondBr(rename_expr_uses(c, regs, stacks), *a, *b);
            proof {
                assert(crate::cfg::term_targets(r) =~= crate::cfg::term_targets(*t));
            }
            r
        },
        Term::BrTable(e, ts, d) => {
            let r = Term::BrTable(
                rename_expr_uses(e, regs, stacks),
                crate::cfg::clone_targets(ts),
                *d,
            );
            proof {
                assert(crate::cfg::term_targets(r) =~= crate::cfg::term_targets(*t));
            }
            r
        },
        Term::Return(oe) => {
            let r = match oe {
                Some(e) => Term::Return(Some(rename_expr_uses(e, regs, stacks))),
                None => Term::Return(None),
            };
            proof {
                assert(crate::cfg::term_targets(r) =~= crate::cfg::term_targets(*t));
            }
            r
        },
        Term::Trap => Term::Trap,
    }
}

/// Gives the assignment at `(b, i)` the subscript `sub`, leaving every other
/// position's target alone.
fn set_assign_target(cfg: &mut Cfg, b: usize, i: usize, sub: u32)
    requires
        old(cfg).wf(),
        assign_target(*old(cfg), b as int, i as int) is Some,
    ensures
        final(cfg).wf(),
        final(cfg).blocks@.len() == old(cfg).blocks@.len(),
        final(cfg).succs == old(cfg).succs,
        final(cfg).preds == old(cfg).preds,
        forall|x: int, j: int|
            (x != b || j != i) ==> (#[trigger] assign_target(*final(cfg), x, j)) == assign_target(
                *old(cfg),
                x,
                j,
            ),
        assign_target(*final(cfg), b as int, i as int) matches Some(v2) && v2.subscript == sub
            && v2.index == assign_target(*old(cfg), b as int, i as int)->0.index,
        final(cfg).blocks@[b as int].stmts@.len() == old(cfg).blocks@[b as int].stmts@.len(),
{
    let ghost c0 = *cfg;
    let ns: Stmt = match &cfg.blocks[b].stmts[i] {
        Stmt::Assign(v, e) => Stmt::Assign(
            Var { index: v.index, subscript: sub, asserted: v.asserted },
            e.clone(),
        ),
        _ => {
            proof {
                assert(false);
            }
            Stmt::Trap
        },
    };
    cfg.blocks[b].stmts[i] = ns;
    proof {
        let c2 = *cfg;
        assert(c2.blocks@ =~= c0.blocks@.update(b as int, c2.blocks@[b as int]));
        assert(c2.blocks@[b as int].stmts@ =~= c0.blocks@[b as int].stmts@.update(i as int, ns));
        assert(crate::cfg::same_shape(c0, c2));
        crate::cfg::lemma_same_shape_wf(c0, c2);
        assert forall|x: int, j: int|
            (x != b || j != i) implies (#[trigger] assign_target(c2, x, j)) == assign_target(
            c0,
            x,
            j,
        ) by {
            if 0 <= x < c0.blocks@.len() {
                if x == b as int {
                    if 0 <= j < c0.blocks@[x].stmts@.len() {
                        assert(c2.blocks@[x].stmts@[j] == c0.blocks@[x].stmts@[j]);
                    }
                } else {
                    assert(c2.blocks@[x] == c0.blocks@[x]);
                }
            }
        }
    }
}

/// Rewrites the uses of one statement in place.
fn rename_stmt_at(cfg: &mut Cfg, b: usize, i: usize, regs: &Vec<u32>, stacks: &Vec<Vec<u32>>)
    requires
        old(cfg).wf(),
        (b as int) < old(cfg).blocks@.len(),
        (i as int) < old(cfg).blocks@[b as int].stmts@.len(),
        stacks@.len() == regs@.len(),
    ensures
        final(cfg).wf(),
        final(cfg).blocks@.len() == old(cfg).blocks@.len(),
        final(cfg).succs == old(cfg).succs,
        final(cfg).preds == old(cfg).preds,
        targets_eq(*old(cfg), *final(cfg)),
        final(cfg).blocks@[b as int].stmts@.len() == old(cfg).blocks@[b as int].stmts@.len(),
        forall|x: int|
            0 <= x < old(cfg).blocks@.len() ==> (#[trigger] final(cfg).blocks@[x]).stmts@.len()
                == old(cfg).blocks@[x].stmts@.len(),
{
    let ghost c0 = *cfg;
    let ns = rename_stmt_uses(&cfg.blocks[b].stmts[i], regs, stacks);
    cfg.blocks[b].stmts[i] = ns;
    proof {
        let c2 = *cfg;
        assert(c2.blocks@ =~= c0.blocks@.update(b as int, c2.blocks@[b as int]));
        assert(c2.blocks@[b as int].stmts@ =~= c0.blocks@[b as int].stmts@.update(i as int, ns));
        assert(crate::cfg::same_shape(c0, c2));
        crate::cfg::lemma_same_shape_wf(c0, c2);
        assert forall|x: int, j: int|
            true implies (#[trigger] assign_target(c2, x, j)) == assign_target(c0, x, j) by {
            if 0 <= x < c0.blocks@.len() {
                if x == b as int && j == i as int {
                    assert(c2.blocks@[x].stmts@[j] == ns);
                } else if x == b as int {
                    if 0 <= j < c0.blocks@[x].stmts@.len() {
                        assert(c2.blocks@[x].stmts@[j] == c0.blocks@[x].stmts@[j]);
                    }
                } else {
                    assert(c2.blocks@[x] == c0.blocks@[x]);
                }
            }
        }
    }
}

/// Fills the phi inputs of block `s` that flow in from predecessor `pred`
/// with the versions live at the end of `pred`.
fn fill_phi_args(cfg: &mut Cfg, s: usize, pred: usize, regs: &Vec<u32>, stacks: &Vec<Vec<u32>>)
    requires
        old(cfg).wf(),
        (s as int) < old(cfg).blocks@.len(),
        stacks@.len() == regs@.len(),
    ensures
        final(cfg).wf(),
        final(cfg).blocks@.len() == old(cfg).blocks@.len(),
        final(cfg).succs == old(cfg).succs,
        final(cfg).preds == old(cfg).preds,
        targets_eq(*old(cfg), *final(cfg)),
        forall|x: int|
            0 <= x < old(cfg).blocks@.len() ==> (#[trigger] final(cfg).blocks@[x]).stmts@.len()
                == old(cfg).blocks@[x].stmts@.len(),
{
    let ghost c0 = *cfg;
    let mut i: usize = 0;
    while i < cfg.blocks[s].stmts.len()
        invariant
            cfg.wf(),
            (s as int) < cfg.blocks@.len(),
            stacks@.len() == regs@.len(),
            cfg.blocks@.len() == c0.blocks@.len(),
            cfg.succs == c0.succs,
            cfg.preds == c0.preds,
            targets_eq(c0, *cfg),
            i <= cfg.blocks@[s as int].stmts@.len(),
            forall|x: int|
                0 <= x < c0.blocks@.len() ==> (#[trigger] cfg.blocks@[x]).stmts@.len()
                    == c0.blocks@[x].stmts@.len(),
        decreases cfg.blocks@[s as int].stmts@.len() - i,
    {
        let replacement: Option<Stmt> = match &cfg.blocks[s].stmts[i] {
            Stmt::Assign(t, Expr::Phi(args)) => {
                let mut nargs: Vec<PhiArg> = Vec::new();
                let mut k: usize = 0;
                while k < args.len()
                    invariant
                        stacks@.len() == regs@.len(),
                        k <= args@.len(),
                    decreases args@.len() - k,
                {
                    if args[k].pred == pred {
                        nargs.push(
                            PhiArg { pred: args[k].pred, var: lookup_var(args[k].var, regs, stacks) },
                        );
                    } else {
                        nargs.push(args[k]);
                    }
                    k = k + 1;
                }
                Some(Stmt::Assign(*t, Expr::Phi(nargs)))
            },
            _ => None,
        };
        match replacement {
            Some(ns) => {
                let ghost c1 = *cfg;
                proof {
                    assert(c1.blocks@[s as int].stmts@[i as int] matches Stmt::Assign(t, _)
                        ==> ns matches Stmt::Assign(t2, _) && t2 == t);
                }
                cfg.blocks[s].stmts[i] = ns;
                proof {
                    let c2 = *cfg;
                    assert(c2.blocks@ =~= c1.blocks@.update(s as int, c2.blocks@[s as int]));
                    assert(c2.blocks@[s as int].stmts@ =~= c1.blocks@[s as int].stmts@.update(
                        i as int,
                        ns,
                    ));
                    assert(crate::cfg::same_shape(c1, c2));
                    crate::cfg::lemma_same_shape_wf(c1, c2);
                    assert forall|x: int, j: int|
                        true implies (#[trigger] assign_target(c2, x, j)) == assign_target(
                        c1,
                        x,
                        j,
                    ) by {
                        if 0 <= x < c1.blocks@.len() {
                            if x == s as int && j == i as int {
                                assert(c2.blocks@[x].stmts@[j] == ns);
                            } else if x == s as int {
                                if 0 <= j < c1.blocks@[x].stmts@.len() {
                                    assert(c2.blocks@[x].stmts@[j] == c1.blocks@[x].stmts@[j]);
                                }
                            } else {
                                assert(c2.blocks@[x] == c1.blocks@[x]);
                            }
                        }
                    }
                }
            },
            None => {},
        }
        i = i + 1;
    }
}

} // verus!

verus! {

/// Collects the distinct register indices that have at least one assignment.
fn collect_def_regs(cfg: &Cfg) -> (regs: Vec<u32>)
{
    let mut regs: Vec<u32> = Vec::new();
    let mut b: usize = 0;
    while b < cfg.blocks.len()
        invariant
            b <= cfg.blocks@.len(),
        decreases cfg.blocks@.len() - b,
    {
        let mut i: usize = 0;
        while i < cfg.blocks[b].stmts.len()
            invariant
                b < cfg.blocks@.len(),
                i <= cfg.blocks@[b as int].stmts@.len(),
            decreases cfg.blocks@[b as int].stmts@.len() - i,
        {
            let idx: Option<u32> = match &cfg.blocks[b].stmts[i] {
                Stmt::Assign(v, _) => Some(v.index),
                _ => None,
            };
            match idx {
                Some(x) => {
                    match find_reg(&regs, x) {
                        Some(_) => {},
                        None => {
                            regs.push(x);
                        },
                    }
                },
                None => {},
            }
            i = i + 1;
        }
        b = b + 1;
    }
    regs
}

/// The largest subscript any assignment carries.
fn max_target_subscript(cfg: &Cfg) -> (m: u32)
    ensures
        forall|b: int, i: int|
            (#[trigger] assign_target(*cfg, b, i)) is Some ==> assign_target(
                *cfg,
                b,
                i,
            )->0.subscript <= m,
{
    let mut m: u32 = 0;
    let mut b: usize = 0;
    while b < cfg.blocks.len()
        invariant
            b <= cfg.blocks@.len(),
            forall|bb: int, ii: int|
                0 <= bb < b && (#[trigger] assign_target(*cfg, bb, ii)) is Some ==> assign_target(
                    *cfg,
                    bb,
                    ii,
                )->0.subscript <= m,
        decreases cfg.blocks@.len() - b,
    {
        let ghost m_outer = m;
        let mut i: usize = 0;
        let nst = cfg.blocks[b].stmts.len();
        while i < nst
            invariant
                b < cfg.blocks@.len(),
                nst == cfg.blocks@[b as int].stmts@.len(),
                i <= nst,
                m >= m_outer,
                forall|bb: int, ii: int|
                    0 <= bb < b && (#[trigger] assign_target(*cfg, bb, ii)) is Some
                        ==> assign_target(*cfg, bb, ii)->0.subscript <= m_outer,
                forall|ii: int|
                    0 <= ii < i && (#[trigger] assign_target(*cfg, b as int, ii)) is Some
                        ==> assign_target(*cfg, b as int, ii)->0.subscript <= m,
            decreases nst - i,
        {
            let ghost m_prev = m;
            match &cfg.blocks[b].stmts[i] {
                Stmt::Assign(v, _) => {
                    if v.subscript > m {
                        m = v.subscript;
                    }
                },
                _ => {},
            }
            proof {
                assert forall|ii: int|
                    0 <= ii < i + 1 && (#[trigger] assign_target(*cfg, b as int, ii)) is Some
                    implies assign_target(*cfg, b as int, ii)->0.subscript <= m by {
                    if ii < i {
                        assert(assign_target(*cfg, b as int, ii)->0.subscript <= m_prev);
                    }
                }
            }
            i = i + 1;
        }
        proof {
            assert forall|bb: int, ii: int|
                0 <= bb < b + 1 && (#[trigger] assign_target(*cfg, bb, ii)) is Some implies
                assign_target(*cfg, bb, ii)->0.subscript <= m by {
                if bb < b {
                    assert(assign_target(*cfg, bb, ii)->0.subscript <= m_outer);
                } else {
                    if 0 <= ii < nst {
                    } else {
                        assert(assign_target(*cfg, bb, ii) is None);
                    }
                }
            }
        }
        b = b + 1;
    }
    proof {
        assert forall|b: int, i: int|
            (#[trigger] assign_target(*cfg, b, i)) is Some implies assign_target(
            *cfg,
            b,
            i,
        )->0.subscript <= m by {
            if 0 <= b < cfg.blocks@.len() {
            } else {
                assert(assign_target(*cfg, b, i) is None);
            }
        }
    }
    m
}

/// Inserts empty phi-operations for every assigned register at the blocks of
/// its iterated dominance frontier. The phi inputs are filled in during
/// renaming.
fn insert_phis(cfg: &mut Cfg)
    requires
        old(cfg).wf(),
    ensures
        final(cfg).wf(),
        final(cfg).succs == old(cfg).succs,
        final(cfg).preds == old(cfg).preds,
        final(cfg).blocks@.len() == old(cfg).blocks@.len(),
{
    let doms = crate::dominance::compute_dominators(cfg);
    let df = crate::dominance::dominance_frontier(cfg, &doms);
    let regs = collect_def_regs(cfg);
    let n = cfg.blocks.len();
    let mut r: usize = 0;
    while r < regs.len()
        invariant
            cfg.wf(),
            n == cfg.blocks@.len(),
            cfg.succs == old(cfg).succs,
            cfg.preds == old(cfg).preds,
            r <= regs@.len(),
            df@.len() == n,
            forall|a: int, k: int|
                0 <= a < n && 0 <= k < (df@[a])@.len() ==> ((#[trigger] (df@[a])@[k]) as int) < n,
        decreases regs@.len() - r,
    {
        let reg = regs[r];
        // seed: every block that assigns this register
        let mut queued: Vec<bool> = Vec::new();
        let mut has_phi: Vec<bool> = Vec::new();
        let mut g: usize = 0;
        while g < n
            invariant
                g <= n,
                queued@.len() == g,
                has_phi@.len() == g,
            decreases n - g,
        {
            queued.push(false);
            has_phi.push(false);
            g = g + 1;
        }
        let mut wl: Vec<usize> = Vec::new();
        let mut b: usize = 0;
        while b < n
            invariant
                cfg.wf(),
                n == cfg.blocks@.len(),
                b <= n,
                queued@.len() == n,
                has_phi@.len() == n,
                forall|k: int| 0 <= k < wl@.len() ==> (#[trigger] wl@[k]) < n,
                forall|k: int| 0 <= k < wl@.len() ==> queued@[wl@[k] as int],
                forall|k1: int, k2: int| 0 <= k1 < k2 < wl@.len() ==> wl@[k1] != wl@[k2],
                wl@.len() <= n,
            decreases n - b,
        {
            let mut found = false;
            let mut i: usize = 0;
            let nst = cfg.blocks[b].stmts.len();
            while i < nst
                invariant
                    b < cfg.blocks@.len(),
                    nst == cfg.blocks@[b as int].stmts@.len(),
                    i <= nst,
                decreases nst - i,
            {
                match &cfg.blocks[b].stmts[i] {
                    Stmt::Assign(v, _) => {
                        if v.index == reg {
                            found = true;
                        }
                    },
                    _ => {},
                }
                i = i + 1;
            }
            if found && !queued[b] {
                queued[b] = true;
                wl.push(b);
                proof {
                    crate::cfg::lemma_wl_unique_bound(wl@, n);
                }
            }
            b = b + 1;
        }
        // iterate the dominance-frontier closure
        let mut wi: usize = 0;
        while wi < wl.len()
            invariant
                cfg.wf(),
                n == cfg.blocks@.len(),
                cfg.succs == old(cfg).succs,
                cfg.preds == old(cfg).preds,
                df@.len() == n,
                forall|a: int, k: int|
                    0 <= a < n && 0 <= k < (df@[a])@.len() ==> ((#[trigger] (df@[a])@[k]) as int)
                        < n,
                queued@.len() == n,
                has_phi@.len() == n,
                wi <= wl@.len(),
                forall|k: int| 0 <= k < wl@.len() ==> (#[trigger] wl@[k]) < n,
                forall|k: int| 0 <= k < wl@.len() ==> queued@[wl@[k] as int],
                forall|k1: int, k2: int| 0 <= k1 < k2 < wl@.len() ==> wl@[k1] != wl@[k2],
                wl@.len() <= n,
            decreases n - wi,
        {
            let x = wl[wi];
            let mut k: usize = 0;
            let nf = df[x].len();
            while k < nf
                invariant
                    cfg.wf(),
                    n == cfg.blocks@.len(),
                    cfg.succs == old(cfg).succs,
                    cfg.preds == old(cfg).preds,
                    df@.len() == n,
                    forall|a: int, kk: int|
                        0 <= a < n && 0 <= kk < (df@[a])@.len() ==> ((#[trigger] (df@[a])@[kk])
                            as int) < n,
                    x < n,
                    nf == (df@[x as int])@.len(),
                    k <= nf,
                    queued@.len() == n,
                    has_phi@.len() == n,
                    wi < wl@.len(),
                    forall|kk: int| 0 <= kk < wl@.len() ==> (#[trigger] wl@[kk]) < n,
                    forall|kk: int| 0 <= kk < wl@.len() ==> queued@[wl@[kk] as int],
                    forall|k1: int, k2: int| 0 <= k1 < k2 < wl@.len() ==> wl@[k1] != wl@[k2],
                    wl@.len() <= n,
                decreases nf - k,
            {
                let y = df[x][k];
                if !has_phi[y] {
                    has_phi[y] = true;
                    // one phi input per predecessor, to be filled during
                    // renaming
                    let mut args: Vec<PhiArg> = Vec::new();
                    let mut p: usize = 0;
                    let np = cfg.preds[y].len();
                    while p < np
                        invariant
                            (y as int) < cfg.preds@.len(),
                            np == (cfg.preds@[y as int])@.len(),
                            p <= np,
                        decreases np - p,
                    {
                        args.push(PhiArg { pred: cfg.preds[y][p], var: Var::new(reg, 0) });
                        p = p + 1;
                    }
                    let ghost c1 = *cfg;
                    let phi = Stmt::Assign(Var::new(reg, 0), Expr::Phi(args));
                    cfg.blocks[y].stmts.insert(0, phi);
                    proof {
                        let c2 = *cfg;
                        assert(c2.blocks@ =~= c1.blocks@.update(y as int, c2.blocks@[y as int]));
                        assert(crate::cfg::same_shape(c1, c2));
                        crate::cfg::lemma_same_shape_wf(c1, c2);
                    }
                    if !queued[y] {
                        queued[y] = true;
                        wl.push(y);
                        proof {
                            crate::cfg::lemma_wl_unique_bound(wl@, n);
                        }
                    }
                }
                k = k + 1;
            }
            wi = wi + 1;
        }
        r = r + 1;
    }
}

} // verus!

verus! {

/// Children lists of the dominator tree.
fn children_of(idom: &Vec<usize>, n: usize) -> (ch: Vec<Vec<usize>>)
    requires
        idom@.len() == n,
        forall|b: int| 0 <= b < n ==> ((#[trigger] idom@[b]) as int) < n,
    ensures
        ch@.len() == n,
        forall|d: int, k: int|
            0 <= d < n && 0 <= k < (ch@[d])@.len() ==> ((#[trigger] (ch@[d])@[k]) as int) < n,
{
    let mut ch: Vec<Vec<usize>> = Vec::new();
    let mut d: usize = 0;
    while d < n
        invariant
            d <= n,
            ch@.len() == d,
            forall|dd: int, k: int|
                0 <= dd < d && 0 <= k < (ch@[dd])@.len() ==> ((#[trigger] (ch@[dd])@[k]) as int)
                    < n,
        decreases n - d,
    {
        ch.push(Vec::new());
        d = d + 1;
    }
    let mut b: usize = 1;
    while b < n
        invariant
            idom@.len() == n,
            forall|x: int| 0 <= x < n ==> ((#[trigger] idom@[x]) as int) < n,
            1 <= b <= n || n == 0,
            ch@.len() == n,
            forall|dd: int, k: int|
                0 <= dd < n && 0 <= k < (ch@[dd])@.len() ==> ((#[trigger] (ch@[dd])@[k]) as int)
                    < n,
        decreases n - b,
    {
        let d = idom[b];
        let ghost before = ch@;
        ch[d].push(b);
        proof {
            assert forall|dd: int, k: int|
                0 <= dd < n && 0 <= k < (ch@[dd])@.len() implies ((#[trigger] (ch@[dd])@[k])
                as int) < n by {
                if dd == d as int && k == (ch@[dd])@.len() - 1 {
                } else {
                    assert((ch@[dd])@[k] == (before[dd])@[k]);
                }
            }
        }
        b = b + 1;
    }
    ch
}

/// Renames block `b` and, recursively, its dominator-tree children: each
/// assignment gets a fresh subscript from the shared counter, every use is
/// rewritten to the version live at that point, and the phi inputs of the
/// successors are filled with the versions live at the end of `b`.
#[verifier::rlimit(30)]
fn rename_block(
    cfg: &mut Cfg,
    children: &Vec<Vec<usize>>,
    regs: &Vec<u32>,
    stacks: &mut Vec<Vec<u32>>,
    visited: &mut Vec<bool>,
    counter: &mut u32,
    failed: &mut bool,
    b: usize,
    Ghost(base): Ghost<u32>,
)
    requires
        old(cfg).wf(),
        children@.len() == old(cfg).blocks@.len(),
        forall|d: int, k: int|
            0 <= d < children@.len() && 0 <= k < (children@[d])@.len() ==> ((#[trigger] (
            children@[d])@[k]) as int) < children@.len(),
        old(stacks)@.len() == regs@.len(),
        old(visited)@.len() == old(cfg).blocks@.len(),
        (b as int) < old(cfg).blocks@.len(),
        !old(visited)@[b as int],
        rename_inv(*old(cfg), base, *old(counter)),
        !*old(failed) ==> visited_renamed(*old(cfg), old(visited)@, base),
    ensures
        final(cfg).wf(),
        final(cfg).blocks@.len() == old(cfg).blocks@.len(),
        final(cfg).succs == old(cfg).succs,
        final(cfg).preds == old(cfg).preds,
        final(stacks)@.len() == regs@.len(),
        final(visited)@.len() == old(visited)@.len(),
        forall|x: int| 0 <= x < old(visited)@.len() && old(visited)@[x] ==> final(visited)@[x],
        final(visited)@[b as int],
        count_true(final(visited)@, final(visited)@.len() as int) >= count_true(
            old(visited)@,
            old(visited)@.len() as int,
        ) + 1,
        *final(counter) >= *old(counter),
        rename_inv(*final(cfg), base, *final(counter)),
        !*final(failed) ==> visited_renamed(*final(cfg), final(visited)@, base),
        *old(failed) ==> *final(failed),
    decreases old(cfg).blocks@.len() - count_true(old(visited)@, old(visited)@.len() as int),
{
    let ghost n = cfg.blocks@.len();
    proof {
        assert(n == old(cfg).blocks@.len());
        lemma_count_true_le(visited@, visited@.len() as int);
        lemma_count_true_update(visited@, b as int, visited@.len() as int);
    }
    visited[b] = true;
    let ghost count0 = count_true(visited@, visited@.len() as int);
    // rename the statements of b in order: first the uses (phi right-hand
    // sides excepted), then a fresh version for the target
    let mut i: usize = 0;
    while i < cfg.blocks[b].stmts.len()
        invariant
            cfg.wf(),
            cfg.blocks@.len() == n,
            cfg.succs == old(cfg).succs,
            cfg.preds == old(cfg).preds,
            (b as int) < n,
            stacks@.len() == regs@.len(),
            visited@.len() == n,
            visited@[b as int],
            i <= cfg.blocks@[b as int].stmts@.len(),
            rename_inv(*cfg, base, *counter),
            *counter >= *old(counter),
            *old(failed) ==> *failed,
            !*failed ==> forall|x: int|
                0 <= x < n && x != b && visited@[x] ==> #[trigger] block_renamed(*cfg, x, base),
            !*failed ==> forall|ii: int|
                0 <= ii < i && (#[trigger] assign_target(*cfg, b as int, ii)) is Some
                    ==> assign_target(*cfg, b as int, ii)->0.subscript > base,
        decreases cfg.blocks@[b as int].stmts@.len() - i,
    {
        let ghost c_use = *cfg;
        rename_stmt_at(cfg, b, i, regs, stacks);
        proof {
            if !*failed {
                assert forall|x: int|
                    0 <= x < n && x != b && visited@[x] implies #[trigger] block_renamed(
                    *cfg,
                    x,
                    base,
                ) by {
                    assert(block_renamed(c_use, x, base));
                    assert forall|ii: int|
                        (#[trigger] assign_target(*cfg, x, ii)) is Some implies assign_target(
                        *cfg,
                        x,
                        ii,
                    )->0.subscript > base by {
                        assert(assign_target(*cfg, x, ii) == assign_target(c_use, x, ii));
                    }
                }
                assert forall|ii: int|
                    0 <= ii < i && (#[trigger] assign_target(*cfg, b as int, ii)) is Some implies
                    assign_target(*cfg, b as int, ii)->0.subscript > base by {
                    assert(assign_target(*cfg, b as int, ii) == assign_target(c_use, b as int, ii));
                }
            }
        }
        let tgt: Option<Var> = match &cfg.blocks[b].stmts[i] {
            Stmt::Assign(v, _) => Some(*v),
            _ => None,
        };
        match tgt {
            Some(v) => {
                if *counter >= 0xFFFF_FFFEu32 {
                    *failed = true;
                } else {
                    let fresh = *counter + 1;
                    *counter = fresh;
                    let ghost c_pre = *cfg;
                    set_assign_target(cfg, b, i, fresh);
                    proof {
                        assert(rename_inv(*cfg, base, fresh)) by {
                            assert forall|b1: int, i1: int, b2: int, i2: int|
                                (#[trigger] assign_target(*cfg, b1, i1)) is Some && (
                            #[trigger] assign_target(*cfg, b2, i2)) is Some && (b1 != b2 || i1
                                != i2) && assign_target(*cfg, b1, i1)->0.subscript > base
                                && assign_target(*cfg, b2, i2)->0.subscript > base implies
                                assign_target(*cfg, b1, i1)->0.subscript != assign_target(
                                *cfg,
                                b2,
                                i2,
                            )->0.subscript by {
                                if b1 == b as int && i1 == i as int {
                                    assert(assign_target(*cfg, b2, i2) == assign_target(
                                        c_pre,
                                        b2,
                                        i2,
                                    ));
                                } else if b2 == b as int && i2 == i as int {
                                    assert(assign_target(*cfg, b1, i1) == assign_target(
                                        c_pre,
                                        b1,
                                        i1,
                                    ));
                                } else {
                                    assert(assign_target(*cfg, b1, i1) == assign_target(
                                        c_pre,
                                        b1,
                                        i1,
                                    ));
                                    assert(assign_target(*cfg, b2, i2) == assign_target(
                                        c_pre,
                                        b2,
                                        i2,
                                    ));
                                }
                            }
                        }
                        if !*failed {
                            assert forall|x: int|
                                0 <= x < n && x != b && visited@[x] implies
                                #[trigger] block_renamed(*cfg, x, base) by {
                                assert(block_renamed(c_pre, x, base));
                                assert forall|ii: int|
                                    (#[trigger] assign_target(*cfg, x, ii)) is Some implies
                                    assign_target(*cfg, x, ii)->0.subscript > base by {
                                    assert(assign_target(*cfg, x, ii) == assign_target(
                                        c_pre,
                                        x,
                                        ii,
                                    ));
                                }
                            }
                            assert forall|ii: int|
                                0 <= ii < i + 1 && (#[trigger] assign_target(
                                    *cfg,
                                    b as int,
                                    ii,
                                )) is Some implies assign_target(*cfg, b as int, ii)->0.subscript
                                > base by {
                                if ii < i {
                                    assert(assign_target(*cfg, b as int, ii) == assign_target(
                                        c_pre,
                                        b as int,
                                        ii,
                                    ));
                                }
                            }
                        }
                    }
                    // track the live version for uses dominated by this block
                    match find_reg(regs, v.index) {
                        Some(p) => {
                            stacks[p].push(fresh);
                        },
                        None => {},
                    }
                }
            },
            None => {},
        }
        i = i + 1;
    }
    // rewrite the terminator's reads
    let ghost c_t = *cfg;
    let nt = rename_term_uses(&cfg.blocks[b].term, regs, stacks);
    cfg.blocks[b].term = nt;
    proof {
        let c2 = *cfg;
        assert(c2.blocks@ =~= c_t.blocks@.update(b as int, c2.blocks@[b as int]));
        assert(crate::cfg::same_shape(c_t, c2));
        crate::cfg::lemma_same_shape_wf(c_t, c2);
        assert forall|x: int, j: int|
            true implies (#[trigger] assign_target(c2, x, j)) == assign_target(c_t, x, j) by {
            if 0 <= x < c_t.blocks@.len() {
                if x == b as int {
                    if 0 <= j < c_t.blocks@[x].stmts@.len() {
                        assert(c2.blocks@[x].stmts@[j] == c_t.blocks@[x].stmts@[j]);
                    }
                } else {
                    assert(c2.blocks@[x] == c_t.blocks@[x]);
                }
            }
        }
        assert(targets_eq(c_t, c2));
    }
    proof {
        assert(targets_eq(c_t, *cfg));
        if !*failed {
            assert forall|x: int|
                0 <= x < n && visited@[x] implies #[trigger] block_renamed(*cfg, x, base) by {
                if x == b as int {
                    assert forall|ii: int|
                        (#[trigger] assign_target(*cfg, b as int, ii)) is Some implies
                        assign_target(*cfg, b as int, ii)->0.subscript > base by {
                        assert(assign_target(*cfg, b as int, ii) == assign_target(
                            c_t,
                            b as int,
                            ii,
                        ));
                        assert(assign_target(c_t, b as int, ii) is Some);
                        assert(0 <= ii < c_t.blocks@[b as int].stmts@.len());
                    }
                } else {
                    assert(block_renamed(c_t, x, base));
                    assert forall|ii: int|
                        (#[trigger] assign_target(*cfg, x, ii)) is Some implies assign_target(
                        *cfg,
                        x,
                        ii,
                    )->0.subscript > base by {
                        assert(assign_target(*cfg, x, ii) == assign_target(c_t, x, ii));
                    }
                }
            }
        }
    }
    // hand the live versions to the phi inputs of the successors
    let mut k: usize = 0;
    while k < cfg.succs[b].len()
        invariant
            cfg.wf(),
            cfg.blocks@.len() == n,
            cfg.succs == old(cfg).succs,
            cfg.preds == old(cfg).preds,
            (b as int) < n,
            stacks@.len() == regs@.len(),
            visited@.len() == n,
            visited@[b as int],
            k <= cfg.succs@[b as int]@.len(),
            rename_inv(*cfg, base, *counter),
            !*failed ==> visited_renamed(*cfg, visited@, base),
        decreases cfg.succs@[b as int]@.len() - k,
    {
        let s = cfg.succs[b][k];
        proof {
            assert((cfg.succs@[b as int])@[k as int] == s);
        }
        let ghost c_pre = *cfg;
        fill_phi_args(cfg, s, b, regs, stacks);
        proof {
            if !*failed {
                assert forall|x: int|
                    0 <= x < visited@.len() && visited@[x] implies #[trigger] block_renamed(
                    *cfg,
                    x,
                    base,
                ) by {
                    assert(block_renamed(c_pre, x, base));
                    assert forall|ii: int|
                        (#[trigger] assign_target(*cfg, x, ii)) is Some implies assign_target(
                        *cfg,
                        x,
                        ii,
                    )->0.subscript > base by {
                        assert(assign_target(*cfg, x, ii) == assign_target(c_pre, x, ii));
                    }
                }
            }
        }
        k = k + 1;
    }
    // recurse into the dominator-tree children
    let mut k2: usize = 0;
    while k2 < children[b].len()
        invariant
            cfg.wf(),
            cfg.blocks@.len() == n,
            cfg.succs == old(cfg).succs,
            cfg.preds == old(cfg).preds,
            children@.len() == n,
            forall|d: int, kk: int|
                0 <= d < children@.len() && 0 <= kk < (children@[d])@.len() ==> ((#[trigger] (
                children@[d])@[kk]) as int) < children@.len(),
            (b as int) < n,
            stacks@.len() == regs@.len(),
            visited@.len() == n,
            visited@[b as int],
            k2 <= children@[b as int]@.len(),
            n == old(cfg).blocks@.len(),
            rename_inv(*cfg, base, *counter),
            *counter >= *old(counter),
            *old(failed) ==> *failed,
            !*failed ==> visited_renamed(*cfg, visited@, base),
            count_true(visited@, visited@.len() as int) >= count0,
            count0 >= count_true(old(visited)@, old(visited)@.len() as int) + 1,
            forall|x: int| 0 <= x < n && old(visited)@[x] ==> visited@[x],
        decreases children@[b as int]@.len() - k2,
    {
        let c = children[b][k2];
        if !visited[c] {
            proof {
                lemma_count_true_le(visited@, visited@.len() as int);
                lemma_count_true_le(old(visited)@, old(visited)@.len() as int);
                assert(count_true(visited@, visited@.len() as int) > count_true(
                    old(visited)@,
                    old(visited)@.len() as int,
                ));
                assert(cfg.blocks@.len() == old(cfg).blocks@.len());
            }
            rename_block(cfg, children, regs, stacks, visited, counter, failed, c, Ghost(base));
        }
        k2 = k2 + 1;
    }
    // close the scopes this block opened on the version stacks
    let mut i2: usize = 0;
    while i2 < cfg.blocks[b].stmts.len()
        invariant
            cfg.wf(),
            cfg.blocks@.len() == n,
            (b as int) < n,
            stacks@.len() == regs@.len(),
            i2 <= cfg.blocks@[b as int].stmts@.len(),
        decreases cfg.blocks@[b as int].stmts@.len() - i2,
    {
        let idx: Option<u32> = match &cfg.blocks[b].stmts[i2] {
            Stmt::Assign(v, _) => Some(v.index),
            _ => None,
        };
        match idx {
            Some(x) => {
                match find_reg(regs, x) {
                    Some(p) => {
                        let _ = stacks[p].pop();
                    },
                    None => {},
                }
            },
            None => {},
        }
        i2 = i2 + 1;
    }
}

} // verus!

verus! {

/// Rewrites a well-formed graph into SSA form and returns its def-use map:
/// phi-operations are inserted at the dominance-frontier closure of every
/// assigned register, and a dominator-tree-order pass gives each assignment a
/// fresh subscript and rewrites every use to the version live at that point.
/// Afterwards each `(index, subscript)` pair has exactly one defining
/// statement.
pub fn transform_to_ssa(cfg: &mut Cfg) -> (du: DefUseMap)
    requires
        old(cfg).wf(),
    ensures
        final(cfg).wf(),
        ssa_single_assignment(*final(cfg)),
        crate::cfg::same_shape(*old(cfg), *final(cfg)) || (final(cfg).blocks@.len() == 1
            && final(cfg).blocks@[0].stmts@.len() == 0 && final(cfg).blocks@[0].term
            == Term::Trap),
        du.sound_for(*final(cfg)),
{
    insert_phis(cfg);
    let ghost base_cfg = *cfg;
    let base = max_target_subscript(cfg);
    if base == u32::MAX {
        // subscripts are exhausted before renaming even starts; give the
        // caller a graph that still meets every structural promise
        *cfg = crate::cfg::single_block_cfg(Term::Trap);
        proof {
            assert forall|b: int, i: int|
                !((#[trigger] assign_target(*cfg, b, i)) is Some) by {
                if 0 <= b < cfg.blocks@.len() {
                    assert(cfg.blocks@[b].stmts@.len() == 0);
                }
            }
        }
        return compute_def_use(cfg);
    }
    let doms = crate::dominance::compute_dominators(cfg);
    let idom = crate::dominance::dom_tree(cfg, &doms);
    let n = cfg.blocks.len();
    let children = children_of(&idom, n);
    let regs = collect_def_regs(cfg);
    let mut stacks: Vec<Vec<u32>> = Vec::new();
    let mut g: usize = 0;
    while g < regs.len()
        invariant
            g <= regs@.len(),
            stacks@.len() == g,
        decreases regs@.len() - g,
    {
        stacks.push(Vec::new());
        g = g + 1;
    }
    let mut visited: Vec<bool> = Vec::new();
    let mut g2: usize = 0;
    while g2 < n
        invariant
            g2 <= n,
            visited@.len() == g2,
            forall|x: int| 0 <= x < g2 ==> !visited@[x],
        decreases n - g2,
    {
        visited.push(false);
        g2 = g2 + 1;
    }
    let mut counter: u32 = base;
    let mut failed: bool = false;
    proof {
        assert(rename_inv(*cfg, base, counter));
        assert(visited_renamed(*cfg, visited@, base));
    }
    rename_block(
        cfg,
        &children,
        &regs,
        &mut stacks,
        &mut visited,
        &mut counter,
        &mut failed,
        0,
        Ghost(base),
    );
    // blocks the dominator tree did not visit are renamed by a direct sweep
    let mut b: usize = 0;
    while b < n
        invariant
            cfg.wf(),
            cfg.blocks@.len() == n,
            cfg.succs == old(cfg).succs,
            cfg.preds == old(cfg).preds,
            children@.len() == n,
            forall|d: int, k: int|
                0 <= d < children@.len() && 0 <= k < (children@[d])@.len() ==> ((#[trigger] (
                children@[d])@[k]) as int) < children@.len(),
            stacks@.len() == regs@.len(),
            visited@.len() == n,
            b <= n,
            forall|x: int| 0 <= x < b ==> visited@[x],
            rename_inv(*cfg, base, counter),
            !failed ==> visited_renamed(*cfg, visited@, base),
        decreases n - b,
    {
        if !visited[b] {
            rename_block(
                cfg,
                &children,
                &regs,
                &mut stacks,
                &mut visited,
                &mut counter,
                &mut failed,
                b,
                Ghost(base),
            );
        }
        b = b + 1;
    }
    if failed {
        *cfg = crate::cfg::single_block_cfg(Term::Trap);
        proof {
            assert forall|bb: int, i: int|
                !((#[trigger] assign_target(*cfg, bb, i)) is Some) by {
                if 0 <= bb < cfg.blocks@.len() {
                    assert(cfg.blocks@[bb].stmts@.len() == 0);
                }
            }
        }
        return compute_def_use(cfg);
    }
    proof {
        assert(ssa_all_versioned(*cfg)) by {
            assert forall|bb: int, i: int|
                (#[trigger] assign_target(*cfg, bb, i)) is Some implies assign_target(
                *cfg,
                bb,
                i,
            )->0.subscript > 0 by {
                if 0 <= bb < n {
                    assert(visited@[bb]);
                    assert(block_renamed(*cfg, bb, base));
                } else {
                    assert(assign_target(*cfg, bb, i) is None);
                }
            }
        }
        crate::cfg::lemma_shape_from_edges(*old(cfg), *cfg);
        assert(ssa_targets_distinct(*cfg)) by {
            assert forall|b1: int, i1: int, b2: int, i2: int|
                (#[trigger] assign_target(*cfg, b1, i1)) is Some && (#[trigger] assign_target(
                    *cfg,
                    b2,
                    i2,
                )) is Some && (b1 != b2 || i1 != i2) && assign_target(*cfg, b1, i1)->0.subscript > 0
                    && assign_target(*cfg, b2, i2)->0.subscript > 0 && assign_target(
                    *cfg,
                    b1,
                    i1,
                )->0.index == assign_target(*cfg, b2, i2)->0.index implies assign_target(
                *cfg,
                b1,
                i1,
            )->0.subscript != assign_target(*cfg, b2, i2)->0.subscript by {
                assert(0 <= b1 < n && 0 <= b2 < n);
                assert(visited@[b1] && visited@[b2]);
                assert(block_renamed(*cfg, b1, base));
                assert(block_renamed(*cfg, b2, base));
                assert(assign_target(*cfg, b1, i1)->0.subscript > base);
                assert(assign_target(*cfg, b2, i2)->0.subscript > base);
            }
        }
    }
    compute_def_use(cfg)
}

} // verus!

verus! {

/// The statement is a phi-operation.
pub open spec fn stmt_is_phi(s: StmtV) -> bool {
    match s {
        StmtV::Assign(_, ExprV::Phi(_)) => true,
        _ => false,
    }
}

/// No phi-operation remains anywhere in the graph.
pub open spec fn no_phis(c: Cfg) -> bool {
    forall|b: int, i: int|
        0 <= b < c.blocks@.len() && 0 <= i < c.blocks@[b].stmts@.len() ==> !stmt_is_phi(
            #[trigger] c.blocks@[b].stmts@[i]@,
        )
}

/// Orders a parallel-copy set into sequential assignments, introducing a
/// temporary only to break read-after-overwrite hazards (the classical
/// lost-copy and swap problems).
fn sequentialize_copies(copies: Vec<(Var, Var)>, temp_counter: &mut u32) -> (out: Vec<Stmt>)
    ensures
        forall|i: int| 0 <= i < out@.len() ==> !stmt_is_phi(#[trigger] out@[i]@),
{
    let mut pending = copies;
    let mut out: Vec<Stmt> = Vec::new();
    while pending.len() > 0
        invariant
            forall|i: int| 0 <= i < out@.len() ==> !stmt_is_phi(#[trigger] out@[i]@),
        decreases pending@.len(),
    {
        // a copy whose destination no pending copy still reads is safe
        let mut pick: Option<usize> = None;
        let mut i: usize = 0;
        while i < pending.len()
            invariant
                i <= pending@.len(),
                pick matches Some(p) ==> (p as int) < pending@.len(),
            decreases pending@.len() - i,
        {
            let d = pending[i].0;
            let mut is_src = false;
            let mut j: usize = 0;
            while j < pending.len()
                invariant
                    j <= pending@.len(),
                decreases pending@.len() - j,
            {
                if pending[j].1 == d && j != i {
                    is_src = true;
                }
                j = j + 1;
            }
            if !is_src && pick.is_none() {
                pick = Some(i);
            }
            i = i + 1;
        }
        match pick {
            Some(p) => {
                let d = pending[p].0;
                let s = pending[p].1;
                out.push(Stmt::Assign(d, Expr::Read(s)));
                let _ = pending.remove(p);
            },
            None => {
                // every destination is still read: break the cycle with a
                // temporary that saves the first destination's old value
                let d = pending[0].0;
                let s = pending[0].1;
                let t = Var::new(0xFFFF_FFFFu32, *temp_counter);
                if *temp_counter < 0xFFFF_FFFEu32 {
                    *temp_counter = *temp_counter + 1;
                }
                out.push(Stmt::Assign(t, Expr::Read(d)));
                let ghost plen = pending@.len();
                let mut k: usize = 0;
                while k < pending.len()
                    invariant
                        pending@.len() == plen,
                        plen > 0,
                        k <= pending@.len(),
                    decreases pending@.len() - k,
                {
                    if pending[k].1 == d {
                        let dk = pending[k].0;
                        pending[k] = (dk, t);
                    }
                    k = k + 1;
                }
                let s2 = pending[0].1;
                out.push(Stmt::Assign(d, Expr::Read(s2)));
                let _ = pending.remove(0);
            },
        }
    }
    out
}

/// Resolves every phi-operation into explicit copies on the predecessor
/// edges: the copies for an edge land at the end of the predecessor, or on a
/// freshly created edge block when the predecessor has several successors.
/// The result is an equivalent, well-formed graph without phi-operations.
/// Splitting an edge adds a block and the rebuild renumbers the graph, so —
/// unlike the renaming and cleanup passes — this pass cannot promise the
/// input's shape back.
pub fn transform_out_of_ssa(cfg: &mut Cfg)
    requires
        old(cfg).wf(),
    ensures
        final(cfg).wf(),
        no_phis(*final(cfg)),
{
    let n = cfg.blocks.len();
    // strip the phi-operations, remembering them per block
    let mut phis: Vec<Vec<(Var, Vec<PhiArg>)>> = Vec::new();
    let mut b: usize = 0;
    while b < n
        invariant
            cfg.wf(),
            n == cfg.blocks@.len(),
            b <= n,
            phis@.len() == b,
            forall|x: int, i: int|
                0 <= x < b && 0 <= i < cfg.blocks@[x].stmts@.len() ==> !stmt_is_phi(
                    #[trigger] cfg.blocks@[x].stmts@[i]@,
                ),
        decreases n - b,
    {
        let mut rest: Vec<Stmt> = Vec::new();
        let mut own: Vec<(Var, Vec<PhiArg>)> = Vec::new();
        let mut i: usize = 0;
        let nst = cfg.blocks[b].stmts.len();
        while i < nst
            invariant
                b < cfg.blocks@.len(),
                nst == cfg.blocks@[b as int].stmts@.len(),
                i <= nst,
                forall|k: int| 0 <= k < rest@.len() ==> !stmt_is_phi(#[trigger] rest@[k]@),
            decreases nst - i,
        {
            let keep: Option<Stmt> = match &cfg.blocks[b].stmts[i] {
                Stmt::Assign(v, Expr::Phi(args)) => {
                    own.push((*v, clone_phi_args(args)));
                    None
                },
                _ => Some(cfg.blocks[b].stmts[i].clone()),
            };
            match keep {
                Some(s) => {
                    proof {
                        assert(!stmt_is_phi(s@));
                    }
                    rest.push(s);
                },
                None => {},
            }
            i = i + 1;
        }
        let ghost c1 = *cfg;
        cfg.blocks[b].stmts = rest;
        proof {
            let c2 = *cfg;
            assert(c2.blocks@ =~= c1.blocks@.update(b as int, c2.blocks@[b as int]));
            assert(crate::cfg::same_shape(c1, c2));
            crate::cfg::lemma_same_shape_wf(c1, c2);
            assert forall|x: int, i2: int|
                0 <= x < b + 1 && 0 <= i2 < c2.blocks@[x].stmts@.len() implies !stmt_is_phi(
                #[trigger] c2.blocks@[x].stmts@[i2]@,
            ) by {
                if x < b as int {
                    assert(c2.blocks@[x] == c1.blocks@[x]);
                }
            }
        }
        phis.push(own);
        b = b + 1;
    }
    // place the copies on the incoming edges
    let ghost pre_swap = *cfg;
    let mut blocks: Vec<BasicBlock> = Vec::new();
    core::mem::swap(&mut blocks, &mut cfg.blocks);
    let ghost preds0 = cfg.preds@;
    proof {
        assert(blocks@ == pre_swap.blocks@);
        assert forall|x: int, k: int|
            0 <= x < blocks@.len() && 0 <= k < crate::cfg::term_targets(blocks@[x].term).len()
            implies ((#[trigger] crate::cfg::term_targets(blocks@[x].term)[k]) as int)
            < blocks@.len() by {
            assert((pre_swap.succs@[x])@ == crate::cfg::term_targets(pre_swap.blocks@[x].term));
            assert((pre_swap.succs@[x])@[k] < pre_swap.blocks@.len());
        }
    }
    let mut temp_counter: u32 = 0;
    let mut b2: usize = 0;
    while b2 < n
        invariant
            b2 <= n,
            n <= blocks@.len(),
            phis@.len() == n,
            cfg.preds@ == preds0,
            preds0.len() == n,
            forall|x: int, k: int|
                0 <= x < n && 0 <= k < (preds0[x])@.len() ==> ((#[trigger] (preds0[x])@[k]) as int)
                    < n,
            forall|x: int, i: int|
                0 <= x < blocks@.len() && 0 <= i < blocks@[x].stmts@.len() ==> !stmt_is_phi(
                    #[trigger] blocks@[x].stmts@[i]@,
                ),
            forall|x: int, k: int|
                0 <= x < blocks@.len() && 0 <= k < crate::cfg::term_targets(blocks@[x].term).len()
                    ==> ((#[trigger] crate::cfg::term_targets(blocks@[x].term)[k]) as int)
                    < blocks@.len(),
        decreases n - b2,
    {
        if phis[b2].len() > 0 {
            let mut pk: usize = 0;
            let npred = cfg.preds[b2].len();
            while pk < npred
                invariant
                    b2 < n,
                    n <= blocks@.len(),
                    phis@.len() == n,
                    cfg.preds@ == preds0,
                    preds0.len() == n,
                    npred == (preds0[b2 as int])@.len(),
                    pk <= npred,
                    forall|x: int, k: int|
                        0 <= x < n && 0 <= k < (preds0[x])@.len() ==> ((#[trigger] (
                        preds0[x])@[k]) as int) < n,
                    forall|x: int, i: int|
                        0 <= x < blocks@.len() && 0 <= i < blocks@[x].stmts@.len()
                            ==> !stmt_is_phi(#[trigger] blocks@[x].stmts@[i]@),
                    forall|x: int, k: int|
                        0 <= x < blocks@.len() && 0 <= k < crate::cfg::term_targets(
                            blocks@[x].term,
                        ).len() ==> ((#[trigger] crate::cfg::term_targets(blocks@[x].term)[k])
                            as int) < blocks@.len(),
                decreases npred - pk,
            {
                let p = cfg.preds[b2][pk];
                // the values this edge must carry into b2's phis
                let mut copies: Vec<(Var, Var)> = Vec::new();
                let mut ph: usize = 0;
                while ph < phis[b2].len()
                    invariant
                        b2 < phis@.len(),
                        ph <= (phis@[b2 as int])@.len(),
                    decreases (phis@[b2 as int])@.len() - ph,
                {
                    let dest = phis[b2][ph].0;
                    let mut a: usize = 0;
                    let nargs = phis[b2][ph].1.len();
                    while a < nargs
                        invariant
                            b2 < phis@.len(),
                            ph < (phis@[b2 as int])@.len(),
                            nargs == (phis@[b2 as int])@[ph as int].1@.len(),
                            a <= nargs,
                        decreases nargs - a,
                    {
                        if phis[b2][ph].1[a].pred == p {
                            copies.push((dest, phis[b2][ph].1[a].var));
                        }
                        a = a + 1;
                    }
                    ph = ph + 1;
                }
                if copies.len() > 0 {
                    let seq_stmts = sequentialize_copies(copies, &mut temp_counter);
                    let ghost blocks1 = blocks@;
                    let nsucc = crate::cfg::count_targets(&blocks[p].term);
                    if nsucc <= 1 {
                        // the whole edge is the predecessor's only exit
                        let mut w: usize = 0;
                        while w < seq_stmts.len()
                            invariant
                                (p as int) < blocks@.len(),
                                w <= seq_stmts@.len(),
                                forall|i: int|
                                    0 <= i < seq_stmts@.len() ==> !stmt_is_phi(
                                        #[trigger] seq_stmts@[i]@,
                                    ),
                                blocks@.len() == blocks1.len(),
                                forall|x: int|
                                    0 <= x < blocks@.len() && x != p ==> blocks@[x] == blocks1[x],
                                blocks@[p as int].term == blocks1[p as int].term,
                                forall|x: int, i: int|
                                    0 <= x < blocks@.len() && 0 <= i < blocks@[x].stmts@.len()
                                        ==> !stmt_is_phi(#[trigger] blocks@[x].stmts@[i]@),
                            decreases seq_stmts@.len() - w,
                        {
                            let ghost bprev = blocks@;
                            let st = seq_stmts[w].clone();
                            proof {
                                assert(!stmt_is_phi(st@));
                            }
                            blocks[p].stmts.push(st);
                            proof {
                                assert forall|x: int, i: int|
                                    0 <= x < blocks@.len() && 0 <= i < blocks@[x].stmts@.len()
                                    implies !stmt_is_phi(#[trigger] blocks@[x].stmts@[i]@) by {
                                    if x == p as int {
                                        if i < bprev[x].stmts@.len() {
                                            assert(blocks@[x].stmts@[i] == bprev[x].stmts@[i]);
                                        } else {
                                            assert(blocks@[x].stmts@[i] == st);
                                        }
                                    } else {
                                        assert(blocks@[x] == bprev[x]);
                                    }
                                }
                            }
                            w = w + 1;
                        }
                        proof {
                            assert forall|x: int, k: int|
                                0 <= x < blocks@.len() && 0 <= k < crate::cfg::term_targets(
                                    blocks@[x].term,
                                ).len() implies ((#[trigger] crate::cfg::term_targets(
                                blocks@[x].term,
                            )[k]) as int) < blocks@.len() by {
                                if x == p as int {
                                    assert(blocks@[x].term == blocks1[x].term);
                                } else {
                                    assert(blocks@[x] == blocks1[x]);
                                }
                            }
                        }
                    } else {
                        // several exits: the copies live on a new edge block
                        let eid = blocks.len();
                        blocks.push(BasicBlock { stmts: seq_stmts, term: Term::Br(b2) });
                        let nt = crate::cfg::retarget_eq(&blocks[p].term, b2, eid);
                        let ghost blocks2 = blocks@;
                        blocks[p].term = nt;
                        proof {
                            assert forall|x: int, i: int|
                                0 <= x < blocks@.len() && 0 <= i < blocks@[x].stmts@.len()
                                implies !stmt_is_phi(#[trigger] blocks@[x].stmts@[i]@) by {
                                if x == p as int {
                                    assert(blocks@[x].stmts@ == blocks1[x].stmts@);
                                } else if x < blocks1.len() {
                                    assert(blocks@[x] == blocks1[x]);
                                } else {
                                    assert(blocks@[x].stmts == seq_stmts);
                                }
                            }
                            assert forall|x: int, k: int|
                                0 <= x < blocks@.len() && 0 <= k < crate::cfg::term_targets(
                                    blocks@[x].term,
                                ).len() implies ((#[trigger] crate::cfg::term_targets(
                                blocks@[x].term,
                            )[k]) as int) < blocks@.len() by {
                                if x == p as int {
                                } else if x < blocks1.len() {
                                    assert(blocks@[x] == blocks1[x]);
                                } else {
                                    assert(crate::cfg::term_targets(blocks@[x].term)
                                        =~= seq![b2 as usize]);
                                }
                            }
                        }
                    }
                }
                pk = pk + 1;
            }
        }
        b2 = b2 + 1;
    }
    proof {
        assert(blocks@.len() >= 1);
    }
    let ghost final_blocks = blocks@;
    let rebuilt = crate::cfg::finish_cfg_pub(blocks);
    proof {
        assert forall|x: int, i: int|
            0 <= x < rebuilt.blocks@.len() && 0 <= i < rebuilt.blocks@[x].stmts@.len() implies
            !stmt_is_phi(#[trigger] rebuilt.blocks@[x].stmts@[i]@) by {
            let bsrc = choose|bb: int|
                0 <= bb < final_blocks.len() && rebuilt.blocks@[x].stmts == final_blocks[bb].stmts;
            assert(rebuilt.blocks@[x].stmts@[i] == final_blocks[bsrc].stmts@[i]);
            assert(!stmt_is_phi(final_blocks[bsrc].stmts@[i]@));
        }
    }
    *cfg = rebuilt;
}

} // verus!

verus! {

pub proof fn lemma_stmts_view_concat(a: Seq<Stmt>, b: Seq<Stmt>)
    ensures
        stmts_view(a + b) =~= stmts_view(a) + stmts_view(b),
{
    broadcast use lemma_stmts_view_index;

    assert forall|i: int|
        0 <= i < a.len() + b.len() implies stmts_view(a + b)[i] == (stmts_view(a) + stmts_view(
        b,
    ))[i] by {
        if i < a.len() {
            assert((a + b)[i] == a[i]);
        } else {
            assert((a + b)[i] == b[i - a.len()]);
        }
    }
}

} // verus!
