//! Data-flow cleanup on the SSA graph: expression propagation (forward
//! substitution of single-use pure definitions and of constants) and
//! dead-code elimination (removal of side-effect-free definitions with no
//! remaining uses, and collapsing of trivial phi-operations), iterated to a
//! fixed point. The fixed point itself is part of the contracts: after the
//! optimizer runs, no candidate remains, and running it on an already-clean
//! graph changes nothing.

use vstd::prelude::*;

use crate::cfg::BasicBlock;
use crate::cfg::Cfg;
use crate::cfg::Term;
use crate::ssa::count_phi_args;
use crate::ssa::count_vars;
use crate::ssa::expr_fixed_reads;
use crate::ssa::expr_pure;
use crate::ssa::expr_reads;
use crate::ssa::expr_size;
use crate::ssa::Expr;
use crate::ssa::ExprV;
use crate::ssa::PhiArg;
use crate::ssa::Stmt;
use crate::ssa::StmtV;
use crate::ssa::Var;

verus! {

/// A count clamped at two: the optimizer only distinguishes zero, one, and
/// "more than one".
pub open spec fn min2(n: nat) -> nat {
    if n >= 2 {
        2
    } else {
        n
    }
}

/// Reads of `v` at substitutable positions in one statement.
pub open spec fn stmt_plain_reads(s: StmtV, v: Var) -> nat {
    match s {
        StmtV::Assign(_, e) => expr_reads(e, v),
        StmtV::Store(a, b) => expr_reads(a, v) + expr_reads(b, v),
        StmtV::Discard(e) => expr_reads(e, v),
        StmtV::Return(oe) => if oe is Some {
            expr_reads(oe->0, v)
        } else {
            0
        },
        _ => 0,
    }
}

/// Reads of `v` at fixed positions (call arguments, phi inputs) in one
/// statement.
pub open spec fn stmt_fixed_reads(s: StmtV, v: Var) -> nat {
    match s {
        StmtV::Assign(_, e) => expr_fixed_reads(e, v),
        StmtV::Store(a, b) => expr_fixed_reads(a, v) + expr_fixed_reads(b, v),
        StmtV::Discard(e) => expr_fixed_reads(e, v),
        StmtV::Return(oe) => if oe is Some {
            expr_fixed_reads(oe->0, v)
        } else {
            0
        },
        _ => 0,
    }
}

pub open spec fn term_plain_reads(t: Term, v: Var) -> nat {
    match t {
        Term::CondBr(c, _, _) => expr_reads(c@, v),
        Term::BrTable(e, _, _) => expr_reads(e@, v),
        Term::Return(oe) => if oe is Some {
            expr_reads(oe->0@, v)
        } else {
            0
        },
        _ => 0,
    }
}

pub open spec fn term_fixed_reads(t: Term, v: Var) -> nat {
    match t {
        Term::CondBr(c, _, _) => expr_fixed_reads(c@, v),
        Term::BrTable(e, _, _) => expr_fixed_reads(e@, v),
        Term::Return(oe) => if oe is Some {
            expr_fixed_reads(oe->0@, v)
        } else {
            0
        },
        _ => 0,
    }
}

/// Reads of `v` in the first `k` statements of a sequence.
pub open spec fn stmts_plain_reads(ss: Seq<Stmt>, v: Var, k: int) -> nat
    decreases k,
{
    if k <= 0 {
        0
    } else {
        stmts_plain_reads(ss, v, k - 1) + stmt_plain_reads(ss[k - 1]@, v)
    }
}

pub open spec fn stmts_fixed_reads(ss: Seq<Stmt>, v: Var, k: int) -> nat
    decreases k,
{
    if k <= 0 {
        0
    } else {
        stmts_fixed_reads(ss, v, k - 1) + stmt_fixed_reads(ss[k - 1]@, v)
    }
}

pub open spec fn block_plain_reads(bb: BasicBlock, v: Var) -> nat {
    stmts_plain_reads(bb.stmts@, v, bb.stmts@.len() as int) + term_plain_reads(bb.term, v)
}

pub open spec fn block_fixed_reads(bb: BasicBlock, v: Var) -> nat {
    stmts_fixed_reads(bb.stmts@, v, bb.stmts@.len() as int) + term_fixed_reads(bb.term, v)
}

/// Reads of `v` in the first `k` blocks of the graph.
pub open spec fn cfg_plain_reads_upto(c: Cfg, v: Var, k: int) -> nat
    decreases k,
{
    if k <= 0 {
        0
    } else {
        cfg_plain_reads_upto(c, v, k - 1) + block_plain_reads(c.blocks@[k - 1], v)
    }
}

pub open spec fn cfg_fixed_reads_upto(c: Cfg, v: Var, k: int) -> nat
    decreases k,
{
    if k <= 0 {
        0
    } else {
        cfg_fixed_reads_upto(c, v, k - 1) + block_fixed_reads(c.blocks@[k - 1], v)
    }
}

/// How often `v` is read at substitutable positions anywhere in the graph.
pub open spec fn cfg_plain_reads(c: Cfg, v: Var) -> nat {
    cfg_plain_reads_upto(c, v, c.blocks@.len() as int)
}

/// How often `v` is read at fixed positions anywhere in the graph.
pub open spec fn cfg_fixed_reads(c: Cfg, v: Var) -> nat {
    cfg_fixed_reads_upto(c, v, c.blocks@.len() as int)
}

/// Counts reads of `v` in an expression, clamped at two.
fn expr_reads_capped(e: &Expr, v: Var) -> (r: usize)
    ensures
        r == min2(expr_reads(e@, v)),
    decreases *e,
{
    match e {
        Expr::Const(_) => 0,
        Expr::Read(w) => if *w == v {
            1
        } else {
            0
        },
        Expr::Unary(_, a) => expr_reads_capped(a, v),
        Expr::Binary(_, a, b) => {
            let ra = expr_reads_capped(a, v);
            let rb = expr_reads_capped(b, v);
            if ra + rb >= 2 {
                2
            } else {
                ra + rb
            }
        },
        Expr::Load(a) => expr_reads_capped(a, v),
        Expr::Call(_, _) => 0,
        Expr::Phi(_) => 0,
    }
}

fn count_vars_capped(args: &Vec<Var>, v: Var) -> (r: usize)
    ensures
        r == min2(count_vars(args@, v)),
{
    let mut r: usize = 0;
    let mut k: usize = 0;
    while k < args.len()
        invariant
            k <= args@.len(),
            r == min2(count_vars(args@.subrange(0, k as int), v)),
        decreases args@.len() - k,
    {
        let ghost pre = args@.subrange(0, k as int);
        proof {
            assert(args@.subrange(0, k + 1 as int) =~= pre.push(args@[k as int]));
            lemma_count_vars_push(pre, args@[k as int], v);
        }
        if args[k] == v && r < 2 {
            r = r + 1;
        }
        k = k + 1;
    }
    proof {
        assert(args@.subrange(0, args@.len() as int) =~= args@);
    }
    r
}

proof fn lemma_count_vars_push(s: Seq<Var>, x: Var, v: Var)
    ensures
        count_vars(s.push(x), v) == count_vars(s, v) + (if x == v {
            1nat
        } else {
            0nat
        }),
    decreases s.len(),
{
    let sp = s.push(x);
    if s.len() == 0 {
        assert(sp[0] == x);
        assert(sp.drop_first() =~= Seq::<Var>::empty());
        assert(count_vars(sp.drop_first(), v) == 0);
    } else {
        assert(sp[0] == s[0]);
        assert(sp.drop_first() =~= s.drop_first().push(x));
        lemma_count_vars_push(s.drop_first(), x, v);
    }
}

fn count_phi_args_capped(args: &Vec<PhiArg>, v: Var) -> (r: usize)
    ensures
        r == min2(count_phi_args(args@, v)),
{
    let mut r: usize = 0;
    let mut k: usize = 0;
    while k < args.len()
        invariant
            k <= args@.len(),
            r == min2(count_phi_args(args@.subrange(0, k as int), v)),
        decreases args@.len() - k,
    {
        let ghost pre = args@.subrange(0, k as int);
        proof {
            assert(args@.subrange(0, k + 1 as int) =~= pre.push(args@[k as int]));
            lemma_count_phi_args_push(pre, args@[k as int], v);
        }
        if args[k].var == v && r < 2 {
            r = r + 1;
        }
        k = k + 1;
    }
    proof {
        assert(args@.subrange(0, args@.len() as int) =~= args@);
    }
    r
}

proof fn lemma_count_phi_args_push(s: Seq<PhiArg>, x: PhiArg, v: Var)
    ensures
        count_phi_args(s.push(x), v) == count_phi_args(s, v) + (if x.var == v {
            1nat
        } else {
            0nat
        }),
    decreases s.len(),
{
    let sp = s.push(x);
    if s.len() == 0 {
        assert(sp[0] == x);
        assert(sp.drop_first() =~= Seq::<PhiArg>::empty());
        assert(count_phi_args(sp.drop_first(), v) == 0);
    } else {
        assert(sp[0] == s[0]);
        assert(sp.drop_first() =~= s.drop_first().push(x));
        lemma_count_phi_args_push(s.drop_first(), x, v);
    }
}

/// Counts reads of `v` at fixed positions in an expression, clamped at two.
fn expr_fixed_reads_capped(e: &Expr, v: Var) -> (r: usize)
    ensures
        r == min2(expr_fixed_reads(e@, v)),
    decreases *e,
{
    match e {
        Expr::Const(_) => 0,
        Expr::Read(_) => 0,
        Expr::Unary(_, a) => expr_fixed_reads_capped(a, v),
        Expr::Binary(_, a, b) => {
            let ra = expr_fixed_reads_capped(a, v);
            let rb = expr_fixed_reads_capped(b, v);
            if ra + rb >= 2 {
                2
            } else {
                ra + rb
            }
        },
        Expr::Load(a) => expr_fixed_reads_capped(a, v),
        Expr::Call(_, args) => count_vars_capped(args, v),
        Expr::Phi(args) => count_phi_args_capped(args, v),
    }
}

fn add2(a: usize, b: usize) -> (r: usize)
    requires
        a <= 2,
        b <= 2,
    ensures
        r == min2((a + b) as nat),
{
    if a + b >= 2 {
        2
    } else {
        a + b
    }
}

/// Counts reads of `v` at substitutable positions in one statement, clamped
/// at two.
fn stmt_plain_reads_capped(s: &Stmt, v: Var) -> (r: usize)
    ensures
        r == min2(stmt_plain_reads(s@, v)),
{
    match s {
        Stmt::Assign(_, e) => expr_reads_capped(e, v),
        Stmt::Store(a, b) => add2(expr_reads_capped(a, v), expr_reads_capped(b, v)),
        Stmt::Discard(e) => expr_reads_capped(e, v),
        Stmt::Return(oe) => match oe {
            Some(e) => expr_reads_capped(e, v),
            None => 0,
        },
        _ => 0,
    }
}

fn stmt_fixed_reads_capped(s: &Stmt, v: Var) -> (r: usize)
    ensures
        r == min2(stmt_fixed_reads(s@, v)),
{
    match s {
        Stmt::Assign(_, e) => expr_fixed_reads_capped(e, v),
        Stmt::Store(a, b) => add2(expr_fixed_reads_capped(a, v), expr_fixed_reads_capped(b, v)),
        Stmt::Discard(e) => expr_fixed_reads_capped(e, v),
        Stmt::Return(oe) => match oe {
            Some(e) => expr_fixed_reads_capped(e, v),
            None => 0,
        },
        _ => 0,
    }
}

fn term_plain_reads_capped(t: &Term, v: Var) -> (r: usize)
    ensures
        r == min2(term_plain_reads(*t, v)),
{
    match t {
        Term::CondBr(c, _, _) => expr_reads_capped(c, v),
        Term::BrTable(e, _, _) => expr_reads_capped(e, v),
        Term::Return(oe) => match oe {
            Some(e) => expr_reads_capped(e, v),
            None => 0,
        },
        _ => 0,
    }
}

fn term_fixed_reads_capped(t: &Term, v: Var) -> (r: usize)
    ensures
        r == min2(term_fixed_reads(*t, v)),
{
    match t {
        Term::CondBr(c, _, _) => expr_fixed_reads_capped(c, v),
        Term::BrTable(e, _, _) => expr_fixed_reads_capped(e, v),
        Term::Return(oe) => match oe {
            Some(e) => expr_fixed_reads_capped(e, v),
            None => 0,
        },
        _ => 0,
    }
}

/// Counts reads of `v` anywhere in the graph, clamped at two, at
/// substitutable and at fixed positions.
pub fn cfg_reads_capped(cfg: &Cfg, v: Var) -> (r: (usize, usize))
    ensures
        r.0 == min2(cfg_plain_reads(*cfg, v)),
        r.1 == min2(cfg_fixed_reads(*cfg, v)),
{
    let mut plain: usize = 0;
    let mut fixed: usize = 0;
    let mut b: usize = 0;
    while b < cfg.blocks.len()
        invariant
            b <= cfg.blocks@.len(),
            plain == min2(cfg_plain_reads_upto(*cfg, v, b as int)),
            fixed == min2(cfg_fixed_reads_upto(*cfg, v, b as int)),
        decreases cfg.blocks@.len() - b,
    {
        let mut bp: usize = 0;
        let mut bf: usize = 0;
        let mut i: usize = 0;
        let nst = cfg.blocks[b].stmts.len();
        while i < nst
            invariant
                b < cfg.blocks@.len(),
                nst == cfg.blocks@[b as int].stmts@.len(),
                i <= nst,
                bp == min2(stmts_plain_reads(cfg.blocks@[b as int].stmts@, v, i as int)),
                bf == min2(stmts_fixed_reads(cfg.blocks@[b as int].stmts@, v, i as int)),
            decreases nst - i,
        {
            let sp = stmt_plain_reads_capped(&cfg.blocks[b].stmts[i], v);
            let sf = stmt_fixed_reads_capped(&cfg.blocks[b].stmts[i], v);
            bp = add2(bp, sp);
            bf = add2(bf, sf);
            i = i + 1;
        }
        let tp = term_plain_reads_capped(&cfg.blocks[b].term, v);
        let tf = term_fixed_reads_capped(&cfg.blocks[b].term, v);
        bp = add2(bp, tp);
        bf = add2(bf, tf);
        proof {
            assert(bp == min2(block_plain_reads(cfg.blocks@[b as int], v)));
            assert(bf == min2(block_fixed_reads(cfg.blocks@[b as int], v)));
        }
        plain = add2(plain, bp);
        fixed = add2(fixed, bf);
        b = b + 1;
    }
    (plain, fixed)
}

/// One SSA variable with its unique defining position and the positions that
/// read it (any position appears once, even when it reads the variable more
/// than once).
#[derive(Debug, Clone, PartialEq, Eq)]
pub struct DefUseEntry {
    pub var: Var,
    pub def_block: usize,
    pub def_stmt: usize,
    pub uses: Vec<(usize, usize)>,
}

/// For each SSA definition, its defining statement and its use sites.
/// Derived from the graph; recomputed rather than patched when the graph
/// changes.
#[derive(Debug, Clone, PartialEq, Eq)]
pub struct DefUseMap {
    pub entries: Vec<DefUseEntry>,
}

/// The target of the assignment at statement position `(b, i)`, if that
/// position holds an assignment.
pub open spec fn assign_target(c: Cfg, b: int, i: int) -> Option<Var> {
    if 0 <= b < c.blocks@.len() && 0 <= i < c.blocks@[b].stmts@.len() {
        match c.blocks@[b].stmts@[i] {
            Stmt::Assign(v, _) => Some(v),
            _ => None,
        }
    } else {
        None
    }
}

/// Statement position `(b, i)` reads `v` (at a substitutable or a fixed
/// position); `i` equal to the statement count means the terminator.
pub open spec fn position_reads(c: Cfg, b: int, i: int, v: Var) -> bool {
    if 0 <= b < c.blocks@.len() {
        if 0 <= i < c.blocks@[b].stmts@.len() {
            stmt_plain_reads(c.blocks@[b].stmts@[i]@, v) + stmt_fixed_reads(
                c.blocks@[b].stmts@[i]@,
                v,
            ) > 0
        } else if i == c.blocks@[b].stmts@.len() {
            term_plain_reads(c.blocks@[b].term, v) + term_fixed_reads(c.blocks@[b].term, v) > 0
        } else {
            false
        }
    } else {
        false
    }
}

impl DefUseMap {
    /// Every entry names a real definition, and every use site listed is a
    /// real read of the entry's variable.
    pub open spec fn sound_for(&self, c: Cfg) -> bool {
        &&& forall|k: int|
            0 <= k < self.entries@.len() ==> assign_target(
                c,
                (#[trigger] self.entries@[k]).def_block as int,
                self.entries@[k].def_stmt as int,
            ) == Some(self.entries@[k].var)
        &&& forall|k: int, u: int|
            0 <= k < self.entries@.len() && 0 <= u < (self.entries@[k]).uses@.len()
                ==> position_reads(
                c,
                (#[trigger] (self.entries@[k]).uses@[u]).0 as int,
                (self.entries@[k]).uses@[u].1 as int,
                self.entries@[k].var,
            )
        &&& forall|b: int, i: int|
            assign_target(c, b, i) is Some ==> exists|k: int|
                0 <= k < self.entries@.len() && (#[trigger] self.entries@[k]).def_block as int == b
                    && self.entries@[k].def_stmt as int == i && self.entries@[k].var
                    == assign_target(c, b, i)->0
    }
}

/// Builds the def-use map of a graph by scanning it: one entry per
/// assignment, listing every position that reads the assigned variable.
pub fn compute_def_use(cfg: &Cfg) -> (du: DefUseMap)
    ensures
        du.sound_for(*cfg),
{
    let mut entries: Vec<DefUseEntry> = Vec::new();
    let mut b: usize = 0;
    while b < cfg.blocks.len()
        invariant
            b <= cfg.blocks@.len(),
            forall|k: int|
                0 <= k < entries@.len() ==> assign_target(
                    *cfg,
                    (#[trigger] entries@[k]).def_block as int,
                    entries@[k].def_stmt as int,
                ) == Some(entries@[k].var),
            forall|k: int, u: int|
                0 <= k < entries@.len() && 0 <= u < (entries@[k]).uses@.len()
                    ==> position_reads(
                    *cfg,
                    (#[trigger] (entries@[k]).uses@[u]).0 as int,
                    (entries@[k]).uses@[u].1 as int,
                    entries@[k].var,
                ),
            forall|bb: int, i: int|
                0 <= bb < b && assign_target(*cfg, bb, i) is Some ==> exists|k: int|
                    0 <= k < entries@.len() && (#[trigger] entries@[k]).def_block as int == bb
                        && entries@[k].def_stmt as int == i && entries@[k].var == assign_target(
                        *cfg,
                        bb,
                        i,
                    )->0,
        decreases cfg.blocks@.len() - b,
    {
        let mut i: usize = 0;
        let nst = cfg.blocks[b].stmts.len();
        while i < nst
            invariant
                b < cfg.blocks@.len(),
                nst == cfg.blocks@[b as int].stmts@.len(),
                i <= nst,
                forall|k: int|
                    0 <= k < entries@.len() ==> assign_target(
                        *cfg,
                        (#[trigger] entries@[k]).def_block as int,
                        entries@[k].def_stmt as int,
                    ) == Some(entries@[k].var),
                forall|k: int, u: int|
                    0 <= k < entries@.len() && 0 <= u < (entries@[k]).uses@.len()
                        ==> position_reads(
                        *cfg,
                        (#[trigger] (entries@[k]).uses@[u]).0 as int,
                        (entries@[k]).uses@[u].1 as int,
                        entries@[k].var,
                    ),
                forall|bb: int, ii: int|
                    0 <= bb < b && assign_target(*cfg, bb, ii) is Some ==> exists|k: int|
                        0 <= k < entries@.len() && (#[trigger] entries@[k]).def_block as int == bb
                            && entries@[k].def_stmt as int == ii && entries@[k].var
                            == assign_target(*cfg, bb, ii)->0,
                forall|ii: int|
                    0 <= ii < i && assign_target(*cfg, b as int, ii) is Some ==> exists|k: int|
                        0 <= k < entries@.len() && (#[trigger] entries@[k]).def_block as int
                            == b as int && entries@[k].def_stmt as int == ii && entries@[k].var
                            == assign_target(*cfg, b as int, ii)->0,
            decreases nst - i,
        {
            let target: Option<Var> = match &cfg.blocks[b].stmts[i] {
                Stmt::Assign(v, _) => Some(*v),
                _ => None,
            };
            match target {
                Some(v) => {
                    let uses = find_uses(cfg, v);
                    let ghost old_entries = entries@;
                    entries.push(DefUseEntry { var: v, def_block: b, def_stmt: i, uses });
                    proof {
                        assert(assign_target(*cfg, b as int, i as int) == Some(v));
                        assert forall|bb: int, ii: int|
                            0 <= bb < b && assign_target(*cfg, bb, ii) is Some implies exists|
                            k: int,
                        |
                            0 <= k < entries@.len() && (#[trigger] entries@[k]).def_block as int
                                == bb && entries@[k].def_stmt as int == ii && entries@[k].var
                                == assign_target(*cfg, bb, ii)->0 by {
                            let k = choose|k: int|
                                0 <= k < old_entries.len() && (#[trigger] old_entries[k]).def_block
                                    as int == bb && old_entries[k].def_stmt as int == ii
                                    && old_entries[k].var == assign_target(*cfg, bb, ii)->0;
                            assert(entries@[k] == old_entries[k]);
                        }
                        assert forall|ii: int|
                            0 <= ii < i + 1 && assign_target(*cfg, b as int, ii) is Some implies
                            exists|k: int|
                                0 <= k < entries@.len() && (#[trigger] entries@[k]).def_block
                                    as int == b as int && entries@[k].def_stmt as int == ii
                                    && entries@[k].var == assign_target(*cfg, b as int, ii)->0 by {
                            if ii == i as int {
                                assert(entries@[entries@.len() - 1].def_block as int == b as int
                                    && entries@[entries@.len() - 1].def_stmt as int == ii
                                    && entries@[entries@.len() - 1].var == assign_target(
                                    *cfg,
                                    b as int,
                                    ii,
                                )->0);
                            } else {
                                let k = choose|k: int|
                                    0 <= k < old_entries.len() && (
                                    #[trigger] old_entries[k]).def_block as int == b as int
                                        && old_entries[k].def_stmt as int == ii
                                        && old_entries[k].var == assign_target(
                                        *cfg,
                                        b as int,
                                        ii,
                                    )->0;
                                assert(entries@[k] == old_entries[k]);
                            }
                        }
                    }
                },
                None => {},
            }
            i = i + 1;
        }
        b = b + 1;
    }
    DefUseMap { entries }
}

/// Lists every position of the graph that reads `v`.
fn find_uses(cfg: &Cfg, v: Var) -> (uses: Vec<(usize, usize)>)
    ensures
        forall|u: int|
            0 <= u < uses@.len() ==> position_reads(
                *cfg,
                (#[trigger] uses@[u]).0 as int,
                uses@[u].1 as int,
                v,
            ),
{
    let mut uses: Vec<(usize, usize)> = Vec::new();
    let mut b: usize = 0;
    while b < cfg.blocks.len()
        invariant
            b <= cfg.blocks@.len(),
            forall|u: int|
                0 <= u < uses@.len() ==> position_reads(
                    *cfg,
                    (#[trigger] uses@[u]).0 as int,
                    uses@[u].1 as int,
                    v,
                ),
        decreases cfg.blocks@.len() - b,
    {
        let mut i: usize = 0;
        let nst = cfg.blocks[b].stmts.len();
        while i < nst
            invariant
                b < cfg.blocks@.len(),
                nst == cfg.blocks@[b as int].stmts@.len(),
                i <= nst,
                forall|u: int|
                    0 <= u < uses@.len() ==> position_reads(
                        *cfg,
                        (#[trigger] uses@[u]).0 as int,
                        uses@[u].1 as int,
                        v,
                    ),
            decreases nst - i,
        {
            let sp = stmt_plain_reads_capped(&cfg.blocks[b].stmts[i], v);
            let sf = stmt_fixed_reads_capped(&cfg.blocks[b].stmts[i], v);
            if sp + sf > 0 {
                uses.push((b, i));
            }
            i = i + 1;
        }
        let tp = term_plain_reads_capped(&cfg.blocks[b].term, v);
        let tf = term_fixed_reads_capped(&cfg.blocks[b].term, v);
        if tp + tf > 0 {
            uses.push((b, nst));
        }
        b = b + 1;
    }
    uses
}

} // verus!

verus! {

/// Size of one statement sequence prefix, for the optimizer's termination
/// measure.
pub open spec fn stmts_sizes(ss: Seq<Stmt>, k: int) -> nat
    decreases k,
{
    if k <= 0 {
        0
    } else {
        stmts_sizes(ss, k - 1) + crate::ssa::stmt_size(ss[k - 1]@)
    }
}

pub open spec fn term_size(t: Term) -> nat {
    match t {
        Term::CondBr(c, _, _) => 1 + expr_size(c@),
        Term::BrTable(e, _, _) => 1 + expr_size(e@),
        Term::Return(oe) => if oe is Some {
            1 + expr_size(oe->0@)
        } else {
            1
        },
        _ => 1,
    }
}

pub open spec fn block_size(bb: BasicBlock) -> nat {
    stmts_sizes(bb.stmts@, bb.stmts@.len() as int) + term_size(bb.term)
}

pub open spec fn cfg_size_upto(c: Cfg, k: int) -> nat
    decreases k,
{
    if k <= 0 {
        0
    } else {
        cfg_size_upto(c, k - 1) + block_size(c.blocks@[k - 1])
    }
}

/// Total node count of a graph; every optimizer step strictly shrinks it.
pub open spec fn cfg_size(c: Cfg) -> nat {
    cfg_size_upto(c, c.blocks@.len() as int)
}

/// The definition at `(b, i)` can be forwarded to its use sites: a pure
/// right-hand side, no reads at fixed positions, and either a constant with
/// at least one use or exactly one use overall.
pub open spec fn is_prop_candidate(c: Cfg, b: int, i: int) -> bool {
    &&& 0 <= b < c.blocks@.len()
    &&& 0 <= i < c.blocks@[b].stmts@.len()
    &&& match c.blocks@[b].stmts@[i] {
        Stmt::Assign(v, e) => {
            &&& v.subscript > 0
            &&& expr_pure(e@)
            &&& cfg_fixed_reads(c, v) == 0
            &&& cfg_plain_reads(c, v) >= 1
            &&& ((e matches Expr::Const(_)) || cfg_plain_reads(c, v) == 1)
        },
        _ => false,
    }
}

/// Evaluating this expression has no observable effect (a pure expression or
/// a phi-operation), so an unused definition of it can be dropped.
pub open spec fn no_side_effect(e: ExprV) -> bool {
    expr_pure(e) || e is Phi
}

/// The definition at `(b, i)` is dead: no side effect and no remaining use.
pub open spec fn is_dead_candidate(c: Cfg, b: int, i: int) -> bool {
    &&& 0 <= b < c.blocks@.len()
    &&& 0 <= i < c.blocks@[b].stmts@.len()
    &&& match c.blocks@[b].stmts@[i] {
        Stmt::Assign(v, e) => {
            &&& v.subscript > 0
            &&& no_side_effect(e@)
            &&& cfg_plain_reads(c, v) == 0
            &&& cfg_fixed_reads(c, v) == 0
        },
        _ => false,
    }
}

/// The phi-operation at `(b, i)` is trivial: all of its inputs name one and
/// the same other variable, so it collapses to that variable.
pub open spec fn is_trivial_phi(c: Cfg, b: int, i: int) -> bool {
    &&& 0 <= b < c.blocks@.len()
    &&& 0 <= i < c.blocks@[b].stmts@.len()
    &&& match c.blocks@[b].stmts@[i] {
        Stmt::Assign(v, e) => match e {
            Expr::Phi(args) => {
                &&& v.subscript > 0
                &&& args@.len() >= 1
                &&& (forall|k: int| 0 <= k < args@.len() ==> (#[trigger] args@[k]).var == args@[0].var)
                &&& args@[0].var != v
            },
            _ => false,
        },
        _ => false,
    }
}

/// No forward-substitution step applies anywhere.
pub open spec fn no_prop_candidates(c: Cfg) -> bool {
    forall|b: int, i: int| !#[trigger] is_prop_candidate(c, b, i)
}

/// No dead definition and no trivial phi-operation remains.
pub open spec fn no_dead_candidates(c: Cfg) -> bool {
    &&& forall|b: int, i: int| !#[trigger] is_dead_candidate(c, b, i)
    &&& forall|b: int, i: int| !#[trigger] is_trivial_phi(c, b, i)
}

/// The optimizer's fixed point: no step of either pass applies.
pub open spec fn is_opt_fixpoint(c: Cfg) -> bool {
    no_prop_candidates(c) && no_dead_candidates(c)
}

proof fn lemma_expr_size_pos(e: ExprV)
    ensures
        expr_size(e) >= 1,
{
    match e {
        ExprV::Const(_) => {},
        ExprV::Read(_) => {},
        ExprV::Unary(_, _) => {},
        ExprV::Binary(_, _, _) => {},
        ExprV::Load(_) => {},
        ExprV::Call(_, _) => {},
        ExprV::Phi(_) => {},
    }
}

fn expr_pure_exec(e: &Expr) -> (r: bool)
    ensures
        r == expr_pure(e@),
    decreases *e,
{
    match e {
        Expr::Const(_) => true,
        Expr::Read(_) => true,
        Expr::Unary(_, a) => expr_pure_exec(a),
        Expr::Binary(op, a, b) => {
            let p = match op {
                crate::ssa::BinOp::DivS => false,
                crate::ssa::BinOp::DivU => false,
                crate::ssa::BinOp::RemS => false,
                crate::ssa::BinOp::RemU => false,
                _ => true,
            };
            p && expr_pure_exec(a) && expr_pure_exec(b)
        },
        Expr::Load(_) => false,
        Expr::Call(_, _) => false,
        Expr::Phi(_) => false,
    }
}

/// Replaces every substitutable read of `v` in `x` by `r`.
fn subst_expr(x: &Expr, v: Var, r: &Expr) -> (res: Expr)
    requires
        expr_size(r@) == 1 || expr_reads(x@, v) <= 1,
    ensures
        expr_size(res@) + 1 <= expr_size(x@) + expr_size(r@),
        expr_reads(x@, v) == 0 ==> res@ == x@,
    decreases *x,
{
    proof {
        lemma_expr_size_pos(r@);
        lemma_expr_size_pos(x@);
    }
    match x {
        Expr::Const(c) => Expr::Const(*c),
        Expr::Read(w) => {
            if *w == v {
                r.clone()
            } else {
                Expr::Read(*w)
            }
        },
        Expr::Unary(op, a) => {
            let na = subst_expr(a, v, r);
            Expr::Unary(*op, Box::new(na))
        },
        Expr::Binary(op, a, b) => {
            proof {
                lemma_expr_size_pos(a@);
                lemma_expr_size_pos(b@);
            }
            let na = subst_expr(a, v, r);
            let nb = subst_expr(b, v, r);
            let res = Expr::Binary(*op, Box::new(na), Box::new(nb));
            proof {
                if expr_reads(a@, v) == 0 && expr_reads(b@, v) == 0 {
                    assert(res@ =~= x@);
                } else if expr_reads(a@, v) == 0 {
                    assert(na@ == a@);
                } else if expr_reads(b@, v) == 0 {
                    assert(nb@ == b@);
                }
            }
            res
        },
        Expr::Load(a) => {
            let na = subst_expr(a, v, r);
            Expr::Load(Box::new(na))
        },
        Expr::Call(f, args) => {
            let res = Expr::Call(*f, crate::ssa::clone_vars(args));
            proof {
                assert(res@ =~= x@);
            }
            res
        },
        Expr::Phi(args) => {
            let res = Expr::Phi(crate::ssa::clone_phi_args(args));
            proof {
                assert(res@ =~= x@);
            }
            res
        },
    }
}

/// Replaces every substitutable read of `v` in a statement by `r`.
fn subst_stmt(s: &Stmt, v: Var, r: &Expr) -> (res: Stmt)
    requires
        expr_size(r@) == 1 || stmt_plain_reads(s@, v) <= 1,
    ensures
        crate::ssa::stmt_size(res@) + 1 <= crate::ssa::stmt_size(s@) + expr_size(r@),
        stmt_plain_reads(s@, v) == 0 ==> res@ == s@,
        match (s, res) {
            (Stmt::Assign(w1, _), Stmt::Assign(w2, _)) => w1 == w2,
            (Stmt::Assign(_, _), _) => false,
            (_, Stmt::Assign(_, _)) => false,
            _ => true,
        },
    decreases *s,
{
    proof {
        lemma_expr_size_pos(r@);
    }
    match s {
        Stmt::Assign(w, e) => Stmt::Assign(*w, subst_expr(e, v, r)),
        Stmt::Store(a, b) => {
            let na = subst_expr(a, v, r);
            let nb = subst_expr(b, v, r);
            let res = Stmt::Store(na, nb);
            proof {
                if expr_reads(a@, v) == 0 && expr_reads(b@, v) == 0 {
                    assert(res@ =~= s@);
                }
            }
            res
        },
        Stmt::Discard(e) => Stmt::Discard(subst_expr(e, v, r)),
        Stmt::Return(oe) => match oe {
            Some(e) => Stmt::Return(Some(subst_expr(e, v, r))),
            None => Stmt::Return(None),
        },
        Stmt::Trap => Stmt::Trap,
        // the low-level passes never see structured statements; keep them
        Stmt::If(_, _, _) => s.clone(),
        Stmt::Loop(_, _, _) => s.clone(),
        Stmt::Block(_) => s.clone(),
        Stmt::Break(d) => Stmt::Break(*d),
        Stmt::Continue(d) => Stmt::Continue(*d),
        Stmt::Goto(l) => Stmt::Goto(*l),
        Stmt::Label(l) => Stmt::Label(*l),
    }
}

/// Replaces every substitutable read of `v` in a terminator by `r`; targets
/// are untouched.
fn subst_term(t: &Term, v: Var, r: &Expr) -> (res: Term)
    requires
        expr_size(r@) == 1 || term_plain_reads(*t, v) <= 1,
    ensures
        term_size(res) + 1 <= term_size(*t) + expr_size(r@),
        crate::cfg::term_targets(res) == crate::cfg::term_targets(*t),
        term_plain_reads(*t, v) == 0 ==> term_size(res) == term_size(*t),
    decreases *t,
{
    proof {
        lemma_expr_size_pos(r@);
    }
    match t {
        Term::Br(x) => Term::Br(*x),
        Term::CondBr(c, a, b) => {
            let nc = subst_expr(c, v, r);
            let res = Term::CondBr(nc, *a, *b);
            proof {
                if expr_reads(c@, v) == 0 {
                    assert(nc@ == c@);
                }
                assert(crate::cfg::term_targets(res) =~= crate::cfg::term_targets(*t));
            }
            res
        },
        Term::BrTable(e, ts, d) => {
            let ne = subst_expr(e, v, r);
            let nts = crate::cfg::clone_targets(ts);
            let res = Term::BrTable(ne, nts, *d);
            proof {
                if expr_reads(e@, v) == 0 {
                    assert(ne@ == e@);
                }
                assert(crate::cfg::term_targets(res) =~= crate::cfg::term_targets(*t));
            }
            res
        },
        Term::Return(oe) => match oe {
            Some(e) => {
                let ne = subst_expr(e, v, r);
                let res = Term::Return(Some(ne));
                proof {
                    if expr_reads(e@, v) == 0 {
                        assert(ne@ == e@);
                    }
                    assert(crate::cfg::term_targets(res) =~= crate::cfg::term_targets(*t));
                }
                res
            },
            None => Term::Return(None),
        },
        Term::Trap => Term::Trap,
    }
}

} // verus!

verus! {

proof fn lemma_stmts_sizes_agree(s1: Seq<Stmt>, s2: Seq<Stmt>, k: int)
    requires
        forall|j: int| 0 <= j < k ==> s1[j] == s2[j],
    ensures
        stmts_sizes(s1, k) == stmts_sizes(s2, k),
    decreases k,
{
    if k > 0 {
        lemma_stmts_sizes_agree(s1, s2, k - 1);
    }
}

proof fn lemma_stmts_sizes_update(ss: Seq<Stmt>, i: int, ns: Stmt, k: int)
    requires
        0 <= i < ss.len(),
        k <= ss.len(),
    ensures
        i < k ==> stmts_sizes(ss.update(i, ns), k) + crate::ssa::stmt_size(ss[i]@) == stmts_sizes(
            ss,
            k,
        ) + crate::ssa::stmt_size(ns@),
        i >= k ==> stmts_sizes(ss.update(i, ns), k) == stmts_sizes(ss, k),
    decreases k,
{
    if k > 0 {
        lemma_stmts_sizes_update(ss, i, ns, k - 1);
        if i == k - 1 {
            assert(ss.update(i, ns)[k - 1] == ns);
        } else {
            assert(ss.update(i, ns)[k - 1] == ss[k - 1]);
        }
    }
}

proof fn lemma_stmts_sizes_remove(ss: Seq<Stmt>, i: int)
    requires
        0 <= i < ss.len(),
    ensures
        stmts_sizes(ss.remove(i), ss.len() - 1) + crate::ssa::stmt_size(ss[i]@) == stmts_sizes(
            ss,
            ss.len() as int,
        ),
    decreases ss.len(),
{
    let n = ss.len() as int;
    let rem = ss.remove(i);
    if i == n - 1 {
        assert(forall|j: int| 0 <= j < n - 1 ==> rem[j] == ss[j]);
        lemma_stmts_sizes_agree(rem, ss, n - 1);
    } else {
        let pre = ss.subrange(0, n - 1);
        assert(rem[n - 2] == ss[n - 1]);
        assert(stmts_sizes(rem, n - 1) == stmts_sizes(rem, n - 2) + crate::ssa::stmt_size(
            ss[n - 1]@,
        ));
        let rem2 = pre.remove(i);
        assert(forall|j: int| 0 <= j < n - 2 ==> rem[j] == rem2[j]);
        lemma_stmts_sizes_agree(rem, rem2, n - 2);
        lemma_stmts_sizes_remove(pre, i);
        assert(forall|j: int| 0 <= j < n - 1 ==> pre[j] == ss[j]);
        lemma_stmts_sizes_agree(pre, ss, n - 1);
        assert(pre[i] == ss[i]);
    }
}

proof fn lemma_cfg_size_agree(c1: Cfg, c2: Cfg, k: int)
    requires
        forall|j: int| 0 <= j < k ==> c1.blocks@[j] == c2.blocks@[j],
    ensures
        cfg_size_upto(c1, k) == cfg_size_upto(c2, k),
    decreases k,
{
    if k > 0 {
        lemma_cfg_size_agree(c1, c2, k - 1);
    }
}

/// Effect on the total size when one block changes.
proof fn lemma_cfg_size_update(c1: Cfg, c2: Cfg, b: int, k: int)
    requires
        0 <= b < c1.blocks@.len(),
        c2.blocks@ == c1.blocks@.update(b, c2.blocks@[b]),
        c2.blocks@.len() == c1.blocks@.len(),
        k <= c1.blocks@.len(),
    ensures
        b < k ==> cfg_size_upto(c2, k) + block_size(c1.blocks@[b]) == cfg_size_upto(c1, k)
            + block_size(c2.blocks@[b]),
        b >= k ==> cfg_size_upto(c2, k) == cfg_size_upto(c1, k),
    decreases k,
{
    if k > 0 {
        lemma_cfg_size_update(c1, c2, b, k - 1);
        if b == k - 1 {
        } else {
            assert(c2.blocks@[k - 1] == c1.blocks@.update(b, c2.blocks@[b])[k - 1]);
            assert(c2.blocks@[k - 1] == c1.blocks@[k - 1]);
        }
    }
}

proof fn lemma_stmt_le_stmts(ss: Seq<Stmt>, v: Var, i: int, k: int)
    requires
        0 <= i < k,
    ensures
        stmt_plain_reads(ss[i]@, v) <= stmts_plain_reads(ss, v, k),
    decreases k,
{
    if i < k - 1 {
        lemma_stmt_le_stmts(ss, v, i, k - 1);
    }
}

proof fn lemma_block_le_cfg(c: Cfg, v: Var, b: int, k: int)
    requires
        0 <= b < k,
    ensures
        block_plain_reads(c.blocks@[b], v) <= cfg_plain_reads_upto(c, v, k),
    decreases k,
{
    if b < k - 1 {
        lemma_block_le_cfg(c, v, b, k - 1);
    }
}

/// A read of `v` inside one statement is bounded by the graph-wide count.
proof fn lemma_stmt_reads_le_cfg(c: Cfg, v: Var, b: int, i: int)
    requires
        0 <= b < c.blocks@.len(),
        0 <= i < c.blocks@[b].stmts@.len(),
    ensures
        stmt_plain_reads(c.blocks@[b].stmts@[i]@, v) <= cfg_plain_reads(c, v),
{
    lemma_stmt_le_stmts(c.blocks@[b].stmts@, v, i, c.blocks@[b].stmts@.len() as int);
    lemma_block_le_cfg(c, v, b, c.blocks@.len() as int);
}

proof fn lemma_term_reads_le_cfg(c: Cfg, v: Var, b: int)
    requires
        0 <= b < c.blocks@.len(),
    ensures
        term_plain_reads(c.blocks@[b].term, v) <= cfg_plain_reads(c, v),
{
    lemma_block_le_cfg(c, v, b, c.blocks@.len() as int);
}

} // verus!

verus! {

/// What the candidate scan found at a position.
enum Found {
    Nothing,
    Prop,
    Dead,
    TrivPhi,
}

/// Classifies the statement at `(b, i)`.
fn check_position(cfg: &Cfg, b: usize, i: usize, do_prop: bool, do_dead: bool) -> (r: Found)
    requires
        (b as int) < cfg.blocks@.len(),
        (i as int) < cfg.blocks@[b as int].stmts@.len(),
    ensures
        r is Prop ==> do_prop && is_prop_candidate(*cfg, b as int, i as int),
        r is Dead ==> do_dead && is_dead_candidate(*cfg, b as int, i as int),
        r is TrivPhi ==> do_dead && is_trivial_phi(*cfg, b as int, i as int),
        r is Nothing ==> (do_prop ==> !is_prop_candidate(*cfg, b as int, i as int)) && (do_dead
            ==> !is_dead_candidate(*cfg, b as int, i as int) && !is_trivial_phi(
            *cfg,
            b as int,
            i as int,
        )),
{
    let target: Option<Var> = match &cfg.blocks[b].stmts[i] {
        Stmt::Assign(v, _) => Some(*v),
        _ => None,
    };
    let v = match target {
        Some(v) => v,
        None => {
            return Found::Nothing;
        },
    };
    if v.subscript == 0 {
        return Found::Nothing;
    }
    let counts = cfg_reads_capped(cfg, v);
    let plain = counts.0;
    let fixed = counts.1;
    let pure_rhs = match &cfg.blocks[b].stmts[i] {
        Stmt::Assign(_, e) => expr_pure_exec(e),
        _ => false,
    };
    let is_const = match &cfg.blocks[b].stmts[i] {
        Stmt::Assign(_, Expr::Const(_)) => true,
        _ => false,
    };
    let is_phi = match &cfg.blocks[b].stmts[i] {
        Stmt::Assign(_, Expr::Phi(_)) => true,
        _ => false,
    };
    if do_dead && (pure_rhs || is_phi) && plain == 0 && fixed == 0 {
        return Found::Dead;
    }
    if do_dead && is_phi {
        let trivial = match &cfg.blocks[b].stmts[i] {
            Stmt::Assign(_, Expr::Phi(args)) => {
                if args.len() == 0 {
                    false
                } else {
                    let w = args[0].var;
                    let mut all_same = true;
                    let mut k: usize = 0;
                    while k < args.len()
                        invariant
                            k <= args@.len(),
                            args@.len() >= 1,
                            w == args@[0].var,
                            all_same <==> forall|kk: int|
                                0 <= kk < k ==> (#[trigger] args@[kk]).var == args@[0].var,
                        decreases args@.len() - k,
                    {
                        if !(args[k].var == w) {
                            all_same = false;
                        }
                        proof {
                            if all_same {
                                assert forall|kk: int|
                                    0 <= kk < k + 1 implies (#[trigger] args@[kk]).var
                                    == args@[0].var by {}
                            }
                        }
                        k = k + 1;
                    }
                    all_same && !(w == v)
                }
            },
            _ => false,
        };
        if trivial {
            return Found::TrivPhi;
        }
        if do_prop {
            return Found::Nothing;
        }
        return Found::Nothing;
    }
    if do_prop && pure_rhs && fixed == 0 && plain >= 1 && (is_const || plain == 1) {
        return Found::Prop;
    }
    Found::Nothing
}

/// Scans the graph for the first applicable step of the enabled passes.
fn find_candidate(cfg: &Cfg, do_prop: bool, do_dead: bool) -> (r: Option<(Found, usize, usize)>)
    ensures
        match r {
            Some((f, b, i)) => {
                &&& (f is Prop ==> do_prop && is_prop_candidate(*cfg, b as int, i as int))
                &&& (f is Dead ==> do_dead && is_dead_candidate(*cfg, b as int, i as int))
                &&& (f is TrivPhi ==> do_dead && is_trivial_phi(*cfg, b as int, i as int))
                &&& !(f is Nothing)
            },
            None => {
                &&& (do_prop ==> no_prop_candidates(*cfg))
                &&& (do_dead ==> no_dead_candidates(*cfg))
            },
        },
{
    let mut b: usize = 0;
    while b < cfg.blocks.len()
        invariant
            b <= cfg.blocks@.len(),
            forall|bb: int, ii: int|
                0 <= bb < b && do_prop ==> !#[trigger] is_prop_candidate(*cfg, bb, ii),
            forall|bb: int, ii: int|
                0 <= bb < b && do_dead ==> !#[trigger] is_dead_candidate(*cfg, bb, ii),
            forall|bb: int, ii: int|
                0 <= bb < b && do_dead ==> !#[trigger] is_trivial_phi(*cfg, bb, ii),
        decreases cfg.blocks@.len() - b,
    {
        let mut i: usize = 0;
        let nst = cfg.blocks[b].stmts.len();
        while i < nst
            invariant
                b < cfg.blocks@.len(),
                nst == cfg.blocks@[b as int].stmts@.len(),
                i <= nst,
                forall|ii: int|
                    0 <= ii < i && do_prop ==> !#[trigger] is_prop_candidate(*cfg, b as int, ii),
                forall|ii: int|
                    0 <= ii < i && do_dead ==> !#[trigger] is_dead_candidate(*cfg, b as int, ii),
                forall|ii: int|
                    0 <= ii < i && do_dead ==> !#[trigger] is_trivial_phi(*cfg, b as int, ii),
            decreases nst - i,
        {
            let f = check_position(cfg, b, i, do_prop, do_dead);
            match f {
                Found::Nothing => {},
                _ => {
                    return Some((f, b, i));
                },
            }
            i = i + 1;
        }
        proof {
            assert forall|ii: int|
                do_prop implies !#[trigger] is_prop_candidate(*cfg, b as int, ii) by {
                if 0 <= ii < nst {
                } else {
                    assert(!is_prop_candidate(*cfg, b as int, ii));
                }
            }
            assert forall|ii: int|
                do_dead implies !#[trigger] is_dead_candidate(*cfg, b as int, ii) by {
                if 0 <= ii < nst {
                } else {
                    assert(!is_dead_candidate(*cfg, b as int, ii));
                }
            }
            assert forall|ii: int|
                do_dead implies !#[trigger] is_trivial_phi(*cfg, b as int, ii) by {
                if 0 <= ii < nst {
                } else {
                    assert(!is_trivial_phi(*cfg, b as int, ii));
                }
            }
        }
        b = b + 1;
    }
    proof {
        if do_prop {
            assert forall|bb: int, ii: int| true implies !#[trigger] is_prop_candidate(
                *cfg,
                bb,
                ii,
            ) by {
                if 0 <= bb < cfg.blocks@.len() {
                } else {
                    assert(!is_prop_candidate(*cfg, bb, ii));
                }
            }
        }
        if do_dead {
            assert forall|bb: int, ii: int| true implies !#[trigger] is_dead_candidate(
                *cfg,
                bb,
                ii,
            ) by {
                if 0 <= bb < cfg.blocks@.len() {
                } else {
                    assert(!is_dead_candidate(*cfg, bb, ii));
                }
            }
            assert forall|bb: int, ii: int| true implies !#[trigger] is_trivial_phi(
                *cfg,
                bb,
                ii,
            ) by {
                if 0 <= bb < cfg.blocks@.len() {
                } else {
                    assert(!is_trivial_phi(*cfg, bb, ii));
                }
            }
        }
    }
    None
}

/// Removes the assignment at `(b, i)`.
fn remove_stmt(cfg: &mut Cfg, b: usize, i: usize)
    requires
        old(cfg).wf(),
        (b as int) < old(cfg).blocks@.len(),
        (i as int) < old(cfg).blocks@[b as int].stmts@.len(),
    ensures
        final(cfg).wf(),
        cfg_size(*final(cfg)) + crate::ssa::stmt_size(old(cfg).blocks@[b as int].stmts@[i as int]@)
            == cfg_size(*old(cfg)),
        cfg_size(*final(cfg)) < cfg_size(*old(cfg)),
        final(cfg).succs == old(cfg).succs,
        final(cfg).preds == old(cfg).preds,
        final(cfg).blocks@.len() == old(cfg).blocks@.len(),
{
    let ghost c0 = *cfg;
    let _ = cfg.blocks[b].stmts.remove(i);
    proof {
        let c1 = *cfg;
        assert(c1.blocks@ =~= c0.blocks@.update(b as int, c1.blocks@[b as int]));
        lemma_stmts_sizes_remove(c0.blocks@[b as int].stmts@, i as int);
        assert(block_size(c1.blocks@[b as int]) + crate::ssa::stmt_size(
            c0.blocks@[b as int].stmts@[i as int]@,
        ) == block_size(c0.blocks@[b as int]));
        lemma_cfg_size_update(c0, c1, b as int, c0.blocks@.len() as int);
        assert(crate::cfg::same_shape(c0, c1));
        crate::cfg::lemma_same_shape_wf(c0, c1);
        crate::ssa::lemma_stmt_size_pos(c0.blocks@[b as int].stmts@[i as int]@);
    }
}

/// Substitutes `r` for every substitutable read of `v` in every statement and
/// terminator; `r` must be a single node (a constant or a variable read).
fn subst_all(cfg: &mut Cfg, v: Var, r: &Expr)
    requires
        old(cfg).wf(),
        expr_size(r@) == 1,
    ensures
        final(cfg).wf(),
        cfg_size(*final(cfg)) <= cfg_size(*old(cfg)),
        final(cfg).succs == old(cfg).succs,
        final(cfg).preds == old(cfg).preds,
        final(cfg).blocks@.len() == old(cfg).blocks@.len(),
{
    let ghost c0 = *cfg;
    let mut b: usize = 0;
    while b < cfg.blocks.len()
        invariant
            expr_size(r@) == 1,
            cfg.wf(),
            cfg.blocks@.len() == c0.blocks@.len(),
            cfg.succs == c0.succs,
            cfg.preds == c0.preds,
            b <= cfg.blocks@.len(),
            cfg_size(*cfg) <= cfg_size(c0),
        decreases cfg.blocks@.len() - b,
    {
        let mut i: usize = 0;
        while i < cfg.blocks[b].stmts.len()
            invariant
                expr_size(r@) == 1,
                cfg.wf(),
                cfg.blocks@.len() == c0.blocks@.len(),
                cfg.succs == c0.succs,
                cfg.preds == c0.preds,
                b < cfg.blocks@.len(),
                i <= cfg.blocks@[b as int].stmts@.len(),
                cfg_size(*cfg) <= cfg_size(c0),
            decreases cfg.blocks@[b as int].stmts@.len() - i,
        {
            let ghost c1 = *cfg;
            let ns = subst_stmt(&cfg.blocks[b].stmts[i], v, r);
            cfg.blocks[b].stmts[i] = ns;
            proof {
                let c2 = *cfg;
                assert(c2.blocks@ =~= c1.blocks@.update(b as int, c2.blocks@[b as int]));
                assert(c2.blocks@[b as int].stmts@ =~= c1.blocks@[b as int].stmts@.update(
                    i as int,
                    ns,
                ));
                lemma_stmts_sizes_update(
                    c1.blocks@[b as int].stmts@,
                    i as int,
                    ns,
                    c1.blocks@[b as int].stmts@.len() as int,
                );
                lemma_cfg_size_update(c1, c2, b as int, c1.blocks@.len() as int);
                assert(crate::cfg::same_shape(c1, c2));
                crate::cfg::lemma_same_shape_wf(c1, c2);
            }
            i = i + 1;
        }
        let ghost c1 = *cfg;
        let nt = subst_term(&cfg.blocks[b].term, v, r);
        cfg.blocks[b].term = nt;
        proof {
            let c2 = *cfg;
            assert(c2.blocks@ =~= c1.blocks@.update(b as int, c2.blocks@[b as int]));
            assert(c2.blocks@[b as int].stmts@ == c1.blocks@[b as int].stmts@);
            lemma_stmts_sizes_agree(
                c2.blocks@[b as int].stmts@,
                c1.blocks@[b as int].stmts@,
                c1.blocks@[b as int].stmts@.len() as int,
            );
            lemma_cfg_size_update(c1, c2, b as int, c1.blocks@.len() as int);
            assert(crate::cfg::same_shape(c1, c2));
            crate::cfg::lemma_same_shape_wf(c1, c2);
        }
        b = b + 1;
    }
}

} // verus!

verus! {

/// Computes the clamped read count of `v` in one block.
fn block_plain_capped(cfg: &Cfg, b: usize, v: Var) -> (r: usize)
    requires
        (b as int) < cfg.blocks@.len(),
    ensures
        r == min2(block_plain_reads(cfg.blocks@[b as int], v)),
{
    let mut bp: usize = 0;
    let mut i: usize = 0;
    let nst = cfg.blocks[b].stmts.len();
    while i < nst
        invariant
            b < cfg.blocks@.len(),
            nst == cfg.blocks@[b as int].stmts@.len(),
            i <= nst,
            bp == min2(stmts_plain_reads(cfg.blocks@[b as int].stmts@, v, i as int)),
        decreases nst - i,
    {
        let sp = stmt_plain_reads_capped(&cfg.blocks[b].stmts[i], v);
        bp = add2(bp, sp);
        i = i + 1;
    }
    let tp = term_plain_reads_capped(&cfg.blocks[b].term, v);
    add2(bp, tp)
}

/// Finds a position that reads `v` at a substitutable position; the third
/// component says the read sits in the block's terminator.
fn find_read_position(cfg: &Cfg, v: Var) -> (r: (usize, usize, bool))
    requires
        cfg_plain_reads(*cfg, v) >= 1,
    ensures
        (r.0 as int) < cfg.blocks@.len(),
        !r.2 ==> (r.1 as int) < cfg.blocks@[r.0 as int].stmts@.len() && stmt_plain_reads(
            cfg.blocks@[r.0 as int].stmts@[r.1 as int]@,
            v,
        ) >= 1,
        r.2 ==> term_plain_reads(cfg.blocks@[r.0 as int].term, v) >= 1,
{
    let mut b: usize = 0;
    while b < cfg.blocks.len()
        invariant
            cfg_plain_reads(*cfg, v) >= 1,
            b <= cfg.blocks@.len(),
            min2(cfg_plain_reads_upto(*cfg, v, b as int)) == 0,
        decreases cfg.blocks@.len() - b,
    {
        let bc = block_plain_capped(cfg, b, v);
        if bc >= 1 {
            let mut i: usize = 0;
            let nst = cfg.blocks[b].stmts.len();
            while i < nst
                invariant
                    b < cfg.blocks@.len(),
                    nst == cfg.blocks@[b as int].stmts@.len(),
                    i <= nst,
                    min2(block_plain_reads(cfg.blocks@[b as int], v)) >= 1,
                    min2(stmts_plain_reads(cfg.blocks@[b as int].stmts@, v, i as int)) == 0,
                decreases nst - i,
            {
                let sp = stmt_plain_reads_capped(&cfg.blocks[b].stmts[i], v);
                if sp >= 1 {
                    return (b, i, false);
                }
                i = i + 1;
            }
            proof {
                assert(stmts_plain_reads(cfg.blocks@[b as int].stmts@, v, nst as int) == 0);
                assert(term_plain_reads(cfg.blocks@[b as int].term, v) >= 1);
            }
            return (b, 0, true);
        }
        b = b + 1;
    }
    proof {
        assert(cfg_plain_reads_upto(*cfg, v, cfg.blocks@.len() as int) == 0);
        assert(false);
    }
    (0, 0, false)
}

/// Substitutes `r` for the reads of `v` at one position, leaving every other
/// position untouched.
fn subst_at(cfg: &mut Cfg, b: usize, i: usize, is_term: bool, v: Var, r: &Expr)
    requires
        old(cfg).wf(),
        (b as int) < old(cfg).blocks@.len(),
        !is_term ==> (i as int) < old(cfg).blocks@[b as int].stmts@.len() && stmt_plain_reads(
            old(cfg).blocks@[b as int].stmts@[i as int]@,
            v,
        ) <= 1,
        is_term ==> term_plain_reads(old(cfg).blocks@[b as int].term, v) <= 1,
    ensures
        final(cfg).wf(),
        cfg_size(*final(cfg)) + 1 <= cfg_size(*old(cfg)) + expr_size(r@),
        final(cfg).succs == old(cfg).succs,
        final(cfg).preds == old(cfg).preds,
        final(cfg).blocks@.len() == old(cfg).blocks@.len(),
        forall|x: int|
            0 <= x < old(cfg).blocks@.len() && x != b ==> final(cfg).blocks@[x] == old(
                cfg,
            ).blocks@[x],
        final(cfg).blocks@[b as int].stmts@.len() == old(cfg).blocks@[b as int].stmts@.len(),
        !is_term ==> forall|j: int|
            0 <= j < old(cfg).blocks@[b as int].stmts@.len() && j != i
                ==> final(cfg).blocks@[b as int].stmts@[j] == old(cfg).blocks@[b as int].stmts@[j],
        is_term ==> final(cfg).blocks@[b as int].stmts@ == old(cfg).blocks@[b as int].stmts@,
{
    let ghost c0 = *cfg;
    proof {
        lemma_expr_size_pos(r@);
    }
    if !is_term {
        let ns = subst_stmt(&cfg.blocks[b].stmts[i], v, r);
        cfg.blocks[b].stmts[i] = ns;
        proof {
            let c2 = *cfg;
            assert(c2.blocks@ =~= c0.blocks@.update(b as int, c2.blocks@[b as int]));
            assert(c2.blocks@[b as int].stmts@ =~= c0.blocks@[b as int].stmts@.update(
                i as int,
                ns,
            ));
            lemma_stmts_sizes_update(
                c0.blocks@[b as int].stmts@,
                i as int,
                ns,
                c0.blocks@[b as int].stmts@.len() as int,
            );
            lemma_cfg_size_update(c0, c2, b as int, c0.blocks@.len() as int);
            assert(crate::cfg::same_shape(c0, c2));
            crate::cfg::lemma_same_shape_wf(c0, c2);
        }
    } else {
        let nt = subst_term(&cfg.blocks[b].term, v, r);
        cfg.blocks[b].term = nt;
        proof {
            let c2 = *cfg;
            assert(c2.blocks@ =~= c0.blocks@.update(b as int, c2.blocks@[b as int]));
            assert(c2.blocks@[b as int].stmts@ == c0.blocks@[b as int].stmts@);
            lemma_stmts_sizes_agree(
                c2.blocks@[b as int].stmts@,
                c0.blocks@[b as int].stmts@,
                c0.blocks@[b as int].stmts@.len() as int,
            );
            lemma_cfg_size_update(c0, c2, b as int, c0.blocks@.len() as int);
            assert(crate::cfg::same_shape(c0, c2));
            crate::cfg::lemma_same_shape_wf(c0, c2);
        }
    }
}

} // verus!

verus! {

/// Renames every read of `v` (including call arguments and phi inputs) to
/// `w`; assignment targets are untouched and sizes are preserved.
fn subst_var_expr(x: &Expr, v: Var, w: Var) -> (res: Expr)
    ensures
        expr_size(res@) == expr_size(x@),
    decreases *x,
{
    match x {
        Expr::Const(c) => Expr::Const(*c),
        Expr::Read(u) => {
            if *u == v {
                Expr::Read(w)
            } else {
                Expr::Read(*u)
            }
        },
        Expr::Unary(op, a) => Expr::Unary(*op, Box::new(subst_var_expr(a, v, w))),
        Expr::Binary(op, a, b) => Expr::Binary(
            *op,
            Box::new(subst_var_expr(a, v, w)),
            Box::new(subst_var_expr(b, v, w)),
        ),
        Expr::Load(a) => Expr::Load(Box::new(subst_var_expr(a, v, w))),
        Expr::Call(f, args) => {
            let mut nargs: Vec<Var> = Vec::new();
            let mut k: usize = 0;
            while k < args.len()
                invariant
                    k <= args@.len(),
                    nargs@.len() == k,
                decreases args@.len() - k,
            {
                if args[k] == v {
                    nargs.push(w);
                } else {
                    nargs.push(args[k]);
                }
                k = k + 1;
            }
            Expr::Call(*f, nargs)
        },
        Expr::Phi(args) => {
            let mut nargs: Vec<PhiArg> = Vec::new();
            let mut k: usize = 0;
            while k < args.len()
                invariant
                    k <= args@.len(),
                    nargs@.len() == k,
                decreases args@.len() - k,
            {
                if args[k].var == v {
                    nargs.push(PhiArg { pred: args[k].pred, var: w });
                } else {
                    nargs.push(args[k]);
                }
                k = k + 1;
            }
            Expr::Phi(nargs)
        },
    }
}

fn subst_var_stmt(s: &Stmt, v: Var, w: Var) -> (res: Stmt)
    ensures
        crate::ssa::stmt_size(res@) == crate::ssa::stmt_size(s@),
        match (s, res) {
            (Stmt::Assign(t1, _), Stmt::Assign(t2, _)) => t1 == t2,
            (Stmt::Assign(_, _), _) => false,
            (_, Stmt::Assign(_, _)) => false,
            _ => true,
        },
    decreases *s,
{
    match s {
        Stmt::Assign(t, e) => Stmt::Assign(*t, subst_var_expr(e, v, w)),
        Stmt::Store(a, b) => Stmt::Store(subst_var_expr(a, v, w), subst_var_expr(b, v, w)),
        Stmt::Discard(e) => Stmt::Discard(subst_var_expr(e, v, w)),
        Stmt::Return(oe) => match oe {
            Some(e) => Stmt::Return(Some(subst_var_expr(e, v, w))),
            None => Stmt::Return(None),
        },
        Stmt::Trap => Stmt::Trap,
        Stmt::If(_, _, _) => s.clone(),
        Stmt::Loop(_, _, _) => s.clone(),
        Stmt::Block(_) => s.clone(),
        Stmt::Break(d) => Stmt::Break(*d),
        Stmt::Continue(d) => Stmt::Continue(*d),
        Stmt::Goto(l) => Stmt::Goto(*l),
        Stmt::Label(l) => Stmt::Label(*l),
    }
}

fn subst_var_term(t: &Term, v: Var, w: Var) -> (res: Term)
    ensures
        term_size(res) == term_size(*t),
        crate::cfg::term_targets(res) == crate::cfg::term_targets(*t),
    decreases *t,
{
    match t {
        Term::Br(x) => Term::Br(*x),
        Term::CondBr(c, a, b) => {
            let res = Term::CondBr(subst_var_expr(c, v, w), *a, *b);
            proof {
                assert(crate::cfg::term_targets(res) =~= crate::cfg::term_targets(*t));
            }
            res
        },
        Term::BrTable(e, ts, d) => {
            let res = Term::BrTable(subst_var_expr(e, v, w), crate::cfg::clone_targets(ts), *d);
            proof {
                assert(crate::cfg::term_targets(res) =~= crate::cfg::term_targets(*t));
            }
            res
        },
        Term::Return(oe) => {
            let res = match oe {
                Some(e) => Term::Return(Some(subst_var_expr(e, v, w))),
                None => Term::Return(None),
            };
            proof {
                assert(crate::cfg::term_targets(res) =~= crate::cfg::term_targets(*t));
            }
            res
        },
        Term::Trap => Term::Trap,
    }
}

/// Renames every read of `v` in the whole graph to `w`, preserving its size.
fn subst_var_all(cfg: &mut Cfg, v: Var, w: Var)
    requires
        old(cfg).wf(),
    ensures
        final(cfg).wf(),
        cfg_size(*final(cfg)) == cfg_size(*old(cfg)),
        final(cfg).succs == old(cfg).succs,
        final(cfg).preds == old(cfg).preds,
        final(cfg).blocks@.len() == old(cfg).blocks@.len(),
        forall|x: int, j: int|
            0 <= x < old(cfg).blocks@.len() && 0 <= j < old(cfg).blocks@[x].stmts@.len() ==> (
            final(cfg).blocks@[x].stmts@.len() == old(cfg).blocks@[x].stmts@.len()
                && ((#[trigger] old(cfg).blocks@[x].stmts@[j]) matches Stmt::Assign(t, _) ==> ((
            #[trigger] final(cfg).blocks@[x].stmts@[j]) matches Stmt::Assign(t2, _) && t2 == t))),
{
    let ghost c0 = *cfg;
    let mut b: usize = 0;
    while b < cfg.blocks.len()
        invariant
            cfg.wf(),
            cfg.blocks@.len() == c0.blocks@.len(),
            cfg.succs == c0.succs,
            cfg.preds == c0.preds,
            b <= cfg.blocks@.len(),
            cfg_size(*cfg) == cfg_size(c0),
            forall|x: int, j: int|
                0 <= x < c0.blocks@.len() && 0 <= j < c0.blocks@[x].stmts@.len() ==> (cfg.blocks@[x].stmts@.len()
                    == c0.blocks@[x].stmts@.len() && ((#[trigger] c0.blocks@[x].stmts@[j]) matches Stmt::Assign(
                    t,
                    _,
                ) ==> ((#[trigger] cfg.blocks@[x].stmts@[j]) matches Stmt::Assign(t2, _) && t2 == t))),
        decreases cfg.blocks@.len() - b,
    {
        let mut i: usize = 0;
        while i < cfg.blocks[b].stmts.len()
            invariant
                cfg.wf(),
                cfg.blocks@.len() == c0.blocks@.len(),
                cfg.succs == c0.succs,
                cfg.preds == c0.preds,
                b < cfg.blocks@.len(),
                i <= cfg.blocks@[b as int].stmts@.len(),
                cfg_size(*cfg) == cfg_size(c0),
                forall|x: int, j: int|
                    0 <= x < c0.blocks@.len() && 0 <= j < c0.blocks@[x].stmts@.len() ==> (
                    cfg.blocks@[x].stmts@.len() == c0.blocks@[x].stmts@.len() && ((#[trigger]
                    c0.blocks@[x].stmts@[j]) matches Stmt::Assign(t, _) ==> ((#[trigger]
                    cfg.blocks@[x].stmts@[j]) matches Stmt::Assign(t2, _) && t2 == t))),
            decreases cfg.blocks@[b as int].stmts@.len() - i,
        {
            let ghost c1 = *cfg;
            let is_assign_to: Option<Var> = match &cfg.blocks[b].stmts[i] {
                Stmt::Assign(t, _) => Some(*t),
                _ => None,
            };
            let ns = subst_var_stmt(&cfg.blocks[b].stmts[i], v, w);
            cfg.blocks[b].stmts[i] = ns;
            proof {
                let c2 = *cfg;
                assert(c2.blocks@ =~= c1.blocks@.update(b as int, c2.blocks@[b as int]));
                assert(c2.blocks@[b as int].stmts@ =~= c1.blocks@[b as int].stmts@.update(
                    i as int,
                    ns,
                ));
                lemma_stmts_sizes_update(
                    c1.blocks@[b as int].stmts@,
                    i as int,
                    ns,
                    c1.blocks@[b as int].stmts@.len() as int,
                );
                lemma_cfg_size_update(c1, c2, b as int, c1.blocks@.len() as int);
                assert(crate::cfg::same_shape(c1, c2));
                crate::cfg::lemma_same_shape_wf(c1, c2);
                assert forall|x: int, j: int|
                    0 <= x < c0.blocks@.len() && 0 <= j < c0.blocks@[x].stmts@.len() implies (
                c2.blocks@[x].stmts@.len() == c0.blocks@[x].stmts@.len() && ((#[trigger]
                c0.blocks@[x].stmts@[j]) matches Stmt::Assign(t, _) ==> ((#[trigger]
                c2.blocks@[x].stmts@[j]) matches Stmt::Assign(t2, _) && t2 == t))) by {
                    if x == b as int && j == i as int {
                        assert(c2.blocks@[x].stmts@[j] == ns);
                        assert(c1.blocks@[x].stmts@[j] matches Stmt::Assign(t, _) ==> (ns matches
                            Stmt::Assign(t2, _) && t2 == t));
                    } else if x == b as int {
                        assert(c2.blocks@[x].stmts@[j] == c1.blocks@[x].stmts@[j]);
                    } else {
                        assert(c2.blocks@[x] == c1.blocks@[x]);
                    }
                }
            }
            i = i + 1;
        }
        let ghost c1 = *cfg;
        let nt = subst_var_term(&cfg.blocks[b].term, v, w);
        cfg.blocks[b].term = nt;
        proof {
            let c2 = *cfg;
            assert(c2.blocks@ =~= c1.blocks@.update(b as int, c2.blocks@[b as int]));
            assert(c2.blocks@[b as int].stmts@ == c1.blocks@[b as int].stmts@);
            lemma_stmts_sizes_agree(
                c2.blocks@[b as int].stmts@,
                c1.blocks@[b as int].stmts@,
                c1.blocks@[b as int].stmts@.len() as int,
            );
            lemma_cfg_size_update(c1, c2, b as int, c1.blocks@.len() as int);
            assert(crate::cfg::same_shape(c1, c2));
            crate::cfg::lemma_same_shape_wf(c1, c2);
        }
        b = b + 1;
    }
}

} // verus!

verus! {

/// Applies one forward-substitution step at a known candidate.
fn apply_prop(cfg: &mut Cfg, b: usize, i: usize)
    requires
        old(cfg).wf(),
        is_prop_candidate(*old(cfg), b as int, i as int),
    ensures
        final(cfg).wf(),
        cfg_size(*final(cfg)) < cfg_size(*old(cfg)),
        final(cfg).succs == old(cfg).succs,
        final(cfg).preds == old(cfg).preds,
        final(cfg).blocks@.len() == old(cfg).blocks@.len(),
{
    let ghost c0 = *cfg;
    let pair: (Var, Expr) = match &cfg.blocks[b].stmts[i] {
        Stmt::Assign(v, e) => (*v, e.clone()),
        _ => {
            proof {
                assert(false);
            }
            (Var::no_sub(0), Expr::Const(0))
        },
    };
    let v = pair.0;
    let e = pair.1;
    let is_const = match &e {
        Expr::Const(_) => true,
        _ => false,
    };
    proof {
        assert(c0.blocks@[b as int].stmts@[i as int] matches Stmt::Assign(v2, e2) && v2 == v
            && e2@ == e@);
    }
    if is_const {
        remove_stmt(cfg, b, i);
        proof {
            assert(expr_size(e@) == 1);
        }
        subst_all(cfg, v, &e);
    } else {
        let pos = find_read_position(cfg, v);
        let ub = pos.0;
        let ui = pos.1;
        let uterm = pos.2;
        if !uterm && ub == b && ui == i {
            // the only read of v sits inside its own definition: the value is
            // unused elsewhere, so the pure definition can simply go
            remove_stmt(cfg, b, i);
        } else {
            proof {
                if !uterm {
                    lemma_stmt_reads_le_cfg(c0, v, ub as int, ui as int);
                } else {
                    lemma_term_reads_le_cfg(c0, v, ub as int);
                }
            }
            let ghost c1 = *cfg;
            subst_at(cfg, ub, ui, uterm, v, &e);
            proof {
                assert(cfg.blocks@[b as int].stmts@[i as int]
                    == c0.blocks@[b as int].stmts@[i as int]);
                crate::ssa::lemma_stmt_size_pos(c0.blocks@[b as int].stmts@[i as int]@);
                assert(crate::ssa::stmt_size(c0.blocks@[b as int].stmts@[i as int]@) == 1
                    + expr_size(e@));
            }
            remove_stmt(cfg, b, i);
        }
    }
}

/// Applies one trivial-phi collapse at a known candidate.
fn apply_triv_phi(cfg: &mut Cfg, b: usize, i: usize)
    requires
        old(cfg).wf(),
        is_trivial_phi(*old(cfg), b as int, i as int),
    ensures
        final(cfg).wf(),
        cfg_size(*final(cfg)) < cfg_size(*old(cfg)),
        final(cfg).succs == old(cfg).succs,
        final(cfg).preds == old(cfg).preds,
        final(cfg).blocks@.len() == old(cfg).blocks@.len(),
{
    let ghost c0 = *cfg;
    let pair: (Var, Var) = match &cfg.blocks[b].stmts[i] {
        Stmt::Assign(v, Expr::Phi(args)) => (*v, args[0].var),
        _ => {
            proof {
                assert(false);
            }
            (Var::no_sub(0), Var::no_sub(0))
        },
    };
    let v = pair.0;
    let w = pair.1;
    subst_var_all(cfg, v, w);
    proof {
        assert(c0.blocks@[b as int].stmts@[i as int] matches Stmt::Assign(t, _) && t == v);
        assert(cfg.blocks@[b as int].stmts@[i as int] matches Stmt::Assign(t2, _) && t2 == v);
    }
    remove_stmt(cfg, b, i);
}

/// Performs one step of the enabled passes, if any applies.
fn opt_step(cfg: &mut Cfg, do_prop: bool, do_dead: bool) -> (changed: bool)
    requires
        old(cfg).wf(),
    ensures
        final(cfg).wf(),
        final(cfg).succs == old(cfg).succs,
        final(cfg).preds == old(cfg).preds,
        final(cfg).blocks@.len() == old(cfg).blocks@.len(),
        changed ==> cfg_size(*final(cfg)) < cfg_size(*old(cfg)),
        !changed ==> *final(cfg) == *old(cfg),
        !changed && do_prop ==> no_prop_candidates(*final(cfg)),
        !changed && do_dead ==> no_dead_candidates(*final(cfg)),
        changed ==> !(no_prop_candidates(*old(cfg)) && no_dead_candidates(*old(cfg))),
        changed && !do_dead ==> !no_prop_candidates(*old(cfg)),
        changed && !do_prop ==> !no_dead_candidates(*old(cfg)),
{
    let found = find_candidate(cfg, do_prop, do_dead);
    match found {
        None => false,
        Some((f, b, i)) => {
            match f {
                Found::Prop => {
                    proof {
                        assert(!no_prop_candidates(*cfg)) by {
                            assert(is_prop_candidate(*cfg, b as int, i as int));
                        }
                    }
                    apply_prop(cfg, b, i);
                    true
                },
                Found::Dead => {
                    proof {
                        assert(!no_dead_candidates(*cfg)) by {
                            assert(is_dead_candidate(*cfg, b as int, i as int));
                        }
                    }
                    remove_stmt(cfg, b, i);
                    true
                },
                Found::TrivPhi => {
                    proof {
                        assert(!no_dead_candidates(*cfg)) by {
                            assert(is_trivial_phi(*cfg, b as int, i as int));
                        }
                    }
                    apply_triv_phi(cfg, b, i);
                    true
                },
                Found::Nothing => {
                    proof {
                        assert(false);
                    }
                    false
                },
            }
        },
    }
}

/// Forward substitution of single-use definitions and constants, run to its
/// own fixed point. Running it on a graph with no candidate changes nothing.
pub fn propagate_expressions(cfg: &mut Cfg, def_use_map: &mut DefUseMap) -> (changed: bool)
    requires
        old(cfg).wf(),
    ensures
        final(cfg).wf(),
        no_prop_candidates(*final(cfg)),
        !changed ==> *final(cfg) == *old(cfg),
        no_prop_candidates(*old(cfg)) ==> *final(cfg) == *old(cfg),
        changed ==> cfg_size(*final(cfg)) < cfg_size(*old(cfg)),
        crate::cfg::same_shape(*old(cfg), *final(cfg)),
        (*final(def_use_map)).sound_for(*final(cfg)),
{
    let mut changed = false;
    let mut go = true;
    while go
        invariant
            cfg.wf(),
            cfg.succs == old(cfg).succs,
            cfg.preds == old(cfg).preds,
            cfg.blocks@.len() == old(cfg).blocks@.len(),
            !go ==> no_prop_candidates(*cfg),
            !changed ==> *cfg == *old(cfg),
            changed ==> cfg_size(*cfg) < cfg_size(*old(cfg)),
            !changed && !go ==> no_prop_candidates(*old(cfg)),
            no_prop_candidates(*old(cfg)) ==> *cfg == *old(cfg),
        decreases cfg_size(*cfg) + (if go {
            1nat
        } else {
            0nat
        }),
    {
        let c = opt_step(cfg, true, false);
        if c {
            changed = true;
        } else {
            go = false;
        }
    }
    proof {
        crate::cfg::lemma_shape_from_edges(*old(cfg), *cfg);
    }
    *def_use_map = compute_def_use(cfg);
    changed
}

/// Dead-code elimination: removes side-effect-free definitions with no
/// remaining use and collapses trivial phi-operations, run to its own fixed
/// point. Running it on a graph with no candidate changes nothing.
pub fn eliminate_dead_code(cfg: &mut Cfg, def_use_map: &mut DefUseMap) -> (changed: bool)
    requires
        old(cfg).wf(),
    ensures
        final(cfg).wf(),
        no_dead_candidates(*final(cfg)),
        !changed ==> *final(cfg) == *old(cfg),
        no_dead_candidates(*old(cfg)) ==> *final(cfg) == *old(cfg),
        changed ==> cfg_size(*final(cfg)) < cfg_size(*old(cfg)),
        crate::cfg::same_shape(*old(cfg), *final(cfg)),
        (*final(def_use_map)).sound_for(*final(cfg)),
{
    let mut changed = false;
    let mut go = true;
    while go
        invariant
            cfg.wf(),
            cfg.succs == old(cfg).succs,
            cfg.preds == old(cfg).preds,
            cfg.blocks@.len() == old(cfg).blocks@.len(),
            !go ==> no_dead_candidates(*cfg),
            !changed ==> *cfg == *old(cfg),
            changed ==> cfg_size(*cfg) < cfg_size(*old(cfg)),
            !changed && !go ==> no_dead_candidates(*old(cfg)),
            no_dead_candidates(*old(cfg)) ==> *cfg == *old(cfg),
        decreases cfg_size(*cfg) + (if go {
            1nat
        } else {
            0nat
        }),
    {
        let c = opt_step(cfg, false, true);
        if c {
            changed = true;
        } else {
            go = false;
        }
    }
    proof {
        crate::cfg::lemma_shape_from_edges(*old(cfg), *cfg);
    }
    *def_use_map = compute_def_use(cfg);
    changed
}

/// Both cleanup passes iterated to their joint fixed point. Afterwards no
/// propagation or elimination step applies anywhere, and running the
/// optimizer on an already-optimized graph leaves it untouched — running it
/// twice in a row never changes anything on the second run.
pub fn optimize(cfg: &mut Cfg, def_use_map: &mut DefUseMap)
    requires
        old(cfg).wf(),
    ensures
        final(cfg).wf(),
        is_opt_fixpoint(*final(cfg)),
        is_opt_fixpoint(*old(cfg)) ==> *final(cfg) == *old(cfg),
        crate::cfg::same_shape(*old(cfg), *final(cfg)),
        (*final(def_use_map)).sound_for(*final(cfg)),
{
    let mut go = true;
    while go
        invariant
            cfg.wf(),
            cfg.succs == old(cfg).succs,
            cfg.preds == old(cfg).preds,
            cfg.blocks@.len() == old(cfg).blocks@.len(),
            !go ==> is_opt_fixpoint(*cfg),
            is_opt_fixpoint(*old(cfg)) ==> *cfg == *old(cfg),
        decreases cfg_size(*cfg) + (if go {
            1nat
        } else {
            0nat
        }),
    {
        let c = opt_step(cfg, true, true);
        if !c {
            go = false;
        }
    }
    proof {
        crate::cfg::lemma_shape_from_edges(*old(cfg), *cfg);
    }
    *def_use_map = compute_def_use(cfg);
}

} // verus!
