//! The structuring engine: turns the (phi-free) control-flow graph into a
//! tree of structured statements — sequences, if/else and loops — falling
//! back to labeled blocks and explicit jumps only where an edge cannot be
//! expressed structurally, so the transformation never fails on a
//! well-formed graph. Every region is processed exactly once: the engine
//! returns, besides the statements, the list of block indices it consumed,
//! and that list is a permutation of the region it was given.

use vstd::prelude::*;
use vstd::multiset::Multiset;

use crate::cfg::Cfg;
use crate::cfg::Term;
use crate::dominance::compute_dominators;
use crate::dominance::doms_shape;
use crate::dominance::natural_loop;
use crate::ssa::clone_stmts;
use crate::ssa::BinOp;
use crate::ssa::Expr;
use crate::ssa::LoopKind;
use crate::ssa::Stmt;
use crate::ssa::UnOp;
use crate::ssa::Var;

verus! {

/// One enclosing loop while structuring its body: jumps back to `header`
/// become `Continue`, jumps to `exit` become `Break`.
#[derive(Debug, Clone, Copy, PartialEq, Eq, Structural)]
pub struct LoopCtx {
    pub header: usize,
    pub exit: usize,
    pub has_exit: bool,
}

/// Renders a jump to `t` structurally: nothing when `t` is where control
/// falls anyway, `Continue`/`Break` for the enclosing loops, and a raw
/// `Goto` only as the last resort.
fn resolve_jump(t: usize, ctx: &Vec<LoopCtx>, next: Option<usize>) -> (out: Vec<Stmt>)
    ensures
        vec_payload(out@) =~= Multiset::<StmtV>::empty(),
{
    proof {
        lemma_vec_payload_empty();
    }
    match next {
        Some(nx) => {
            if nx == t {
                return Vec::new();
            }
        },
        None => {
            // at the tail of a loop body, falling back to the header is the
            // loop's own back edge
            if ctx.len() > 0 && ctx[ctx.len() - 1].header == t {
                return Vec::new();
            }
        },
    }
    let mut k: usize = ctx.len();
    while k > 0
        invariant
            k <= ctx@.len(),
        decreases k,
    {
        k = k - 1;
        let depth = ctx.len() - 1 - k;
        if ctx[k].header == t {
            let mut out: Vec<Stmt> = Vec::new();
            out.push(Stmt::Continue(depth));
            proof {
                lemma_vec_payload_push(Seq::<Stmt>::empty(), Stmt::Continue(depth));
                lemma_vec_payload_empty();
            }
            return out;
        }
        if ctx[k].has_exit && ctx[k].exit == t {
            let mut out: Vec<Stmt> = Vec::new();
            out.push(Stmt::Break(depth));
            proof {
                lemma_vec_payload_push(Seq::<Stmt>::empty(), Stmt::Break(depth));
                lemma_vec_payload_empty();
            }
            return out;
        }
    }
    let mut out: Vec<Stmt> = Vec::new();
    out.push(Stmt::Goto(t));
    proof {
        lemma_vec_payload_push(Seq::<Stmt>::empty(), Stmt::Goto(t));
        lemma_vec_payload_empty();
    }
    out
}

/// Renders a terminator structurally.
fn resolve_term(t: &Term, ctx: &Vec<LoopCtx>, next: Option<usize>) -> (out: Vec<Stmt>)
    ensures
        vec_payload(out@) =~= term_payload(*t),
{
    proof {
        lemma_vec_payload_empty();
    }
    match t {
        Term::Br(x) => resolve_jump(*x, ctx, next),
        Term::CondBr(c, a, b) => {
            let ra = resolve_jump(*a, ctx, next);
            let rb = resolve_jump(*b, ctx, next);
            if ra.len() == 0 && rb.len() == 0 {
                Vec::new()
            } else {
                let mut out: Vec<Stmt> = Vec::new();
                let ghost ra_v = ra@;
                let ghost rb_v = rb@;
                let s = Stmt::If(c.clone(), ra, rb);
                proof {
                    assert(stmt_payload(s@) =~= Multiset::<StmtV>::empty()) by {
                        assert(s@ matches StmtV::If(_, tv, ev) && tv == stmts_view(ra_v) && ev
                            == stmts_view(rb_v));
                    }
                }
                out.push(s);
                proof {
                    lemma_vec_payload_push(Seq::<Stmt>::empty(), out@[0]);
                }
                out
            }
        },
        Term::BrTable(sel, ts, d) => {
            let mut out: Vec<Stmt> = Vec::new();
            let mut k: usize = 0;
            while k < ts.len()
                invariant
                    k <= ts@.len(),
                    vec_payload(out@) =~= Multiset::<StmtV>::empty(),
                decreases ts@.len() - k,
            {
                let case_jump = resolve_jump(ts[k], ctx, None);
                let ghost cj_v = case_jump@;
                let ghost out_pre = out@;
                let s = Stmt::If(
                    Expr::Binary(
                        BinOp::Eq,
                        Box::new(sel.clone()),
                        Box::new(Expr::Const(k as i64)),
                    ),
                    case_jump,
                    Vec::new(),
                );
                proof {
                    assert(stmt_payload(s@) =~= Multiset::<StmtV>::empty()) by {
                        assert(s@ matches StmtV::If(_, tv, ev) && tv == stmts_view(cj_v) && ev
                            == stmts_view(Seq::<Stmt>::empty()));
                        lemma_vec_payload_empty();
                    }
                }
                out.push(s);
                proof {
                    lemma_vec_payload_push(out_pre, out@[out@.len() - 1]);
                }
                k = k + 1;
            }
            let mut dflt = resolve_jump(*d, ctx, next);
            let ghost out_pre = out@;
            let ghost dflt_v = dflt@;
            out.append(&mut dflt);
            proof {
                lemma_vec_payload_concat(out_pre, dflt_v);
            }
            out
        },
        Term::Return(oe) => {
            let mut out: Vec<Stmt> = Vec::new();
            match oe {
                Some(e) => {
                    let s = Stmt::Return(Some(e.clone()));
                    proof {
                        assert(s@ == StmtV::Return(Some(e@)));
                    }
                    out.push(s);
                },
                None => out.push(Stmt::Return(None)),
            }
            proof {
                lemma_vec_payload_push(Seq::<Stmt>::empty(), out@[0]);
            }
            out
        },
        Term::Trap => {
            let mut out: Vec<Stmt> = Vec::new();
            out.push(Stmt::Trap);
            proof {
                lemma_vec_payload_push(Seq::<Stmt>::empty(), out@[0]);
            }
            out
        },
    }
}

/// The statements of one block, prefixed with its label marker.
fn emit_block(cfg: &Cfg, b: usize) -> (out: Vec<Stmt>)
    requires
        (b as int) < cfg.blocks@.len(),
    ensures
        vec_payload(out@) =~= stmts_payload(stmts_view(cfg.blocks@[b as int].stmts@)),
{
    let mut out: Vec<Stmt> = Vec::new();
    out.push(Stmt::Label(b));
    proof {
        lemma_vec_payload_push(Seq::<Stmt>::empty(), out@[0]);
        lemma_vec_payload_empty();
    }
    let mut body = clone_stmts(&cfg.blocks[b].stmts);
    let ghost out_pre = out@;
    let ghost body_v = body@;
    out.append(&mut body);
    proof {
        lemma_vec_payload_concat(out_pre, body_v);
        assert(stmts_view(body_v) == stmts_view(cfg.blocks@[b as int].stmts@));
    }
    out
}

/// Structures one region: a list of block indices in forward order. Emits
/// the region as nested statements and returns the indices it consumed; the
/// engine touches each block of the region exactly once, so the consumed
/// list is a permutation of the region.
pub fn structure_region(
    cfg: &Cfg,
    doms: &Vec<Vec<bool>>,
    region: &Vec<usize>,
    ctx: &Vec<LoopCtx>,
    follow: Option<usize>,
) -> (r: (Vec<Stmt>, Vec<usize>))
    requires
        cfg.wf(),
        doms_shape(*cfg, doms@),
        forall|k: int| 0 <= k < region@.len() ==> ((#[trigger] region@[k]) as int) < cfg.n(),
    ensures
        r.1@.to_multiset() == region@.to_multiset(),
        vec_payload(r.0@) == region_payload(*cfg, region@),
    decreases region@.len(),
{
    broadcast use vstd::seq_lib::group_to_multiset_ensures;
    broadcast use vstd::multiset::group_multiset_axioms;

    if region.len() == 0 {
        let r: (Vec<Stmt>, Vec<usize>) = (Vec::new(), Vec::new());
        proof {
            assert(r.1@.to_multiset() =~= region@.to_multiset());
            lemma_vec_payload_empty();
            assert(vec_payload(r.0@) =~= region_payload(*cfg, region@));
        }
        return r;
    }
    let h = region[0];
    // the tail of the region, after the head block
    let mut rest: Vec<usize> = Vec::new();
    let mut q: usize = 1;
    while q < region.len()
        invariant
            region@.len() >= 1,
            1 <= q <= region@.len(),
            rest@ == region@.subrange(1, q as int),
        decreases region@.len() - q,
    {
        rest.push(region[q]);
        q = q + 1;
    }
    proof {
        assert(rest@ =~= region@.drop_first());
        assert(region@ =~= seq![h] + rest@);
        vstd::seq_lib::lemma_multiset_commutative(seq![h], rest@);
        assert(seq![h].to_multiset() =~= Multiset::empty().insert(h)) by {
            assert(seq![h] =~= Seq::empty().push(h));
        }
        assert(region_payload(*cfg, region@) =~= block_payload(cfg.blocks@[h as int]).add(
            region_payload(*cfg, rest@),
        )) by {
            assert(region@[0] == h);
            assert(region@.drop_first() == rest@);
        }
    }
    // is the head a loop header with a back edge from inside the region?
    let lp = natural_loop(cfg, doms, h);
    let mut is_header = false;
    let mut k: usize = 0;
    while k < rest.len()
        invariant
            k <= rest@.len(),
            lp@.len() == cfg.n(),
            forall|j: int| 0 <= j < rest@.len() ==> ((#[trigger] rest@[j]) as int) < cfg.n(),
        decreases rest@.len() - k,
    {
        if lp[rest[k]] {
            is_header = true;
        }
        k = k + 1;
    }
    if is_header {
        // split the tail into the loop body and what follows the loop
        let mut body: Vec<usize> = Vec::new();
        let mut after: Vec<usize> = Vec::new();
        let mut k2: usize = 0;
        while k2 < rest.len()
            invariant
                k2 <= rest@.len(),
                lp@.len() == cfg.n(),
                forall|j: int| 0 <= j < rest@.len() ==> ((#[trigger] rest@[j]) as int) < cfg.n(),
                forall|j: int| 0 <= j < body@.len() ==> ((#[trigger] body@[j]) as int) < cfg.n(),
                forall|j: int| 0 <= j < after@.len() ==> ((#[trigger] after@[j]) as int) < cfg.n(),
                body@.to_multiset().add(after@.to_multiset()) =~= rest@.subrange(
                    0,
                    k2 as int,
                ).to_multiset(),
                body@.len() + after@.len() == k2,
        decreases rest@.len() - k2,
        {
            let x = rest[k2];
            let ghost bprev = body@;
            let ghost aprev = after@;
            proof {
                assert(rest@.subrange(0, k2 + 1 as int) =~= rest@.subrange(0, k2 as int).push(x));
                vstd::seq_lib::to_multiset_build(rest@.subrange(0, k2 as int), x);
            }
            if lp[x] {
                body.push(x);
                proof {
                    assert(body@ == bprev.push(x));
                    vstd::seq_lib::to_multiset_build(bprev, x);
                    assert(body@.to_multiset() =~= bprev.to_multiset().insert(x));
                    assert(body@.to_multiset().add(after@.to_multiset()) =~= rest@.subrange(
                        0,
                        k2 + 1 as int,
                    ).to_multiset());
                }
            } else {
                after.push(x);
                proof {
                    assert(after@ == aprev.push(x));
                    vstd::seq_lib::to_multiset_build(aprev, x);
                    assert(after@.to_multiset() =~= aprev.to_multiset().insert(x));
                    assert(body@.to_multiset().add(after@.to_multiset()) =~= rest@.subrange(
                        0,
                        k2 + 1 as int,
                    ).to_multiset());
                }
            }
            k2 = k2 + 1;
        }
        proof {
            assert(rest@.subrange(0, rest@.len() as int) =~= rest@);
            vstd::seq_lib::lemma_multiset_commutative(body@, after@);
            lemma_region_payload_concat(*cfg, body@, after@);
            lemma_region_payload_permutation(*cfg, rest@, body@ + after@);
            assert(region_payload(*cfg, rest@) =~= region_payload(*cfg, body@).add(
                region_payload(*cfg, after@),
            ));
        }
        let ghost body_v = body@;
        let ghost after_v = after@;
        // where a break out of this loop lands
        let has_exit = after.len() > 0;
        let exit = if has_exit {
            after[0]
        } else {
            0
        };
        let mut ctx2: Vec<LoopCtx> = clone_ctx(ctx);
        ctx2.push(LoopCtx { header: h, exit, has_exit });
        // a while loop: empty header whose test picks body or exit
        let mut pretest: Option<Expr> = None;
        if cfg.blocks[h].stmts.len() == 0 {
            match &cfg.blocks[h].term {
                Term::CondBr(c, a, b) => {
                    proof {
                        assert((cfg.succs@[h as int])@ == crate::cfg::term_targets(
                            cfg.blocks@[h as int].term,
                        ));
                        assert((cfg.succs@[h as int])@[0] == *a);
                        assert((cfg.succs@[h as int])@[1] == *b);
                    }
                    let a_in = lp[*a];
                    let b_in = lp[*b];
                    if a_in && !b_in && (!has_exit || *b == exit) && (body.len() == 0 || body[0]
                        == *a) {
                        pretest = Some(c.clone());
                    } else if b_in && !a_in && (!has_exit || *a == exit) && (body.len() == 0
                        || body[0] == *b) {
                        pretest = Some(Expr::Unary(UnOp::Not, Box::new(c.clone())));
                    }
                },
                _ => {},
            }
        }
        let mut out: Vec<Stmt> = Vec::new();
        let mut ids: Vec<usize> = Vec::new();
        ids.push(h);
        match pretest {
            Some(c) => {
                let inner = structure_region(cfg, doms, &body, &ctx2, None);
                let mut inner_ids = inner.1;
                let inner_stmts = inner.0;
                let ghost inner_v = inner_stmts@;
                let s = Stmt::Loop(LoopKind::PreTest, Some(c), inner_stmts);
                proof {
                    // a while loop has an empty header whose terminator is
                    // the loop's own test, so the header adds no payload
                    assert(cfg.blocks@[h as int].stmts@.len() == 0);
                    assert(term_payload(cfg.blocks@[h as int].term) =~= Multiset::empty());
                    assert(block_payload(cfg.blocks@[h as int]) =~= Multiset::empty());
                    assert(stmt_payload(s@) =~= region_payload(*cfg, body_v)) by {
                        assert(s@ matches StmtV::Loop(_, _, bv) && bv == stmts_view(inner_v));
                    }
                }
                let ghost out_pre = out@;
                out.push(s);
                proof {
                    lemma_vec_payload_push(out_pre, out@[out@.len() - 1]);
                    lemma_vec_payload_empty();
                    assert(vec_payload(out@) =~= block_payload(cfg.blocks@[h as int]).add(
                        region_payload(*cfg, body_v),
                    ));
                }
                let ghost g_pre = ids@;
                let ghost g_inner = inner_ids@;
                ids.append(&mut inner_ids);
                proof {
                    vstd::seq_lib::lemma_multiset_commutative(g_pre, g_inner);
                    assert(ids@ == g_pre + g_inner);
                }
            },
            None => {
                // general loop: the header runs first inside the body
                let mut lbody = emit_block(cfg, h);
                let hnext = if body.len() > 0 {
                    Some(body[0])
                } else {
                    None
                };
                let mut hterm = resolve_term(&cfg.blocks[h].term, &ctx2, hnext);
                let ghost lb0 = lbody@;
                let ghost ht_v = hterm@;
                lbody.append(&mut hterm);
                proof {
                    lemma_vec_payload_concat(lb0, ht_v);
                }
                let inner = structure_region(cfg, doms, &body, &ctx2, None);
                let mut inner_ids = inner.1;
                let mut inner_stmts = inner.0;
                let ghost lb1 = lbody@;
                let ghost inner_v = inner_stmts@;
                lbody.append(&mut inner_stmts);
                proof {
                    lemma_vec_payload_concat(lb1, inner_v);
                    assert(vec_payload(lbody@) =~= block_payload(cfg.blocks@[h as int]).add(
                        region_payload(*cfg, body_v),
                    ));
                }
                let ghost lb_v = lbody@;
                let s = Stmt::Loop(LoopKind::Infinite, None, lbody);
                proof {
                    assert(stmt_payload(s@) =~= vec_payload(lb_v)) by {
                        assert(s@ matches StmtV::Loop(_, _, bv) && bv == stmts_view(lb_v));
                    }
                }
                let ghost out_pre = out@;
                out.push(s);
                proof {
                    lemma_vec_payload_push(out_pre, out@[out@.len() - 1]);
                    lemma_vec_payload_empty();
                    assert(vec_payload(out@) =~= block_payload(cfg.blocks@[h as int]).add(
                        region_payload(*cfg, body_v),
                    ));
                }
                let ghost g_pre = ids@;
                let ghost g_inner = inner_ids@;
                ids.append(&mut inner_ids);
                proof {
                    vstd::seq_lib::lemma_multiset_commutative(g_pre, g_inner);
                    assert(ids@ == g_pre + g_inner);
                }
            },
        }
        let tail = structure_region(cfg, doms, &after, ctx, follow);
        let mut tail_ids = tail.1;
        let mut tail_stmts = tail.0;
        let ghost out_pre2 = out@;
        let ghost tail_v = tail_stmts@;
        out.append(&mut tail_stmts);
        let ghost g_pre2 = ids@;
        let ghost g_tail = tail_ids@;
        ids.append(&mut tail_ids);
        proof {
            vstd::seq_lib::lemma_multiset_commutative(g_pre2, g_tail);
            assert(ids@ == g_pre2 + g_tail);
            assert(Seq::<usize>::empty().push(h).to_multiset() =~= Multiset::empty().insert(h))
                by {
                vstd::seq_lib::to_multiset_build(Seq::<usize>::empty(), h);
                assert(Seq::<usize>::empty().to_multiset() =~= Multiset::empty());
            }
            assert(ids@.to_multiset() =~= region@.to_multiset());
            lemma_vec_payload_concat(out_pre2, tail_v);
            assert(vec_payload(out@) =~= region_payload(*cfg, region@));
        }
        return (out, ids);
    }
    // the head is no loop header: emit it and try an if/else merge
    let mut out = emit_block(cfg, h);
    let mut ids: Vec<usize> = Vec::new();
    ids.push(h);
    // a structured diamond returns from inside the match; falling through
    // means the head gets the plain-sequence treatment
    let _diamond: bool = match &cfg.blocks[h].term {
        Term::CondBr(c, a, b) => {
            proof {
                assert((cfg.succs@[h as int])@ == crate::cfg::term_targets(
                    cfg.blocks@[h as int].term,
                ));
                assert((cfg.succs@[h as int])@[0] == *a);
                assert((cfg.succs@[h as int])@[1] == *b);
            }
            let a_in = contains_usize_pub(&rest, *a);
            let b_in = contains_usize_pub(&rest, *b);
            if a_in && b_in && *a != *b {
                // diamond: split the tail by which arm dominates it
                let mut tgrp: Vec<usize> = Vec::new();
                let mut egrp: Vec<usize> = Vec::new();
                let mut rgrp: Vec<usize> = Vec::new();
                let mut k3: usize = 0;
                while k3 < rest.len()
                    invariant
                        k3 <= rest@.len(),
                        doms_shape(*cfg, doms@),
                        cfg.wf(),
                        ((*a) as int) < cfg.n(),
                        ((*b) as int) < cfg.n(),
                        forall|j: int|
                            0 <= j < rest@.len() ==> ((#[trigger] rest@[j]) as int) < cfg.n(),
                        forall|j: int|
                            0 <= j < tgrp@.len() ==> ((#[trigger] tgrp@[j]) as int) < cfg.n(),
                        forall|j: int|
                            0 <= j < egrp@.len() ==> ((#[trigger] egrp@[j]) as int) < cfg.n(),
                        forall|j: int|
                            0 <= j < rgrp@.len() ==> ((#[trigger] rgrp@[j]) as int) < cfg.n(),
                        tgrp@.to_multiset().add(egrp@.to_multiset()).add(rgrp@.to_multiset())
                            =~= rest@.subrange(0, k3 as int).to_multiset(),
                        tgrp@.len() + egrp@.len() + rgrp@.len() == k3,
                    decreases rest@.len() - k3,
                {
                    let x = rest[k3];
                    let ghost tprev = tgrp@;
                    let ghost eprev = egrp@;
                    let ghost rprev = rgrp@;
                    proof {
                        assert(rest@.subrange(0, k3 + 1 as int) =~= rest@.subrange(
                            0,
                            k3 as int,
                        ).push(x));
                        vstd::seq_lib::to_multiset_build(rest@.subrange(0, k3 as int), x);
                    }
                    if doms[x][*a] {
                        tgrp.push(x);
                        proof {
                            assert(tgrp@ == tprev.push(x));
                            vstd::seq_lib::to_multiset_build(tprev, x);
                            assert(tgrp@.to_multiset() =~= tprev.to_multiset().insert(x));
                            assert(tgrp@.to_multiset().add(egrp@.to_multiset()).add(
                                rgrp@.to_multiset(),
                            ) =~= rest@.subrange(0, k3 + 1 as int).to_multiset());
                        }
                    } else if doms[x][*b] {
                        egrp.push(x);
                        proof {
                            assert(egrp@ == eprev.push(x));
                            vstd::seq_lib::to_multiset_build(eprev, x);
                            assert(egrp@.to_multiset() =~= eprev.to_multiset().insert(x));
                            assert(tgrp@.to_multiset().add(egrp@.to_multiset()).add(
                                rgrp@.to_multiset(),
                            ) =~= rest@.subrange(0, k3 + 1 as int).to_multiset());
                        }
                    } else {
                        rgrp.push(x);
                        proof {
                            assert(rgrp@ == rprev.push(x));
                            vstd::seq_lib::to_multiset_build(rprev, x);
                            assert(rgrp@.to_multiset() =~= rprev.to_multiset().insert(x));
                            assert(tgrp@.to_multiset().add(egrp@.to_multiset()).add(
                                rgrp@.to_multiset(),
                            ) =~= rest@.subrange(0, k3 + 1 as int).to_multiset());
                        }
                    }
                    k3 = k3 + 1;
                }
                proof {
                    assert(rest@.subrange(0, rest@.len() as int) =~= rest@);
                }
                let t_ok = tgrp.len() > 0 && tgrp[0] == *a;
                let e_ok = egrp.len() > 0 && egrp[0] == *b;
                if t_ok && e_ok {
                    let join: Option<usize> = if rgrp.len() > 0 {
                        Some(rgrp[0])
                    } else {
                        follow
                    };
                    proof {
                        vstd::seq_lib::lemma_multiset_commutative(tgrp@, egrp@);
                        vstd::seq_lib::lemma_multiset_commutative(tgrp@ + egrp@, rgrp@);
                        lemma_region_payload_concat(*cfg, tgrp@ + egrp@, rgrp@);
                        lemma_region_payload_concat(*cfg, tgrp@, egrp@);
                        lemma_region_payload_permutation(*cfg, rest@, (tgrp@ + egrp@) + rgrp@);
                        assert(region_payload(*cfg, rest@) =~= region_payload(*cfg, tgrp@).add(
                            region_payload(*cfg, egrp@),
                        ).add(region_payload(*cfg, rgrp@)));
                    }
                    let ghost tgrp_v = tgrp@;
                    let ghost egrp_v = egrp@;
                    let ghost rgrp_v = rgrp@;
                    let tr = structure_region(cfg, doms, &tgrp, ctx, join);
                    let er = structure_region(cfg, doms, &egrp, ctx, join);
                    let ghost tr_v = tr.0@;
                    let ghost er_v = er.0@;
                    let s = Stmt::If(c.clone(), tr.0, er.0);
                    proof {
                        assert(stmt_payload(s@) =~= region_payload(*cfg, tgrp_v).add(
                            region_payload(*cfg, egrp_v),
                        )) by {
                            assert(s@ matches StmtV::If(_, tv, ev) && tv == stmts_view(tr_v) && ev
                                == stmts_view(er_v));
                        }
                    }
                    let ghost out_h = out@;
                    out.push(s);
                    proof {
                        lemma_vec_payload_push(out_h, out@[out@.len() - 1]);
                    }
                    let rr = structure_region(cfg, doms, &rgrp, ctx, follow);
                    let mut tids = tr.1;
                    let mut eids = er.1;
                    let mut rids = rr.1;
                    let mut rstmts = rr.0;
                    let ghost out_if = out@;
                    let ghost rst_v = rstmts@;
                    out.append(&mut rstmts);
                    proof {
                        lemma_vec_payload_concat(out_if, rst_v);
                    }
                    let ghost g0 = ids@;
                    let ghost gt = tids@;
                    ids.append(&mut tids);
                    proof {
                        vstd::seq_lib::lemma_multiset_commutative(g0, gt);
                        assert(ids@ == g0 + gt);
                    }
                    let ghost g1 = ids@;
                    let ghost ge = eids@;
                    ids.append(&mut eids);
                    proof {
                        vstd::seq_lib::lemma_multiset_commutative(g1, ge);
                        assert(ids@ == g1 + ge);
                    }
                    let ghost g2 = ids@;
                    let ghost gr = rids@;
                    ids.append(&mut rids);
                    proof {
                        vstd::seq_lib::lemma_multiset_commutative(g2, gr);
                        assert(ids@ == g2 + gr);
                        assert(Seq::<usize>::empty().push(h).to_multiset() =~= Multiset::empty().insert(h)) by {
                            vstd::seq_lib::to_multiset_build(Seq::<usize>::empty(), h);
                            assert(Seq::<usize>::empty().to_multiset() =~= Multiset::empty());
                        }
                        assert(ids@.to_multiset() =~= region@.to_multiset());
                        // a conditional header carries no terminator payload
                        assert(term_payload(cfg.blocks@[h as int].term) =~= Multiset::empty());
                        assert(vec_payload(out@) =~= region_payload(*cfg, region@));
                    }
                    return (out, ids);
                } else {
                    false
                }
            } else {
                false
            }
        },
        _ => false,
    };
    // plain sequence: resolve the terminator and continue with the tail
    let next = if rest.len() > 0 {
        Some(rest[0])
    } else {
        follow
    };
    let mut jumps = resolve_term(&cfg.blocks[h].term, ctx, next);
    let ghost out_h2 = out@;
    let ghost jumps_v = jumps@;
    out.append(&mut jumps);
    proof {
        lemma_vec_payload_concat(out_h2, jumps_v);
    }
    let tail = structure_region(cfg, doms, &rest, ctx, follow);
    let mut tail_ids = tail.1;
    let mut tail_stmts = tail.0;
    let ghost out_t2 = out@;
    let ghost tail_v2 = tail_stmts@;
    out.append(&mut tail_stmts);
    let ghost g_pre3 = ids@;
    let ghost g_tail3 = tail_ids@;
    ids.append(&mut tail_ids);
    proof {
        vstd::seq_lib::lemma_multiset_commutative(g_pre3, g_tail3);
        assert(ids@ == g_pre3 + g_tail3);
        assert(Seq::<usize>::empty().push(h).to_multiset() =~= Multiset::empty().insert(h)) by {
            vstd::seq_lib::to_multiset_build(Seq::<usize>::empty(), h);
            assert(Seq::<usize>::empty().to_multiset() =~= Multiset::empty());
        }
        assert(ids@.to_multiset() =~= region@.to_multiset());
        lemma_vec_payload_concat(out_t2, tail_v2);
        assert(vec_payload(out@) =~= region_payload(*cfg, region@));
    }
    (out, ids)
}

fn clone_ctx(v: &Vec<LoopCtx>) -> (r: Vec<LoopCtx>)
    ensures
        r@ == v@,
{
    let mut r: Vec<LoopCtx> = Vec::new();
    let mut i: usize = 0;
    while i < v.len()
        invariant
            i <= v@.len(),
            r@ == v@.subrange(0, i as int),
        decreases v@.len() - i,
    {
        r.push(v[i]);
        i = i + 1;
    }
    proof {
        assert(r@ =~= v@);
    }
    r
}

fn contains_usize_pub(v: &Vec<usize>, x: usize) -> (r: bool)
    ensures
        r == v@.contains(x),
{
    let mut k: usize = 0;
    while k < v.len()
        invariant
            k <= v@.len(),
            forall|j: int| 0 <= j < k ==> v@[j] != x,
        decreases v@.len() - k,
    {
        if v[k] == x {
            return true;
        }
        k = k + 1;
    }
    false
}

/// Collects every `Goto` target of a statement tree.
fn collect_gotos(stmts: &Vec<Stmt>, acc: &mut Vec<usize>)
    decreases stmts@,
{
    let mut i: usize = 0;
    while i < stmts.len()
        invariant
            i <= stmts@.len(),
        decreases stmts@.len() - i,
    {
        match &stmts[i] {
            Stmt::Goto(t) => {
                acc.push(*t);
            },
            Stmt::If(_, a, b) => {
                collect_gotos(a, acc);
                collect_gotos(b, acc);
            },
            Stmt::Loop(_, _, b) => {
                collect_gotos(b, acc);
            },
            Stmt::Block(b) => {
                collect_gotos(b, acc);
            },
            _ => {},
        }
        i = i + 1;
    }
}

/// Drops every label marker that no `Goto` needs; every observable
/// statement stays, with its multiplicity.
fn strip_labels(stmts: &Vec<Stmt>, keep: &Vec<usize>) -> (out: Vec<Stmt>)
    ensures
        vec_payload(out@) == vec_payload(stmts@),
    decreases stmts@,
{
    broadcast use vstd::multiset::group_multiset_axioms;
    broadcast use crate::ssa::lemma_stmts_view_index;

    let mut out: Vec<Stmt> = Vec::new();
    proof {
        lemma_vec_payload_empty();
        assert(stmts@.subrange(0, 0) =~= Seq::<Stmt>::empty());
    }
    let mut i: usize = 0;
    while i < stmts.len()
        invariant
            i <= stmts@.len(),
            vec_payload(out@) =~= vec_payload(stmts@.subrange(0, i as int)),
        decreases stmts@.len() - i,
    {
        let ghost out_pre = out@;
        match &stmts[i] {
            Stmt::Label(l) => {
                if contains_usize_pub(keep, *l) {
                    out.push(Stmt::Label(*l));
                    proof {
                        lemma_vec_payload_push(out_pre, out@[out@.len() - 1]);
                    }
                }
            },
            Stmt::If(c, a, b) => {
                let sa = strip_labels(a, keep);
                let sb = strip_labels(b, keep);
                let ghost sa_v = sa@;
                let ghost sb_v = sb@;
                let ghost a_v = a@;
                let ghost b_v = b@;
                let s = Stmt::If(c.clone(), sa, sb);
                proof {
                    assert(stmt_payload(s@) =~= stmt_payload(stmts@[i as int]@)) by {
                        assert(s@ matches StmtV::If(_, tv, ev) && tv == stmts_view(sa_v) && ev
                            == stmts_view(sb_v));
                        assert(stmts@[i as int]@ matches StmtV::If(_, tv, ev) && tv == stmts_view(
                            a_v,
                        ) && ev == stmts_view(b_v));
                    }
                }
                out.push(s);
                proof {
                    lemma_vec_payload_push(out_pre, out@[out@.len() - 1]);
                }
            },
            Stmt::Loop(k, oc, b) => {
                let noc = match oc {
                    Some(c) => Some(c.clone()),
                    None => None,
                };
                let sb = strip_labels(b, keep);
                let ghost sb_v = sb@;
                let ghost b_v = b@;
                let s = Stmt::Loop(*k, noc, sb);
                proof {
                    assert(stmt_payload(s@) =~= stmt_payload(stmts@[i as int]@)) by {
                        assert(s@ matches StmtV::Loop(_, _, bv) && bv == stmts_view(sb_v));
                        assert(stmts@[i as int]@ matches StmtV::Loop(_, _, bv) && bv == stmts_view(
                            b_v,
                        ));
                    }
                }
                out.push(s);
                proof {
                    lemma_vec_payload_push(out_pre, out@[out@.len() - 1]);
                }
            },
            Stmt::Block(b) => {
                let sb = strip_labels(b, keep);
                let ghost sb_v = sb@;
                let ghost b_v = b@;
                let s = Stmt::Block(sb);
                proof {
                    assert(stmt_payload(s@) =~= stmt_payload(stmts@[i as int]@)) by {
                        assert(s@ matches StmtV::Block(bv) && bv == stmts_view(sb_v));
                        assert(stmts@[i as int]@ matches StmtV::Block(bv) && bv == stmts_view(b_v));
                    }
                }
                out.push(s);
                proof {
                    lemma_vec_payload_push(out_pre, out@[out@.len() - 1]);
                }
            },
            _ => {
                let s = stmts[i].clone();
                out.push(s);
                proof {
                    lemma_vec_payload_push(out_pre, out@[out@.len() - 1]);
                }
            },
        }
        proof {
            assert(stmts@.subrange(0, i + 1 as int) =~= stmts@.subrange(0, i as int).push(
                stmts@[i as int],
            ));
            lemma_vec_payload_push(stmts@.subrange(0, i as int), stmts@[i as int]);
            assert(vec_payload(out@) =~= vec_payload(stmts@.subrange(0, i + 1 as int)));
        }
        i = i + 1;
    }
    proof {
        assert(stmts@.subrange(0, stmts@.len() as int) =~= stmts@);
    }
    out
}

/// The declarations the rendered function needs: one per register index that
/// is ever assigned.
fn collect_decls(cfg: &Cfg) -> (decls: Vec<Var>)
{
    let mut seen: Vec<u32> = Vec::new();
    let mut decls: Vec<Var> = Vec::new();
    let mut b: usize = 0;
    while b < cfg.blocks.len()
        invariant
            b <= cfg.blocks@.len(),
        decreases cfg.blocks@.len() - b,
    {
        let mut i: usize = 0;
        while i < cfg.blocks[b].stmts.len()
            invariant
                b < cfg.blocks@.len(),
                i <= cfg.blocks@[b as int].stmts@.len(),
            decreases cfg.blocks@[b as int].stmts@.len() - i,
        {
            match &cfg.blocks[b].stmts[i] {
                Stmt::Assign(v, _) => {
                    let mut k: usize = 0;
                    let mut found = false;
                    while k < seen.len()
                        invariant
                            k <= seen@.len(),
                        decreases seen@.len() - k,
                    {
                        if seen[k] == v.index {
                            found = true;
                        }
                        k = k + 1;
                    }
                    if !found {
                        seen.push(v.index);
                        decls.push(Var::no_sub(v.index));
                    }
                },
                _ => {},
            }
            i = i + 1;
        }
        b = b + 1;
    }
    decls
}

/// `code` is a faithful structuring of the graph `c`: the graph is
/// well-formed and free of phi-operations, and the tree carries exactly the
/// observable statements of the graph's blocks.
pub open spec fn structured_from(code: Seq<Stmt>, c: Cfg) -> bool {
    &&& c.wf()
    &&& no_phis(c)
    &&& vec_payload(code) == cfg_payload(c)
}

/// The statements are a faithful structuring of some well-formed, phi-free
/// graph.
pub open spec fn structured_output(code: Vec<Stmt>) -> bool {
    exists|c: Cfg| #[trigger] structured_from(code@, c)
}

/// Consumes a well-formed, phi-free graph and produces the local-variable
/// declarations and the structured statement tree. Total on every
/// well-formed graph: an irreducible or otherwise unstructurable region
/// falls back to a labeled block and an explicit jump. The tree carries
/// exactly the statements of the graph's blocks (all reachable, since the
/// graph is well-formed), each block contributing exactly once.
pub fn structure(cfg: Cfg) -> (r: (Vec<Var>, Vec<Stmt>))
    requires
        cfg.wf(),
    ensures
        vec_payload(r.1@) == cfg_payload(cfg),
{
    let decls = collect_decls(&cfg);
    let doms = compute_dominators(&cfg);
    let n = cfg.blocks.len();
    let mut region: Vec<usize> = Vec::new();
    let mut b: usize = 0;
    while b < n
        invariant
            n == cfg.n(),
            b <= n,
            region@.len() == b,
            forall|k: int| 0 <= k < b ==> region@[k] == k as usize,
            forall|k: int| 0 <= k < b ==> ((#[trigger] region@[k]) as int) < n,
        decreases n - b,
    {
        region.push(b);
        b = b + 1;
    }
    proof {
        assert(region@ =~= Seq::new(cfg.n() as nat, |i: int| i as usize));
    }
    let ctx: Vec<LoopCtx> = Vec::new();
    let structured = structure_region(&cfg, &doms, &region, &ctx, None);
    let mut targets: Vec<usize> = Vec::new();
    collect_gotos(&structured.0, &mut targets);
    let code = strip_labels(&structured.0, &targets);
    (decls, code)
}

} // verus!

verus! {

use crate::cfg::BasicBlock;
use crate::ssa::lemma_stmts_view_concat;
use crate::ssa::lemma_stmts_view_index;
use crate::ssa::lemma_stmts_view_push;
use crate::ssa::no_phis;
use crate::ssa::stmts_view;
use crate::ssa::StmtV;

/// The observable statements a structured statement carries, with
/// multiplicity: assignments, stores, discarded calls, returns and traps,
/// wherever they sit in the nesting. Control statements carry nothing of
/// their own.
pub open spec fn stmt_payload(s: StmtV) -> Multiset<StmtV>
    decreases s,
{
    match s {
        StmtV::Assign(_, _) => Multiset::empty().insert(s),
        StmtV::Store(_, _) => Multiset::empty().insert(s),
        StmtV::Discard(_) => Multiset::empty().insert(s),
        StmtV::Return(_) => Multiset::empty().insert(s),
        StmtV::Trap => Multiset::empty().insert(s),
        StmtV::If(_, t, e) => stmts_payload(t).add(stmts_payload(e)),
        StmtV::Loop(_, _, body) => stmts_payload(body),
        StmtV::Block(body) => stmts_payload(body),
        StmtV::Break(_) => Multiset::empty(),
        StmtV::Continue(_) => Multiset::empty(),
        StmtV::Goto(_) => Multiset::empty(),
        StmtV::Label(_) => Multiset::empty(),
    }
}

pub open spec fn stmts_payload(s: Seq<StmtV>) -> Multiset<StmtV>
    decreases s,
{
    if s.len() == 0 {
        Multiset::empty()
    } else {
        stmt_payload(s[0]).add(stmts_payload(s.drop_first()))
    }
}

pub proof fn lemma_stmts_payload_push(s: Seq<StmtV>, x: StmtV)
    ensures
        stmts_payload(s.push(x)) =~= stmts_payload(s).add(stmt_payload(x)),
    decreases s.len(),
{
    broadcast use vstd::multiset::group_multiset_axioms;

    let sp = s.push(x);
    if s.len() == 0 {
        assert(sp[0] == x);
        assert(sp.drop_first() =~= Seq::<StmtV>::empty());
        assert(stmts_payload(sp.drop_first()) =~= Multiset::empty());
        assert(stmts_payload(sp) =~= stmt_payload(x).add(Multiset::empty()));
        assert(stmts_payload(s) =~= Multiset::<StmtV>::empty());
    } else {
        assert(sp[0] == s[0]);
        assert(sp.drop_first() =~= s.drop_first().push(x));
        lemma_stmts_payload_push(s.drop_first(), x);
        assert(stmts_payload(sp) =~= stmt_payload(s[0]).add(
            stmts_payload(s.drop_first()).add(stmt_payload(x)),
        ));
    }
}

pub proof fn lemma_stmts_payload_concat(a: Seq<StmtV>, b: Seq<StmtV>)
    ensures
        stmts_payload(a + b) =~= stmts_payload(a).add(stmts_payload(b)),
    decreases a.len(),
{
    broadcast use vstd::multiset::group_multiset_axioms;

    if a.len() == 0 {
        assert(a + b =~= b);
    } else {
        assert((a + b)[0] == a[0]);
        assert((a + b).drop_first() =~= a.drop_first() + b);
        lemma_stmts_payload_concat(a.drop_first(), b);
    }
}

/// The observable statements a terminator turns into when structured: its
/// return or trap; branches turn into pure control.
pub open spec fn term_payload(t: Term) -> Multiset<StmtV> {
    match t {
        Term::Return(oe) => Multiset::empty().insert(
            StmtV::Return(
                match oe {
                    Some(e) => Some(e@),
                    None => None,
                },
            ),
        ),
        Term::Trap => Multiset::empty().insert(StmtV::Trap),
        _ => Multiset::empty(),
    }
}

/// Everything one block contributes to the structured output.
pub open spec fn block_payload(bb: BasicBlock) -> Multiset<StmtV> {
    stmts_payload(stmts_view(bb.stmts@)).add(term_payload(bb.term))
}

/// Everything the blocks of a region contribute, in region order.
pub open spec fn region_payload(c: Cfg, region: Seq<usize>) -> Multiset<StmtV>
    decreases region,
{
    if region.len() == 0 {
        Multiset::empty()
    } else {
        block_payload(c.blocks@[region[0] as int]).add(region_payload(c, region.drop_first()))
    }
}

/// Everything every block of the graph contributes.
pub open spec fn cfg_payload(c: Cfg) -> Multiset<StmtV> {
    region_payload(c, Seq::new(c.n() as nat, |i: int| i as usize))
}

pub proof fn lemma_region_payload_push(c: Cfg, s: Seq<usize>, x: usize)
    ensures
        region_payload(c, s.push(x)) =~= region_payload(c, s).add(
            block_payload(c.blocks@[x as int]),
        ),
    decreases s.len(),
{
    broadcast use vstd::multiset::group_multiset_axioms;

    let sp = s.push(x);
    if s.len() == 0 {
        assert(sp[0] == x);
        assert(sp.drop_first() =~= Seq::<usize>::empty());
        assert(region_payload(c, sp.drop_first()) =~= Multiset::empty());
        assert(region_payload(c, sp) =~= block_payload(c.blocks@[x as int]).add(
            Multiset::empty(),
        ));
        assert(region_payload(c, s) =~= Multiset::<StmtV>::empty());
    } else {
        assert(sp[0] == s[0]);
        assert(sp.drop_first() =~= s.drop_first().push(x));
        lemma_region_payload_push(c, s.drop_first(), x);
        assert(region_payload(c, sp) =~= block_payload(c.blocks@[s[0] as int]).add(
            region_payload(c, s.drop_first()).add(block_payload(c.blocks@[x as int])),
        ));
    }
}

pub proof fn lemma_region_payload_remove(c: Cfg, s: Seq<usize>, j: int)
    requires
        0 <= j < s.len(),
    ensures
        region_payload(c, s) =~= block_payload(c.blocks@[s[j] as int]).add(
            region_payload(c, s.remove(j)),
        ),
    decreases s.len(),
{
    broadcast use vstd::multiset::group_multiset_axioms;

    if j == 0 {
        assert(s.remove(0) =~= s.drop_first());
    } else {
        assert(s.remove(j).drop_first() =~= s.drop_first().remove(j - 1));
        assert(s.remove(j)[0] == s[0]);
        assert(s.drop_first()[j - 1] == s[j]);
        lemma_region_payload_remove(c, s.drop_first(), j - 1);
    }
}

pub proof fn lemma_region_payload_concat(c: Cfg, a: Seq<usize>, b: Seq<usize>)
    ensures
        region_payload(c, a + b) =~= region_payload(c, a).add(region_payload(c, b)),
    decreases a.len(),
{
    broadcast use vstd::multiset::group_multiset_axioms;

    if a.len() == 0 {
        assert(a + b =~= b);
    } else {
        assert((a + b)[0] == a[0]);
        assert((a + b).drop_first() =~= a.drop_first() + b);
        lemma_region_payload_concat(c, a.drop_first(), b);
    }
}

/// Payload of a statement vector, through its view.
pub open spec fn vec_payload(v: Seq<Stmt>) -> Multiset<StmtV> {
    stmts_payload(stmts_view(v))
}

proof fn lemma_vec_payload_push(v: Seq<Stmt>, x: Stmt)
    ensures
        vec_payload(v.push(x)) =~= vec_payload(v).add(stmt_payload(x@)),
{
    lemma_stmts_view_push(v, x);
    lemma_stmts_payload_push(stmts_view(v), x@);
    broadcast use vstd::multiset::group_multiset_axioms;

    assert(stmts_payload(stmts_view(v.push(x))) =~= stmts_payload(stmts_view(v).push(x@)));
}

proof fn lemma_vec_payload_concat(a: Seq<Stmt>, b: Seq<Stmt>)
    ensures
        vec_payload(a + b) =~= vec_payload(a).add(vec_payload(b)),
{
    lemma_stmts_view_concat(a, b);
    lemma_stmts_payload_concat(stmts_view(a), stmts_view(b));
    broadcast use vstd::multiset::group_multiset_axioms;

    assert(stmts_payload(stmts_view(a + b)) =~= stmts_payload(stmts_view(a) + stmts_view(b)));
}

proof fn lemma_vec_payload_empty()
    ensures
        vec_payload(Seq::<Stmt>::empty()) =~= Multiset::<StmtV>::empty(),
{
    assert(stmts_view(Seq::<Stmt>::empty()) =~= Seq::<StmtV>::empty());
}

/// Two index lists with the same contents contribute the same payload.
pub proof fn lemma_region_payload_permutation(c: Cfg, s1: Seq<usize>, s2: Seq<usize>)
    requires
        s1.to_multiset() == s2.to_multiset(),
    ensures
        region_payload(c, s1) =~= region_payload(c, s2),
    decreases s1.len(),
{
    broadcast use vstd::multiset::group_multiset_axioms;
    broadcast use vstd::seq_lib::group_to_multiset_ensures;

    if s1.len() == 0 {
        assert(s1.to_multiset().len() == 0);
        assert(s2.to_multiset().len() == 0);
        assert(s2.len() == 0);
    } else {
        let x = s1[0];
        assert(s1.to_multiset().count(x) > 0) by {
            assert(s1.contains(x));
        }
        assert(s2.contains(x)) by {
            assert(s2.to_multiset().count(x) > 0);
        }
        let j = choose|j: int| 0 <= j < s2.len() && s2[j] == x;
        lemma_region_payload_remove(c, s2, j);
        assert(s1.remove(0) =~= s1.drop_first());
        assert(s1.remove(0).to_multiset() =~= s1.to_multiset().remove(x));
        assert(s2.remove(j).to_multiset() =~= s2.to_multiset().remove(x));
        lemma_region_payload_permutation(c, s1.drop_first(), s2.remove(j));
    }
}

} // verus!
