//! Dominance analysis. Block `a` dominates block `b` when every path from the
//! entry to `b` passes through `a`. The analyzer computes dominator sets as
//! the greatest fixed point of the classic equations (the entry dominates
//! only itself; any other block is dominated by itself and by whatever
//! dominates all of its predecessors), derives an immediate-dominator tree
//! and dominance frontiers from them, and identifies back edges and natural
//! loops for the structuring engine.

use vstd::prelude::*;

use crate::cfg::adj_path;
use crate::cfg::adj_reaches;
use crate::cfg::bfs_reach;
use crate::cfg::Cfg;

verus! {

/// Every predecessor of `b` is dominated by `a`.
pub open spec fn all_preds_dom(c: Cfg, doms: Seq<Vec<bool>>, b: int, a: int) -> bool {
    forall|k: int|
        0 <= k < (c.preds@[b])@.len() ==> doms[(#[trigger] (c.preds@[b])@[k]) as int]@[a]
}

/// Row `b` satisfies its dominance equation.
pub open spec fn dom_row_ok(c: Cfg, doms: Seq<Vec<bool>>, b: int) -> bool {
    forall|a: int|
        0 <= a < c.n() ==> ((#[trigger] doms[b]@[a]) <==> (a == b || all_preds_dom(c, doms, b, a)))
}

/// The dominator sets solve the dominance equations: the entry dominates
/// only itself, and every other block is dominated by exactly itself plus
/// what dominates all of its predecessors.
pub open spec fn doms_ok(c: Cfg, doms: Seq<Vec<bool>>) -> bool {
    &&& doms.len() == c.n()
    &&& forall|b: int| 0 <= b < c.n() ==> (#[trigger] doms[b])@.len() == c.n()
    &&& forall|a: int| 0 <= a < c.n() ==> ((#[trigger] doms[0]@[a]) <==> a == 0)
    &&& forall|b: int| 1 <= b < c.n() ==> #[trigger] dom_row_ok(c, doms, b)
}

/// Soundness of the dominance equations: when `a` is in the dominator set of
/// the last block of an entry path, the path passes through `a`.
pub proof fn lemma_dom_sound(c: Cfg, doms: Seq<Vec<bool>>, a: int, p: Seq<usize>)
    requires
        c.wf(),
        doms_ok(c, doms),
        adj_path(c.succs@, 0, None, p),
        (p.last() as int) < c.n(),
        0 <= a < c.n(),
        doms[p.last() as int]@[a],
    ensures
        p.contains(a as usize),
    decreases p.len(),
{
    let b = p.last();
    if p.len() == 1 {
        assert(b == 0);
        assert(a == 0);
        assert(p[0] == a as usize);
    } else if a == b as int {
        assert(p[p.len() - 1] == a as usize);
    } else {
        assert(b as int != 0 ==> dom_row_ok(c, doms, b as int));
        if b == 0 {
            assert(a == 0);
            assert(p[p.len() - 1] == a as usize);
        } else {
            let q = p[p.len() - 2];
            assert(crate::cfg::adj_edge(c.succs@, q, b)) by {
                assert(adj_path(c.succs@, 0, None, p));
            }
            assert((q as int) < c.n()) by {
                let w = choose|w: int|
                    0 <= w < (c.succs@[q as int])@.len() && (c.succs@[q as int])@[w] == b;
            }
            assert(c.preds@[b as int]@.contains(q)) by {
                let w = choose|w: int|
                    0 <= w < (c.succs@[q as int])@.len() && (c.succs@[q as int])@[w] == b;
            }
            assert(doms[q as int]@[a]) by {
                assert(all_preds_dom(c, doms, b as int, a));
                let w = choose|w: int|
                    0 <= w < (c.preds@[b as int])@.len() && (c.preds@[b as int])@[w] == q;
            }
            let pre = p.drop_last();
            assert(adj_path(c.succs@, 0, None, pre)) by {
                assert(forall|i: int| 0 <= i < pre.len() ==> pre[i] == p[i]);
            }
            assert(pre.last() == q);
            lemma_dom_sound(c, doms, a, pre);
            let w = choose|w: int| 0 <= w < pre.len() && pre[w] == a as usize;
            assert(p[w] == a as usize);
        }
    }
}

/// Number of set bits among the first `k` entries of a row.
pub open spec fn row_bits(r: Seq<bool>, k: int) -> nat
    decreases k,
{
    if k <= 0 {
        0
    } else {
        row_bits(r, k - 1) + (if r[k - 1] {
            1nat
        } else {
            0nat
        })
    }
}

/// Total set bits of the first `k` rows.
pub open spec fn rows_bits(rows: Seq<Vec<bool>>, k: int) -> nat
    decreases k,
{
    if k <= 0 {
        0
    } else {
        rows_bits(rows, k - 1) + row_bits(rows[k - 1]@, rows[k - 1]@.len() as int)
    }
}

proof fn lemma_row_bits_le(r1: Seq<bool>, r2: Seq<bool>, k: int)
    requires
        forall|a: int| 0 <= a < k ==> ((#[trigger] r2[a]) ==> r1[a]),
    ensures
        row_bits(r2, k) <= row_bits(r1, k),
    decreases k,
{
    if k > 0 {
        lemma_row_bits_le(r1, r2, k - 1);
    }
}

proof fn lemma_row_bits_lt(r1: Seq<bool>, r2: Seq<bool>, k: int, w: int)
    requires
        forall|a: int| 0 <= a < k ==> ((#[trigger] r2[a]) ==> r1[a]),
        0 <= w < k,
        r1[w],
        !r2[w],
    ensures
        row_bits(r2, k) < row_bits(r1, k),
    decreases k,
{
    if w == k - 1 {
        lemma_row_bits_le(r1, r2, k - 1);
    } else {
        lemma_row_bits_lt(r1, r2, k - 1, w);
    }
}

proof fn lemma_rows_bits_update(rows: Seq<Vec<bool>>, i: int, nr: Vec<bool>, k: int)
    requires
        0 <= i < rows.len(),
        k <= rows.len(),
    ensures
        i < k ==> rows_bits(rows.update(i, nr), k) + row_bits(rows[i]@, rows[i]@.len() as int)
            == rows_bits(rows, k) + row_bits(nr@, nr@.len() as int),
        i >= k ==> rows_bits(rows.update(i, nr), k) == rows_bits(rows, k),
    decreases k,
{
    if k > 0 {
        lemma_rows_bits_update(rows, i, nr, k - 1);
        if i == k - 1 {
            assert(rows.update(i, nr)[k - 1] == nr);
        } else {
            assert(rows.update(i, nr)[k - 1] == rows[k - 1]);
        }
    }
}

/// Computes the dominator sets of a well-formed graph: `doms[b][a]` says
/// that `a` dominates `b`. The result solves the dominance equations, and
/// every set contains the block itself and the entry.
pub fn compute_dominators(cfg: &Cfg) -> (doms: Vec<Vec<bool>>)
    requires
        cfg.wf(),
    ensures
        doms_ok(*cfg, doms@),
        forall|b: int| 0 <= b < cfg.n() ==> (#[trigger] doms@[b])@[b],
        forall|b: int| 0 <= b < cfg.n() ==> (#[trigger] doms@[b])@[0],
{
    let n = cfg.blocks.len();
    let mut doms: Vec<Vec<bool>> = Vec::new();
    let mut b0: usize = 0;
    while b0 < n
        invariant
            n == cfg.n(),
            b0 <= n,
            doms@.len() == b0,
            forall|b: int| 0 <= b < b0 ==> (#[trigger] doms@[b])@.len() == n,
            forall|a: int| 0 < b0 && 0 <= a < n ==> ((#[trigger] doms@[0]@[a]) <==> a == 0),
            forall|b: int, a: int| 1 <= b < b0 && 0 <= a < n ==> #[trigger] doms@[b]@[a],
        decreases n - b0,
    {
        let mut row: Vec<bool> = Vec::new();
        let mut a0: usize = 0;
        while a0 < n
            invariant
                a0 <= n,
                row@.len() == a0,
                forall|a: int|
                    0 <= a < a0 ==> ((#[trigger] row@[a]) <==> (b0 == 0 ==> a == 0)),
            decreases n - a0,
        {
            if b0 == 0 {
                row.push(a0 == 0);
            } else {
                row.push(true);
            }
            a0 = a0 + 1;
        }
        doms.push(row);
        b0 = b0 + 1;
    }
    let ghost pre_fix = |dv: Seq<Vec<bool>>|
        {
            &&& dv.len() == n
            &&& (forall|b: int| 0 <= b < n ==> (#[trigger] dv[b])@.len() == n)
            &&& (forall|a: int| 0 <= a < n ==> ((#[trigger] dv[0]@[a]) <==> a == 0))
            &&& (forall|b: int| 0 <= b < n ==> #[trigger] dv[b]@[b])
            &&& (forall|b: int| 0 <= b < n ==> #[trigger] dv[b]@[0])
            &&& (forall|b: int, a: int|
                1 <= b < n && 0 <= a < n && (a == b || all_preds_dom(*cfg, dv, b, a))
                    ==> #[trigger] dv[b]@[a])
        };
    proof {
        assert(pre_fix(doms@));
    }
    let mut changed = true;
    while changed
        invariant
            n == cfg.n(),
            n >= 1,
            cfg.wf(),
            pre_fix == (|dv: Seq<Vec<bool>>|
                {
                    &&& dv.len() == n
                    &&& (forall|b: int| 0 <= b < n ==> (#[trigger] dv[b])@.len() == n)
                    &&& (forall|a: int| 0 <= a < n ==> ((#[trigger] dv[0]@[a]) <==> a == 0))
                    &&& (forall|b: int| 0 <= b < n ==> #[trigger] dv[b]@[b])
                    &&& (forall|b: int| 0 <= b < n ==> #[trigger] dv[b]@[0])
                    &&& (forall|b: int, a: int|
                        1 <= b < n && 0 <= a < n && (a == b || all_preds_dom(*cfg, dv, b, a))
                            ==> #[trigger] dv[b]@[a])
                }),
            pre_fix(doms@),
            !changed ==> doms_ok(*cfg, doms@),
        decreases rows_bits(doms@, n as int) + (if changed {
            1nat
        } else {
            0nat
        }),
    {
        let ghost start = doms@;
        let ghost start_bits = rows_bits(doms@, n as int);
        changed = false;
        let mut b: usize = 1;
        while b < n
            invariant
                n == cfg.n(),
                cfg.wf(),
                pre_fix == (|dv: Seq<Vec<bool>>|
                    {
                        &&& dv.len() == n
                        &&& (forall|bb: int| 0 <= bb < n ==> (#[trigger] dv[bb])@.len() == n)
                        &&& (forall|a: int| 0 <= a < n ==> ((#[trigger] dv[0]@[a]) <==> a == 0))
                        &&& (forall|bb: int| 0 <= bb < n ==> #[trigger] dv[bb]@[bb])
                        &&& (forall|bb: int| 0 <= bb < n ==> #[trigger] dv[bb]@[0])
                        &&& (forall|bb: int, a: int|
                            1 <= bb < n && 0 <= a < n && (a == bb || all_preds_dom(
                                *cfg,
                                dv,
                                bb,
                                a,
                            )) ==> #[trigger] dv[bb]@[a])
                    }),
                n >= 1,
                1 <= b <= n,
                pre_fix(doms@),
                rows_bits(doms@, n as int) <= start_bits,
                changed ==> rows_bits(doms@, n as int) < start_bits,
                !changed ==> doms@ == start,
                !changed ==> forall|bb: int|
                    1 <= bb < b ==> #[trigger] dom_row_ok(*cfg, doms@, bb),
            decreases n - b,
        {
            // recompute row b from the current rows
            let mut nr: Vec<bool> = Vec::new();
            let mut a: usize = 0;
            while a < n
                invariant
                    n == cfg.n(),
                    cfg.wf(),
                    1 <= b < n,
                    a <= n,
                    nr@.len() == a,
                    doms@.len() == n,
                    forall|bb: int| 0 <= bb < n ==> (#[trigger] doms@[bb])@.len() == n,
                    forall|aa: int|
                        0 <= aa < a ==> ((#[trigger] nr@[aa]) <==> (aa == b as int
                            || all_preds_dom(*cfg, doms@, b as int, aa))),
                decreases n - a,
            {
                let mut val = a == b;
                if !val {
                    let mut allp = true;
                    let mut k: usize = 0;
                    let npred = cfg.preds[b].len();
                    while k < npred
                        invariant
                            n == cfg.n(),
                            cfg.wf(),
                            1 <= b < n,
                            a < n,
                            npred == (cfg.preds@[b as int])@.len(),
                            k <= npred,
                            doms@.len() == n,
                            forall|bb: int| 0 <= bb < n ==> (#[trigger] doms@[bb])@.len() == n,
                            allp <==> forall|kk: int|
                                0 <= kk < k ==> doms@[(#[trigger] (cfg.preds@[b as int])@[kk])
                                    as int]@[a as int],
                        decreases npred - k,
                    {
                        let pk = cfg.preds[b][k];
                        if !doms[pk][a] {
                            allp = false;
                        }
                        proof {
                            if !allp {
                            } else {
                                assert forall|kk: int|
                                    0 <= kk < k + 1 implies doms@[(#[trigger] (
                                cfg.preds@[b as int])@[kk]) as int]@[a as int] by {}
                            }
                        }
                        k = k + 1;
                    }
                    val = allp;
                    proof {
                        if val {
                            assert(all_preds_dom(*cfg, doms@, b as int, a as int));
                        } else {
                            assert(!all_preds_dom(*cfg, doms@, b as int, a as int)) by {
                                let kk = choose|kk: int|
                                    0 <= kk < npred && !doms@[((cfg.preds@[b as int])@[kk])
                                        as int]@[a as int];
                            }
                        }
                    }
                }
                nr.push(val);
                a = a + 1;
            }
            // compare with the old row
            let mut same = true;
            let mut a2: usize = 0;
            while a2 < n
                invariant
                    n == cfg.n(),
                    1 <= b < n,
                    a2 <= n,
                    nr@.len() == n,
                    doms@.len() == n,
                    forall|bb: int| 0 <= bb < n ==> (#[trigger] doms@[bb])@.len() == n,
                    same <==> forall|aa: int|
                        0 <= aa < a2 ==> (#[trigger] nr@[aa]) == doms@[b as int]@[aa],
                decreases n - a2,
            {
                if nr[a2] != doms[b][a2] {
                    same = false;
                }
                proof {
                    if same {
                        assert forall|aa: int|
                            0 <= aa < a2 + 1 implies (#[trigger] nr@[aa]) == doms@[b as int]@[aa]
                        by {}
                    }
                }
                a2 = a2 + 1;
            }
            if !same {
                proof {
                    // the new row only shrinks: every set bit was already set
                    assert forall|aa: int|
                        0 <= aa < n && #[trigger] nr@[aa] implies doms@[b as int]@[aa] by {
                        assert(pre_fix(doms@));
                    }
                    let w = choose|aa: int|
                        0 <= aa < n && !((#[trigger] nr@[aa]) == doms@[b as int]@[aa]);
                    lemma_row_bits_lt(doms@[b as int]@, nr@, n as int, w);
                    lemma_rows_bits_update(doms@, b as int, nr, n as int);
                }
                let ghost before = doms@;
                let ghost nr_v = nr@;
                doms[b] = nr;
                changed = true;
                proof {
                    assert(doms@ == before.update(b as int, doms@[b as int]));
                    assert(rows_bits(doms@, n as int) < start_bits) by {
                        assert(rows_bits(doms@, n as int) + row_bits(before[b as int]@, n as int)
                            == rows_bits(before, n as int) + row_bits(nr_v, n as int));
                        assert(row_bits(nr_v, n as int) < row_bits(before[b as int]@, n as int));
                    }
                    // the pre-fixpoint property is preserved: rows only shrank
                    assert(pre_fix(doms@)) by {
                        assert forall|bb: int, aa: int|
                            1 <= bb < n && 0 <= aa < n && (aa == bb || all_preds_dom(
                                *cfg,
                                doms@,
                                bb,
                                aa,
                            )) implies #[trigger] doms@[bb]@[aa] by {
                            if aa == bb {
                                if bb == b as int {
                                    assert(nr_v[aa]);
                                } else {
                                    assert(before[bb]@[aa]);
                                }
                            } else {
                                assert(all_preds_dom(*cfg, before, bb, aa)) by {
                                    assert forall|kk: int|
                                        0 <= kk < (cfg.preds@[bb])@.len() implies before[(
                                    #[trigger] (cfg.preds@[bb])@[kk]) as int]@[aa] by {
                                        let pp = (cfg.preds@[bb])@[kk] as int;
                                        assert(doms@[pp]@[aa]);
                                        if pp == b as int {
                                            assert(nr_v[aa]);
                                            assert(before[pp]@[aa]);
                                        }
                                    }
                                }
                                if bb == b as int {
                                    assert(nr_v[aa] <==> (aa == bb || all_preds_dom(
                                        *cfg,
                                        before,
                                        bb,
                                        aa,
                                    )));
                                } else {
                                    assert(before[bb]@[aa]);
                                }
                            }
                        }
                        assert(forall|bb: int|
                            0 <= bb < n && bb != b as int ==> doms@[bb] == before[bb]);
                        assert forall|bb: int| 0 <= bb < n implies #[trigger] doms@[bb]@[bb] by {
                            if bb == b as int {
                                assert(nr_v[bb]);
                            }
                        }
                        assert forall|bb: int| 0 <= bb < n implies #[trigger] doms@[bb]@[0] by {
                            if bb == b as int {
                                assert(all_preds_dom(*cfg, before, bb, 0)) by {
                                    assert forall|kk: int|
                                        0 <= kk < (cfg.preds@[bb])@.len() implies before[(
                                    #[trigger] (cfg.preds@[bb])@[kk]) as int]@[0] by {}
                                }
                                assert(nr_v[0]);
                            }
                        }
                    }
                }
            } else {
                proof {
                    if !changed {
                        assert(dom_row_ok(*cfg, doms@, b as int)) by {
                            assert forall|aa: int|
                                0 <= aa < n implies ((#[trigger] doms@[b as int]@[aa]) <==> (aa
                                == b as int || all_preds_dom(*cfg, doms@, b as int, aa))) by {
                                assert(nr@[aa] == doms@[b as int]@[aa]);
                            }
                        }
                    }
                }
            }
            b = b + 1;
        }
        proof {
            if !changed {
                assert(doms_ok(*cfg, doms@)) by {
                    assert(forall|bb: int|
                        1 <= bb < n ==> #[trigger] dom_row_ok(*cfg, doms@, bb));
                }
            }
        }
    }
    doms
}

} // verus!

verus! {

/// Basic shape of a dominator-set matrix, as the consumers below need it.
pub open spec fn doms_shape(c: Cfg, doms: Seq<Vec<bool>>) -> bool {
    &&& doms.len() == c.n()
    &&& forall|b: int| 0 <= b < c.n() ==> (#[trigger] doms[b])@.len() == c.n()
    &&& forall|b: int| 0 <= b < c.n() ==> (#[trigger] doms[b])@[b]
    &&& forall|b: int| 0 <= b < c.n() ==> (#[trigger] doms[b])@[0]
}

/// `a` is an immediate dominator of `b` per the dominator sets: a strict
/// dominator that every other strict dominator of `b` dominates.
pub open spec fn is_immediate_dom(c: Cfg, doms: Seq<Vec<bool>>, b: int, a: int) -> bool {
    &&& 0 <= a < c.n()
    &&& a != b
    &&& doms[b]@[a]
    &&& forall|a2: int|
        0 <= a2 < c.n() && a2 != b && a2 != a && (#[trigger] doms[b]@[a2]) ==> doms[a]@[a2]
}

/// Derives the immediate-dominator map from the dominator sets: the entry
/// maps to itself, and every other block maps to its immediate dominator —
/// the strict dominator every other strict dominator dominates. When the
/// sets single no such block out (which the dominance equations alone do not
/// rule out), the entry, a strict dominator of everything, stands in.
pub fn dom_tree(cfg: &Cfg, doms: &Vec<Vec<bool>>) -> (idom: Vec<usize>)
    requires
        cfg.wf(),
        doms_shape(*cfg, doms@),
    ensures
        idom@.len() == cfg.n(),
        idom@[0] == 0usize,
        forall|b: int|
            1 <= b < cfg.n() ==> ((#[trigger] idom@[b]) as int) < cfg.n() && idom@[b] as int != b
                && doms@[b]@[idom@[b] as int],
        forall|b: int|
            1 <= b < cfg.n() ==> (is_immediate_dom(*cfg, doms@, b, (#[trigger] idom@[b]) as int)
                || (forall|a: int| !is_immediate_dom(*cfg, doms@, b, a))),
{
    let n = cfg.blocks.len();
    proof {
        assert(n >= 1);
    }
    let mut idom: Vec<usize> = Vec::new();
    idom.push(0);
    let mut b: usize = 1;
    while b < n
        invariant
            n == cfg.n(),
            n >= 1,
            doms_shape(*cfg, doms@),
            1 <= b <= n,
            idom@.len() == b,
            idom@[0] == 0usize,
            forall|bb: int|
                1 <= bb < idom@.len() ==> ((#[trigger] idom@[bb]) as int) < n && idom@[bb] as int
                    != bb && doms@[bb]@[idom@[bb] as int],
            forall|bb: int|
                1 <= bb < idom@.len() ==> (is_immediate_dom(
                    *cfg,
                    doms@,
                    bb,
                    (#[trigger] idom@[bb]) as int,
                ) || (forall|a: int| !is_immediate_dom(*cfg, doms@, bb, a))),
        decreases n - b,
    {
        let mut best: usize = 0;
        let mut a: usize = 0;
        let mut found = false;
        while a < n
            invariant
                n == cfg.n(),
                doms_shape(*cfg, doms@),
                1 <= b < n,
                a <= n,
                found ==> is_immediate_dom(*cfg, doms@, b as int, best as int),
                !found ==> forall|aa: int|
                    0 <= aa < a ==> !is_immediate_dom(*cfg, doms@, b as int, aa),
            decreases n - a,
        {
            if a != b && doms[b][a] {
                // candidate: check that every other strict dominator of b
                // dominates a as well (so a is the closest)
                let mut closest = true;
                let mut a2: usize = 0;
                while a2 < n
                    invariant
                        n == cfg.n(),
                        doms_shape(*cfg, doms@),
                        1 <= b < n,
                        a < n,
                        a2 <= n,
                        closest <==> forall|y: int|
                            0 <= y < a2 && y != b as int && y != a as int && (
                            #[trigger] doms@[b as int]@[y]) ==> doms@[a as int]@[y],
                    decreases n - a2,
                {
                    let ghost closest_pre = closest;
                    if a2 != b && a2 != a && doms[b][a2] && !doms[a][a2] {
                        closest = false;
                    }
                    proof {
                        if closest {
                            assert forall|y: int|
                                0 <= y < a2 + 1 && y != b as int && y != a as int && (
                            #[trigger] doms@[b as int]@[y]) implies doms@[a as int]@[y] by {}
                        } else {
                            if closest_pre {
                                assert(doms@[b as int]@[a2 as int]
                                    && !doms@[a as int]@[a2 as int]);
                            }
                        }
                    }
                    a2 = a2 + 1;
                }
                if closest && !found {
                    best = a;
                    found = true;
                    proof {
                        assert(is_immediate_dom(*cfg, doms@, b as int, a as int));
                    }
                } else {
                    proof {
                        if !closest {
                            assert(!is_immediate_dom(*cfg, doms@, b as int, a as int)) by {
                                let y = choose|y: int|
                                    0 <= y < n && y != b as int && y != a as int && (
                                    #[trigger] doms@[b as int]@[y]) && !doms@[a as int]@[y];
                            }
                        }
                    }
                }
            } else {
                proof {
                    assert(!is_immediate_dom(*cfg, doms@, b as int, a as int));
                }
            }
            a = a + 1;
        }
        if found {
            idom.push(best);
        } else {
            // the entry strictly dominates every other block's set
            proof {
                assert forall|aa: int| true implies !is_immediate_dom(
                    *cfg,
                    doms@,
                    b as int,
                    aa,
                ) by {
                    if 0 <= aa < n {
                    } else {
                        assert(!is_immediate_dom(*cfg, doms@, b as int, aa));
                    }
                }
            }
            idom.push(0);
        }
        b = b + 1;
    }
    idom
}

/// `y` is in the dominance frontier of `a`: `a` dominates a predecessor of
/// `y` without strictly dominating `y` itself.
pub open spec fn in_frontier(c: Cfg, doms: Seq<Vec<bool>>, a: int, y: int) -> bool {
    &&& 0 <= y < c.n()
    &&& exists|k: int|
        0 <= k < (c.preds@[y])@.len() && doms[(#[trigger] (c.preds@[y])@[k]) as int]@[a]
    &&& (a == y || !doms[y]@[a])
}

/// Computes the dominance frontier of every block: `df[a]` lists exactly the
/// blocks in `a`'s frontier.
pub fn dominance_frontier(cfg: &Cfg, doms: &Vec<Vec<bool>>) -> (df: Vec<Vec<usize>>)
    requires
        cfg.wf(),
        doms_shape(*cfg, doms@),
    ensures
        df@.len() == cfg.n(),
        forall|a: int, y: usize|
            0 <= a < cfg.n() ==> ((#[trigger] (df@[a])@.contains(y)) <==> in_frontier(
                *cfg,
                doms@,
                a,
                y as int,
            )),
        forall|a: int, k: int|
            0 <= a < cfg.n() && 0 <= k < (df@[a])@.len() ==> ((#[trigger] (df@[a])@[k]) as int)
                < cfg.n(),
        forall|a: int, k1: int, k2: int|
            0 <= a < cfg.n() && 0 <= k1 < k2 < (df@[a])@.len() ==> (df@[a])@[k1] != (df@[a])@[k2],
{
    let n = cfg.blocks.len();
    let mut df: Vec<Vec<usize>> = Vec::new();
    let mut a: usize = 0;
    while a < n
        invariant
            n == cfg.n(),
            cfg.wf(),
            doms_shape(*cfg, doms@),
            a <= n,
            df@.len() == a,
            forall|aa: int, y: usize|
                0 <= aa < a ==> ((#[trigger] (df@[aa])@.contains(y)) <==> in_frontier(
                    *cfg,
                    doms@,
                    aa,
                    y as int,
                )),
            forall|aa: int, k: int|
                0 <= aa < a && 0 <= k < (df@[aa])@.len() ==> ((#[trigger] (df@[aa])@[k]) as int)
                    < n,
            forall|aa: int, k1: int, k2: int|
                0 <= aa < a && 0 <= k1 < k2 < (df@[aa])@.len() ==> (df@[aa])@[k1] != (
                df@[aa])@[k2],
        decreases n - a,
    {
        let mut row: Vec<usize> = Vec::new();
        let mut y: usize = 0;
        while y < n
            invariant
                n == cfg.n(),
                cfg.wf(),
                doms_shape(*cfg, doms@),
                a < n,
                y <= n,
                forall|yy: usize|
                    (#[trigger] row@.contains(yy)) <==> ((yy as int) < y && in_frontier(
                        *cfg,
                        doms@,
                        a as int,
                        yy as int,
                    )),
                forall|k: int| 0 <= k < row@.len() ==> ((#[trigger] row@[k]) as int) < y,
                forall|k1: int, k2: int| 0 <= k1 < k2 < row@.len() ==> row@[k1] < row@[k2],
            decreases n - y,
        {
            // does a dominate some predecessor of y?
            let mut hit = false;
            let mut k: usize = 0;
            let npred = cfg.preds[y].len();
            while k < npred
                invariant
                    n == cfg.n(),
                    cfg.wf(),
                    doms_shape(*cfg, doms@),
                    a < n,
                    y < n,
                    npred == (cfg.preds@[y as int])@.len(),
                    k <= npred,
                    hit ==> exists|kk: int|
                        0 <= kk < npred && doms@[(#[trigger] (cfg.preds@[y as int])@[kk])
                            as int]@[a as int],
                    !hit ==> forall|kk: int|
                        0 <= kk < k ==> !doms@[(#[trigger] (cfg.preds@[y as int])@[kk])
                            as int]@[a as int],
                decreases npred - k,
            {
                let pk = cfg.preds[y][k];
                if doms[pk][a] {
                    hit = true;
                }
                k = k + 1;
            }
            let strict = if a == y {
                false
            } else {
                doms[y][a]
            };
            let ghost row_before = row@;
            if hit && !strict {
                row.push(y);
                proof {
                    assert(in_frontier(*cfg, doms@, a as int, y as int));
                    assert forall|yy: usize|
                        (#[trigger] row@.contains(yy)) <==> ((yy as int) < y + 1 && in_frontier(
                            *cfg,
                            doms@,
                            a as int,
                            yy as int,
                        )) by {
                        if yy == y {
                            assert(row@[row@.len() - 1] == y);
                            assert(row@.contains(yy));
                        } else {
                            if row_before.contains(yy) {
                                let w = choose|w: int|
                                    0 <= w < row_before.len() && row_before[w] == yy;
                                assert(row@[w] == yy);
                            }
                            if row@.contains(yy) {
                                let w = choose|w: int| 0 <= w < row@.len() && row@[w] == yy;
                                assert(row_before[w] == yy);
                            }
                        }
                    }
                }
            } else {
                proof {
                    assert(!in_frontier(*cfg, doms@, a as int, y as int)) by {
                        if hit {
                        } else {
                            if in_frontier(*cfg, doms@, a as int, y as int) {
                                let kk = choose|kk: int|
                                    0 <= kk < (cfg.preds@[y as int])@.len() && doms@[((
                                    cfg.preds@[y as int])@[kk]) as int]@[a as int];
                            }
                        }
                    }
                    assert forall|yy: usize|
                        (#[trigger] row@.contains(yy)) <==> ((yy as int) < y + 1 && in_frontier(
                            *cfg,
                            doms@,
                            a as int,
                            yy as int,
                        )) by {}
                }
            }
            y = y + 1;
        }
        df.push(row);
        proof {
            assert forall|aa: int, yy: usize|
                0 <= aa < a + 1 implies ((#[trigger] (df@[aa])@.contains(yy)) <==> in_frontier(
                *cfg,
                doms@,
                aa,
                yy as int,
            )) by {
                if aa == a as int {
                    assert((df@[aa])@ == row@);
                    if in_frontier(*cfg, doms@, aa, yy as int) {
                        assert((yy as int) < n);
                    }
                }
            }
        }
        a = a + 1;
    }
    df
}

/// `u` is the source of a back edge into `h`: `u` branches to `h` and `h`
/// dominates `u`.
pub open spec fn is_back_edge_source(c: Cfg, doms: Seq<Vec<bool>>, h: int, u: int) -> bool {
    &&& 0 <= u < c.n()
    &&& (c.preds@[h])@.contains(u as usize)
    &&& doms[u]@[h]
}

/// Lists the back-edge sources of `h`, in predecessor order.
pub fn back_edge_sources(cfg: &Cfg, doms: &Vec<Vec<bool>>, h: usize) -> (srcs: Vec<usize>)
    requires
        cfg.wf(),
        doms_shape(*cfg, doms@),
        (h as int) < cfg.n(),
    ensures
        forall|k: int|
            0 <= k < srcs@.len() ==> is_back_edge_source(*cfg, doms@, h as int, (
            #[trigger] srcs@[k]) as int),
        forall|u: usize|
            is_back_edge_source(*cfg, doms@, h as int, u as int) ==> srcs@.contains(u),
{
    let mut srcs: Vec<usize> = Vec::new();
    let mut k: usize = 0;
    let npred = cfg.preds[h].len();
    while k < npred
        invariant
            cfg.wf(),
            doms_shape(*cfg, doms@),
            (h as int) < cfg.n(),
            npred == (cfg.preds@[h as int])@.len(),
            k <= npred,
            forall|w: int|
                0 <= w < srcs@.len() ==> is_back_edge_source(*cfg, doms@, h as int, (
                #[trigger] srcs@[w]) as int),
            forall|kk: int|
                0 <= kk < k && doms@[((cfg.preds@[h as int])@[kk]) as int]@[h as int]
                    ==> srcs@.contains(#[trigger] (cfg.preds@[h as int])@[kk]),
        decreases npred - k,
    {
        let p = cfg.preds[h][k];
        if doms[p][h] {
            let ghost before = srcs@;
            srcs.push(p);
            proof {
                assert((cfg.preds@[h as int])@.contains(p));
                assert(srcs@[srcs@.len() - 1] == p);
                assert forall|kk: int|
                    0 <= kk < k + 1 && doms@[((cfg.preds@[h as int])@[kk]) as int]@[h as int]
                    implies srcs@.contains(#[trigger] (cfg.preds@[h as int])@[kk]) by {
                    if kk < k {
                        let pp = (cfg.preds@[h as int])@[kk];
                        assert(before.contains(pp));
                        let w = choose|w: int| 0 <= w < before.len() && before[w] == pp;
                        assert(srcs@[w] == pp);
                    }
                }
            }
        }
        k = k + 1;
    }
    proof {
        assert forall|u: usize|
            is_back_edge_source(*cfg, doms@, h as int, u as int) implies srcs@.contains(u) by {
            let kk = choose|kk: int|
                0 <= kk < (cfg.preds@[h as int])@.len() && (cfg.preds@[h as int])@[kk] == u;
        }
    }
    srcs
}

/// `b` belongs to the natural loop of header `h`: it is the header itself,
/// or a block dominated by `h` that reaches a back-edge source of `h`
/// without passing through `h` (walking the predecessor relation).
pub open spec fn in_natural_loop(c: Cfg, doms: Seq<Vec<bool>>, h: int, b: int) -> bool {
    ||| b == h
    ||| {
        &&& 0 <= b < c.n()
        &&& doms[b]@[h]
        &&& exists|u: usize|
            #[trigger] is_back_edge_source(c, doms, h, u as int) && u as int != h && adj_reaches(
                c.preds@,
                u,
                Some(h as usize),
                b as usize,
            )
    }
}

/// Marks the blocks of the natural loop of header `h` (the union of the
/// natural loops of all back edges into `h`).
pub fn natural_loop(cfg: &Cfg, doms: &Vec<Vec<bool>>, h: usize) -> (lp: Vec<bool>)
    requires
        cfg.wf(),
        doms_shape(*cfg, doms@),
        (h as int) < cfg.n(),
    ensures
        lp@.len() == cfg.n(),
        forall|b: usize|
            (b as int) < cfg.n() ==> ((#[trigger] lp@[b as int]) <==> in_natural_loop(
                *cfg,
                doms@,
                h as int,
                b as int,
            )),
{
    let n = cfg.blocks.len();
    let srcs = back_edge_sources(cfg, doms, h);
    let mut lp: Vec<bool> = Vec::new();
    let mut b0: usize = 0;
    while b0 < n
        invariant
            b0 <= n,
            lp@.len() == b0,
            forall|b: int| 0 <= b < b0 ==> ((#[trigger] lp@[b]) <==> b == h as int),
        decreases n - b0,
    {
        lp.push(b0 == h);
        b0 = b0 + 1;
    }
    let mut s: usize = 0;
    while s < srcs.len()
        invariant
            n == cfg.n(),
            cfg.wf(),
            doms_shape(*cfg, doms@),
            (h as int) < n,
            s <= srcs@.len(),
            lp@.len() == n,
            forall|k: int|
                0 <= k < srcs@.len() ==> is_back_edge_source(*cfg, doms@, h as int, (
                #[trigger] srcs@[k]) as int),
            forall|u: usize|
                is_back_edge_source(*cfg, doms@, h as int, u as int) ==> srcs@.contains(u),
            forall|b: usize|
                (b as int) < n ==> ((#[trigger] lp@[b as int]) <==> (b as int == h as int || {
                    &&& doms@[b as int]@[h as int]
                    &&& exists|k: int|
                        0 <= k < s && srcs@[k] as int != h as int && adj_reaches(
                            cfg.preds@,
                            #[trigger] srcs@[k],
                            Some(h),
                            b,
                        )
                })),
        decreases srcs@.len() - s,
    {
        let u = srcs[s];
        if u != h {
            proof {
                assert forall|a: int, k: int|
                    0 <= a < cfg.preds@.len() && 0 <= k < (cfg.preds@[a])@.len() implies (
                #[trigger] (cfg.preds@[a])@[k]) < cfg.preds@.len() by {}
            }
            let bfs = bfs_reach(&cfg.preds, u, Some(h));
            let mark = bfs.0;
            let mut b: usize = 0;
            while b < n
                invariant
                    n == cfg.n(),
                    cfg.wf(),
                    doms_shape(*cfg, doms@),
                    (h as int) < n,
                    s < srcs@.len(),
                    u == srcs@[s as int],
                    u as int != h as int,
                    b <= n,
                    lp@.len() == n,
                    mark@.len() == n,
                    forall|x: usize|
                        (x as int) < n ==> ((#[trigger] mark@[x as int]) <==> adj_reaches(
                            cfg.preds@,
                            u,
                            Some(h),
                            x,
                        )),
                    forall|k: int|
                        0 <= k < srcs@.len() ==> is_back_edge_source(*cfg, doms@, h as int, (
                        #[trigger] srcs@[k]) as int),
                    forall|x: usize|
                        (x as int) < n ==> ((#[trigger] lp@[x as int]) <==> (x as int == h as int
                            || {
                            &&& doms@[x as int]@[h as int]
                            &&& exists|k: int|
                                0 <= k < s && srcs@[k] as int != h as int && adj_reaches(
                                    cfg.preds@,
                                    #[trigger] srcs@[k],
                                    Some(h),
                                    x,
                                )
                        } || ((x as int) < b && doms@[x as int]@[h as int] && adj_reaches(
                            cfg.preds@,
                            u,
                            Some(h),
                            x,
                        )))),
                decreases n - b,
            {
                if mark[b] && doms[b][h] && !lp[b] {
                    lp[b] = true;
                }
                b = b + 1;
            }
        }
        proof {
            assert forall|x: usize|
                (x as int) < n implies ((#[trigger] lp@[x as int]) <==> (x as int == h as int || {
                &&& doms@[x as int]@[h as int]
                &&& exists|k: int|
                    0 <= k < s + 1 && srcs@[k] as int != h as int && adj_reaches(
                        cfg.preds@,
                        #[trigger] srcs@[k],
                        Some(h),
                        x,
                    )
            })) by {
                if lp@[x as int] && x as int != h as int {
                }
                if x as int != h as int && doms@[x as int]@[h as int] {
                    if exists|k: int|
                        0 <= k < s + 1 && srcs@[k] as int != h as int && adj_reaches(
                            cfg.preds@,
                            #[trigger] srcs@[k],
                            Some(h),
                            x,
                        ) {
                        let k = choose|k: int|
                            0 <= k < s + 1 && srcs@[k] as int != h as int && adj_reaches(
                                cfg.preds@,
                                srcs@[k],
                                Some(h),
                                x,
                            );
                        if k == s as int {
                            assert(lp@[x as int]);
                        }
                    }
                }
            }
        }
        s = s + 1;
    }
    proof {
        assert forall|b: usize|
            (b as int) < cfg.n() implies ((#[trigger] lp@[b as int]) <==> in_natural_loop(
            *cfg,
            doms@,
            h as int,
            b as int,
        )) by {
            if b as int != h as int {
                if lp@[b as int] {
                    let k = choose|k: int|
                        0 <= k < srcs@.len() && srcs@[k] as int != h as int && adj_reaches(
                            cfg.preds@,
                            srcs@[k],
                            Some(h),
                            b,
                        );
                    assert(is_back_edge_source(*cfg, doms@, h as int, srcs@[k] as int));
                }
                if in_natural_loop(*cfg, doms@, h as int, b as int) {
                    let u = choose|u: usize|
                        #[trigger] is_back_edge_source(*cfg, doms@, h as int, u as int) && u as int
                            != h as int && adj_reaches(cfg.preds@, u, Some(h), b);
                    assert(srcs@.contains(u));
                    let k = choose|k: int| 0 <= k < srcs@.len() && srcs@[k] == u;
                    assert(lp@[b as int]);
                }
            }
        }
    }
    lp
}

} // verus!
