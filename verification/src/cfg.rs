//! Control-flow graphs. A `Cfg` owns its basic blocks, the edge relation in
//! both directions, and a fixed entry block (index 0). Construction decodes a
//! stack-machine instruction sequence into blocks, simulating the operand
//! stack to synthesize explicit pseudo-registers, and prunes everything the
//! entry cannot reach, so a well-formed graph has every block reachable.

use vstd::prelude::*;

use crate::ssa::BinOp;
use crate::ssa::Expr;
use crate::ssa::Stmt;
use crate::ssa::UnOp;
use crate::ssa::Var;
use crate::wasm::Module;

verus! {

/// A decoded stack-machine instruction. Branch targets are instruction
/// indices; the decoder that produces this sequence resolves any nesting.
#[derive(Debug, Clone, PartialEq, Eq)]
pub enum Instr {
    Const(i64),
    LocalGet(u32),
    LocalSet(u32),
    LocalTee(u32),
    Unary(UnOp),
    Binary(BinOp),
    Load,
    Store,
    Call { func: u32, n_args: u32, has_result: bool },
    Drop,
    Br(usize),
    BrIf(usize),
    BrTable(Vec<usize>, usize),
    Return,
    Unreachable,
    Nop,
}

/// A decoded function body: parameter and local counts, whether the function
/// returns a value, and its instruction sequence.
#[derive(Debug, Clone, PartialEq, Eq)]
pub struct FuncBody {
    pub n_params: u32,
    pub n_locals: u32,
    pub has_result: bool,
    pub instrs: Vec<Instr>,
}

/// Why a control-flow graph could not be built for a function index.
#[derive(Debug, Clone, Copy, PartialEq, Eq, Structural)]
pub enum CfgBuildError {
    /// The index names no function of the module.
    NoSuchFunc { index: u32 },
    /// The function is imported, so no body is present.
    FuncIsImported { index: u32 },
}

/// A basic-block terminator: where control continues after the block's
/// statements ran.
#[derive(Debug, PartialEq, Eq)]
pub enum Term {
    Br(usize),
    CondBr(Expr, usize, usize),
    BrTable(Expr, Vec<usize>, usize),
    Return(Option<Expr>),
    Trap,
}

/// The block indices a terminator can transfer control to, in order.
pub open spec fn term_targets(t: Term) -> Seq<usize> {
    match t {
        Term::Br(x) => seq![x],
        Term::CondBr(_, a, b) => seq![a, b],
        Term::BrTable(_, ts, d) => ts@.push(d),
        Term::Return(_) => Seq::empty(),
        Term::Trap => Seq::empty(),
    }
}

/// An ordered statement sequence with exactly one entry and one terminator.
#[derive(Debug, PartialEq, Eq)]
pub struct BasicBlock {
    pub stmts: Vec<Stmt>,
    pub term: Term,
}

/// A control-flow graph: blocks addressed by index, edges in both
/// directions, entry at block 0.
#[derive(Debug, PartialEq, Eq)]
pub struct Cfg {
    pub blocks: Vec<BasicBlock>,
    pub succs: Vec<Vec<usize>>,
    pub preds: Vec<Vec<usize>>,
}

/// There is an edge a -> b in the adjacency list `adj`.
pub open spec fn adj_edge(adj: Seq<Vec<usize>>, a: usize, b: usize) -> bool {
    a < adj.len() && adj[a as int]@.contains(b)
}

/// `p` is a path from `src` along `adj` that never touches `avoid`.
pub open spec fn adj_path(adj: Seq<Vec<usize>>, src: usize, avoid: Option<usize>, p: Seq<usize>) -> bool {
    &&& p.len() > 0
    &&& p[0] == src
    &&& forall|i: int| 0 <= i < p.len() - 1 ==> adj_edge(adj, #[trigger] p[i], p[i + 1])
    &&& forall|i: int| 0 <= i < p.len() ==> Some(#[trigger] p[i]) != avoid
}

/// Some path from `src` that avoids `avoid` ends at `b`.
pub open spec fn adj_reaches(adj: Seq<Vec<usize>>, src: usize, avoid: Option<usize>, b: usize) -> bool {
    exists|p: Seq<usize>| adj_path(adj, src, avoid, p) && p.last() == b
}

/// A step along an edge extends reachability.
pub proof fn lemma_reach_step(
    adj: Seq<Vec<usize>>,
    src: usize,
    avoid: Option<usize>,
    u: usize,
    s: usize,
)
    requires
        adj_reaches(adj, src, avoid, u),
        adj_edge(adj, u, s),
        Some(s) != avoid,
    ensures
        adj_reaches(adj, src, avoid, s),
{
    let p = choose|p: Seq<usize>| adj_path(adj, src, avoid, p) && p.last() == u;
    let q = p.push(s);
    assert(q.last() == s);
    assert(adj_path(adj, src, avoid, q)) by {
        assert(forall|i: int| 0 <= i < p.len() ==> q[i] == p[i]);
        assert(q[p.len() as int] == s);
        assert(adj_edge(adj, q[p.len() - 1], q[p.len() as int]));
    }
    assert(adj_reaches(adj, src, avoid, s));
}

/// Every reachable node is marked, provided the marking contains the source
/// and is closed under edges.
proof fn lemma_closed_covers(
    adj: Seq<Vec<usize>>,
    src: usize,
    avoid: Option<usize>,
    marked: Seq<bool>,
    p: Seq<usize>,
)
    requires
        marked.len() == adj.len(),
        src < adj.len(),
        marked[src as int],
        forall|u: usize, s: usize|
            u < adj.len() && marked[u as int] && #[trigger] adj_edge(adj, u, s) && Some(s) != avoid
                ==> s < adj.len() && marked[s as int],
        adj_path(adj, src, avoid, p),
        p.last() < adj.len(),
    ensures
        marked[p.last() as int],
    decreases p.len(),
{
    if p.len() == 1 {
        assert(p.last() == src);
    } else {
        let q = p.drop_last();
        assert(adj_path(adj, src, avoid, q)) by {
            assert(forall|i: int| 0 <= i < q.len() ==> q[i] == p[i]);
        }
        assert(adj_edge(adj, p[p.len() - 2], p[p.len() - 1]));
        assert(q.last() == p[p.len() - 2]);
        assert(q.last() < adj.len());
        lemma_closed_covers(adj, src, avoid, marked, q);
        assert(marked[q.last() as int]);
        lemma_reach_step(adj, src, avoid, q.last(), p.last());
    }
}

/// Breadth-first search from `src`, never stepping onto `avoid`. Returns the
/// marking (exactly the reachable nodes) and the discovery order: a duplicate
/// free list that starts at `src`, covers exactly the marked nodes, and in
/// which every later node has an edge from an earlier one.
pub fn bfs_reach(adj: &Vec<Vec<usize>>, src: usize, avoid: Option<usize>) -> (res: (
    Vec<bool>,
    Vec<usize>,
))
    requires
        src < adj@.len(),
        Some(src) != avoid,
        forall|a: int, k: int|
            0 <= a < adj@.len() && 0 <= k < (adj@[a])@.len() ==> (#[trigger] (adj@[a])@[k])
                < adj@.len(),
    ensures
        res.0@.len() == adj@.len(),
        forall|b: usize|
            b < adj@.len() ==> (res.0@[b as int] <==> adj_reaches(adj@, src, avoid, b)),
        res.1@.len() >= 1,
        res.1@[0] == src,
        forall|k1: int, k2: int|
            0 <= k1 < k2 < res.1@.len() ==> res.1@[k1] != res.1@[k2],
        forall|k: int| 0 <= k < res.1@.len() ==> (#[trigger] res.1@[k]) < adj@.len(),
        forall|k: int| 0 <= k < res.1@.len() ==> res.0@[res.1@[k] as int],
        forall|b: usize| b < adj@.len() && res.0@[b as int] ==> res.1@.contains(b),
        forall|k: int|
            1 <= k < res.1@.len() ==> exists|k2: int|
                0 <= k2 < k && adj_edge(adj@, res.1@[k2], #[trigger] res.1@[k]),
{
    let n = adj.len();
    let mut marked: Vec<bool> = Vec::new();
    let mut i: usize = 0;
    while i < n
        invariant
            i <= n,
            marked@.len() == i,
            forall|b: int| 0 <= b < i ==> !marked@[b],
        decreases n - i,
    {
        marked.push(false);
        i = i + 1;
    }
    marked[src] = true;
    let mut queue: Vec<usize> = Vec::new();
    queue.push(src);
    proof {
        let p0: Seq<usize> = seq![src];
        assert(p0.last() == src);
        assert(adj_path(adj@, src, avoid, p0));
        assert(adj_reaches(adj@, src, avoid, src));
    }
    let mut qi: usize = 0;
    while qi < queue.len()
        invariant
            src < n,
            Some(src) != avoid,
            n == adj@.len(),
            forall|a: int, k: int|
                0 <= a < adj@.len() && 0 <= k < (adj@[a])@.len() ==> (#[trigger] (adj@[a])@[k])
                    < adj@.len(),
            marked@.len() == n,
            qi <= queue@.len(),
            queue@.len() >= 1,
            queue@[0] == src,
            forall|k: int| 0 <= k < queue@.len() ==> (#[trigger] queue@[k]) < n,
            forall|k: int| 0 <= k < queue@.len() ==> marked@[queue@[k] as int],
            forall|k: int| 0 <= k < queue@.len() ==> Some(#[trigger] queue@[k]) != avoid,
            forall|k1: int, k2: int| 0 <= k1 < k2 < queue@.len() ==> queue@[k1] != queue@[k2],
            forall|b: usize| b < n && marked@[b as int] ==> queue@.contains(b),
            forall|k: int|
                0 <= k < queue@.len() ==> adj_reaches(adj@, src, avoid, #[trigger] queue@[k]),
            forall|k: int|
                1 <= k < queue@.len() ==> exists|k2: int|
                    0 <= k2 < k && adj_edge(adj@, queue@[k2], #[trigger] queue@[k]),
            forall|k: int, w: int|
                0 <= k < qi && 0 <= w < (adj@[queue@[k] as int])@.len() && Some(
                    #[trigger] (adj@[queue@[k] as int])@[w],
                ) != avoid ==> marked@[(adj@[queue@[k] as int])@[w] as int],
            queue@.len() <= n,
        decreases n - qi,
    {
        let u = queue[qi];
        let mut w: usize = 0;
        let n_succ = adj[u].len();
        while w < n_succ
            invariant
                src < n,
                Some(src) != avoid,
                n == adj@.len(),
                forall|a: int, k: int|
                    0 <= a < adj@.len() && 0 <= k < (adj@[a])@.len() ==> (#[trigger] (adj@[a])@[k])
                        < adj@.len(),
                marked@.len() == n,
                qi < queue@.len(),
                u == queue@[qi as int],
                u < n,
                n_succ == (adj@[u as int])@.len(),
                w <= n_succ,
                queue@.len() >= 1,
                queue@[0] == src,
                forall|k: int| 0 <= k < queue@.len() ==> (#[trigger] queue@[k]) < n,
                forall|k: int| 0 <= k < queue@.len() ==> marked@[queue@[k] as int],
                forall|k: int| 0 <= k < queue@.len() ==> Some(#[trigger] queue@[k]) != avoid,
                forall|k1: int, k2: int| 0 <= k1 < k2 < queue@.len() ==> queue@[k1] != queue@[k2],
                forall|b: usize| b < n && marked@[b as int] ==> queue@.contains(b),
                forall|k: int|
                    0 <= k < queue@.len() ==> adj_reaches(adj@, src, avoid, #[trigger] queue@[k]),
                forall|k: int|
                    1 <= k < queue@.len() ==> exists|k2: int|
                        0 <= k2 < k && adj_edge(adj@, queue@[k2], #[trigger] queue@[k]),
                forall|k: int, y: int|
                    0 <= k < qi && 0 <= y < (adj@[queue@[k] as int])@.len() && Some(
                        #[trigger] (adj@[queue@[k] as int])@[y],
                    ) != avoid ==> marked@[(adj@[queue@[k] as int])@[y] as int],
                forall|y: int|
                    0 <= y < w && Some((adj@[u as int])@[y]) != avoid ==> marked@[(
                    adj@[u as int])@[y] as int],
                queue@.len() <= n,
            decreases n_succ - w,
        {
            let s = adj[u][w];
            let skip = match avoid {
                Some(av) => s == av,
                None => false,
            };
            if !skip && !marked[s] {
                proof {
                    assert(adj_edge(adj@, u, s)) by {
                        assert((adj@[u as int])@[w as int] == s);
                    }
                    lemma_reach_step(adj@, src, avoid, u, s);
                }
                marked[s] = true;
                let ghost old_queue = queue@;
                queue.push(s);
                proof {
                    assert(forall|b: usize|
                        b < n && marked@[b as int] ==> queue@.contains(b)) by {
                        assert forall|b: usize| b < n && marked@[b as int] implies queue@.contains(
                            b,
                        ) by {
                            if b == s {
                                assert(queue@[queue@.len() - 1] == s);
                            } else {
                                assert(old_queue.contains(b));
                                let k = choose|k: int|
                                    0 <= k < old_queue.len() && old_queue[k] == b;
                                assert(queue@[k] == b);
                            }
                        }
                    }
                    assert forall|k: int|
                        1 <= k < queue@.len() implies exists|k2: int|
                        0 <= k2 < k && adj_edge(adj@, queue@[k2], #[trigger] queue@[k]) by {
                        if k == queue@.len() - 1 {
                            assert(queue@[qi as int] == u && queue@[k] == s);
                            assert(adj_edge(adj@, queue@[qi as int], queue@[k]));
                        } else {
                            assert(old_queue[k] == queue@[k]);
                            let k2 = choose|k2: int|
                                0 <= k2 < k && adj_edge(adj@, old_queue[k2], old_queue[k]);
                            assert(queue@[k2] == old_queue[k2]);
                            assert(adj_edge(adj@, queue@[k2], queue@[k]));
                        }
                    }
                    lemma_unique_bound(queue@, n);
                }
            }
            w = w + 1;
        }
        qi = qi + 1;
        proof {
            lemma_unique_bound(queue@, n);
        }
    }
    proof {
        assert forall|b: usize|
            b < adj@.len() && adj_reaches(adj@, src, avoid, b) implies marked@[b as int] by {
            let p = choose|p: Seq<usize>| adj_path(adj@, src, avoid, p) && p.last() == b;
            lemma_closed_covers(adj@, src, avoid, marked@, p);
        }
    }
    (marked, queue)
}

/// A duplicate-free sequence of indices below `n` has at most `n` elements.
pub(crate) proof fn lemma_wl_unique_bound(s: Seq<usize>, n: usize)
    requires
        forall|k: int| 0 <= k < s.len() ==> (#[trigger] s[k]) < n,
        forall|k1: int, k2: int| 0 <= k1 < k2 < s.len() ==> s[k1] != s[k2],
    ensures
        s.len() <= n,
{
    lemma_unique_bound(s, n);
}

proof fn lemma_unique_bound(s: Seq<usize>, n: usize)
    requires
        forall|k: int| 0 <= k < s.len() ==> (#[trigger] s[k]) < n,
        forall|k1: int, k2: int| 0 <= k1 < k2 < s.len() ==> s[k1] != s[k2],
    ensures
        s.len() <= n,
{
    broadcast use vstd::set::group_set_axioms;

    assert(s.no_duplicates()) by {
        assert forall|i: int, j: int|
            0 <= i < s.len() && 0 <= j < s.len() && i != j implies s[i] != s[j] by {
            if i < j {
                assert(s[i] != s[j]);
            } else {
                assert(s[j] != s[i]);
            }
        }
    }
    broadcast use vstd::seq_lib::seq_to_set_is_finite;

    s.unique_seq_to_set();
    let range = vstd::set_lib::set_int_range(0, n as int);
    vstd::set_lib::lemma_int_range(0, n as int);
    let f = |x: usize| x as int;
    let si = s.to_set().map(f);
    vstd::set_lib::lemma_map_size(s.to_set(), si, f);
    assert(si.subset_of(range)) by {
        assert forall|y: int| si.contains(y) implies range.contains(y) by {
            let x = choose|x: usize| s.to_set().contains(x) && f(x) == y;
            assert(s.to_set().contains(x));
            assert(s.contains(x));
        }
    }
    vstd::set_lib::lemma_len_subset(si, range);
}

impl Cfg {
    pub open spec fn n(&self) -> int {
        self.blocks@.len() as int
    }

    /// Structural well-formedness: edge arrays match the block array, every
    /// successor list restates its block's terminator targets, every edge
    /// stays in range, and the predecessor lists are the duplicate-free dual
    /// of the successor lists.
    pub open spec fn wf_shape(&self) -> bool {
        &&& self.blocks@.len() >= 1
        &&& self.succs@.len() == self.blocks@.len()
        &&& self.preds@.len() == self.blocks@.len()
        &&& forall|b: int|
            0 <= b < self.n() ==> (#[trigger] self.succs@[b])@ == term_targets(
                self.blocks@[b].term,
            )
        &&& forall|b: int, k: int|
            0 <= b < self.n() && 0 <= k < (self.succs@[b])@.len() ==> (#[trigger] (
            self.succs@[b])@[k]) < self.blocks@.len()
        &&& forall|b: int, k: int|
            0 <= b < self.n() && 0 <= k < (self.preds@[b])@.len() ==> (#[trigger] (
            self.preds@[b])@[k]) < self.blocks@.len()
        &&& forall|b: int, k: int|
            0 <= b < self.n() && 0 <= k < (self.preds@[b])@.len()
                ==> self.succs@[(#[trigger] (self.preds@[b])@[k]) as int]@.contains(b as usize)
        &&& forall|p: int, k: int|
            0 <= p < self.n() && 0 <= k < (self.succs@[p])@.len()
                ==> self.preds@[(#[trigger] (self.succs@[p])@[k]) as int]@.contains(p as usize)
        &&& forall|b: int, k1: int, k2: int|
            0 <= b < self.n() && 0 <= k1 < k2 < (self.preds@[b])@.len() ==> (#[trigger] (
            self.preds@[b])@[k1]) != (#[trigger] (self.preds@[b])@[k2])
    }

    /// Block `b` is reachable from the entry block.
    pub open spec fn reachable(&self, b: usize) -> bool {
        adj_reaches(self.succs@, 0, None, b)
    }

    /// A well-formed graph: well-shaped, with every block reachable from the
    /// entry.
    pub open spec fn wf(&self) -> bool {
        &&& self.wf_shape()
        &&& forall|b: usize| b < self.n() ==> self.reachable(b)
    }
}

} // verus!

verus! {

/// The terminator's target list, as a vector.
fn term_targets_exec(t: &Term) -> (r: Vec<usize>)
    ensures
        r@ == term_targets(*t),
{
    match t {
        Term::Br(x) => {
            let mut r: Vec<usize> = Vec::new();
            r.push(*x);
            proof {
                assert(r@ =~= term_targets(*t));
            }
            r
        },
        Term::CondBr(_, a, b) => {
            let mut r: Vec<usize> = Vec::new();
            r.push(*a);
            r.push(*b);
            proof {
                assert(r@ =~= term_targets(*t));
            }
            r
        },
        Term::BrTable(_, ts, d) => {
            let mut r: Vec<usize> = Vec::new();
            let mut k: usize = 0;
            while k < ts.len()
                invariant
                    k <= ts@.len(),
                    r@ == ts@.subrange(0, k as int),
                decreases ts@.len() - k,
            {
                r.push(ts[k]);
                k = k + 1;
            }
            r.push(*d);
            proof {
                assert(ts@.subrange(0, ts@.len() as int) =~= ts@);
                assert(r@ =~= term_targets(*t));
            }
            r
        },
        Term::Return(_) => {
            let r: Vec<usize> = Vec::new();
            proof {
                assert(r@ =~= term_targets(*t));
            }
            r
        },
        Term::Trap => {
            let r: Vec<usize> = Vec::new();
            proof {
                assert(r@ =~= term_targets(*t));
            }
            r
        },
    }
}

fn contains_usize(v: &Vec<usize>, x: usize) -> (r: bool)
    ensures
        r == v@.contains(x),
{
    let mut k: usize = 0;
    while k < v.len()
        invariant
            k <= v@.len(),
            forall|j: int| 0 <= j < k ==> v@[j] != x,
        decreases v@.len() - k,
    {
        if v[k] == x {
            return true;
        }
        k = k + 1;
    }
    false
}

/// A graph of one block that leaves through `term` (which must not branch).
pub(crate) fn single_block_cfg(term: Term) -> (c: Cfg)
    requires
        term_targets(term).len() == 0,
    ensures
        c.wf(),
        c.blocks@.len() == 1,
        c.blocks@[0].stmts@.len() == 0,
        c.blocks@[0].term == term,
{
    let mut blocks: Vec<BasicBlock> = Vec::new();
    blocks.push(BasicBlock { stmts: Vec::new(), term });
    let mut succs: Vec<Vec<usize>> = Vec::new();
    succs.push(Vec::new());
    let mut preds: Vec<Vec<usize>> = Vec::new();
    preds.push(Vec::new());
    let c = Cfg { blocks, succs, preds };
    proof {
        assert((c.succs@[0])@ =~= term_targets(c.blocks@[0].term));
        let p0: Seq<usize> = seq![0usize];
        assert(p0.last() == 0usize);
        assert(adj_path(c.succs@, 0, None, p0));
        assert(c.reachable(0));
        assert forall|b: usize| b < c.n() implies c.reachable(b) by {
            assert(b == 0);
        }
    }
    c
}

/// Rewrites every branch target of a terminator through `map`.
fn retarget_term(t: Term, map: &Vec<usize>) -> (r: Term)
    requires
        forall|k: int|
            0 <= k < term_targets(t).len() ==> (#[trigger] term_targets(t)[k]) < map@.len(),
    ensures
        term_targets(r).len() == term_targets(t).len(),
        forall|k: int|
            0 <= k < term_targets(t).len() ==> #[trigger] term_targets(r)[k] == map@[term_targets(
                t,
            )[k] as int],
{
    match t {
        Term::Br(x) => {
            proof {
                assert(term_targets(t)[0] == x);
            }
            Term::Br(map[x])
        },
        Term::CondBr(c, a, b) => {
            proof {
                assert(term_targets(t)[0] == a);
                assert(term_targets(t)[1] == b);
            }
            Term::CondBr(c, map[a], map[b])
        },
        Term::BrTable(e, ts, d) => {
            let mut mapped: Vec<usize> = Vec::new();
            let mut k: usize = 0;
            while k < ts.len()
                invariant
                    k <= ts@.len(),
                    mapped@.len() == k,
                    forall|j: int|
                        0 <= j < ts@.len() ==> (#[trigger] term_targets(
                            Term::BrTable(e, ts, d),
                        )[j]) == ts@[j],
                    forall|j: int|
                        0 <= j < term_targets(Term::BrTable(e, ts, d)).len() ==> (
                        #[trigger] term_targets(Term::BrTable(e, ts, d))[j]) < map@.len(),
                    forall|j: int| 0 <= j < k ==> #[trigger] mapped@[j] == map@[ts@[j] as int],
                decreases ts@.len() - k,
            {
                proof {
                    assert(term_targets(Term::BrTable(e, ts, d))[k as int] == ts@[k as int]);
                }
                let mt = map[ts[k]];
                mapped.push(mt);
                k = k + 1;
            }
            proof {
                assert(term_targets(Term::BrTable(e, ts, d)).last() == d);
            }
            let md = map[d];
            let ghost old_t = Term::BrTable(e, ts, d);
            let r = Term::BrTable(e, mapped, md);
            proof {
                assert forall|j: int|
                    0 <= j < term_targets(old_t).len() implies #[trigger] term_targets(r)[j]
                    == map@[term_targets(old_t)[j] as int] by {
                    if j < term_targets(old_t).len() - 1 {
                        assert(term_targets(old_t)[j] == old_t->BrTable_1@[j]);
                    }
                }
            }
            r
        },
        Term::Return(e) => Term::Return(e),
        Term::Trap => Term::Trap,
    }
}

} // verus!

verus! {

/// Block `k` has an edge coming in from some earlier-numbered block.
pub open spec fn has_earlier_parent(succs: Seq<Vec<usize>>, k: int) -> bool {
    exists|k2: int| 0 <= k2 < k && succs[k2]@.contains(k as usize)
}

/// In a graph where every block after the entry has an edge from an
/// earlier-numbered block, every block is reachable from block 0.
proof fn lemma_renumber_reach(succs: Seq<Vec<usize>>, j: int)
    requires
        succs.len() <= usize::MAX,
        0 <= j < succs.len(),
        forall|k: int| 1 <= k < succs.len() ==> #[trigger] has_earlier_parent(succs, k),
    ensures
        adj_reaches(succs, 0, None, j as usize),
    decreases j,
{
    if j == 0 {
        let p0: Seq<usize> = seq![0usize];
        assert(p0.last() == 0usize);
        assert(adj_path(succs, 0, None, p0));
    } else {
        assert(has_earlier_parent(succs, j));
        let k2 = choose|k2: int| 0 <= k2 < j && succs[k2]@.contains(j as usize);
        lemma_renumber_reach(succs, k2);
        assert((k2 as usize) as int == k2);
        assert(succs[(k2 as usize) as int]@.contains(j as usize));
        assert(adj_edge(succs, k2 as usize, j as usize));
        lemma_reach_step(succs, 0, None, k2 as usize, j as usize);
    }
}

/// Takes a block out of a vector, leaving an empty trap block behind.
fn take_block(v: &mut Vec<BasicBlock>, i: usize) -> (r: BasicBlock)
    requires
        i < old(v)@.len(),
    ensures
        r == old(v)@[i as int],
        final(v)@.len() == old(v)@.len(),
        forall|x: int| 0 <= x < old(v)@.len() && x != i ==> final(v)@[x] == old(v)@[x],
{
    let mut dummy = BasicBlock { stmts: Vec::new(), term: Term::Trap };
    core::mem::swap(&mut dummy, &mut v[i]);
    dummy
}

/// Keeps exactly the blocks the entry reaches, renumbered in discovery
/// order, and rebuilds both edge directions. Unreachable blocks are pruned
/// here, which is what makes the result well-formed.
fn finish_cfg(raw: Vec<BasicBlock>) -> (c: Cfg)
    requires
        raw@.len() >= 1,
        forall|b: int, k: int|
            0 <= b < raw@.len() && 0 <= k < term_targets(raw@[b].term).len() ==> (
            #[trigger] term_targets(raw@[b].term)[k]) < raw@.len(),
    ensures
        c.wf(),
        forall|j: int|
            0 <= j < c.blocks@.len() ==> exists|b: int|
                0 <= b < raw@.len() && (#[trigger] c.blocks@[j]).stmts == raw@[b].stmts,
        c.blocks@[0].stmts == raw@[0].stmts,
        (forall|b: int|
            0 <= b < raw@.len() ==> term_targets(#[trigger] raw@[b].term).len() == 0)
            ==> c.blocks@.len() == 1,
{
    let rn = raw.len();
    let ghost raw0 = raw@;
    let mut raw_succs: Vec<Vec<usize>> = Vec::new();
    let mut b: usize = 0;
    while b < rn
        invariant
            rn == raw@.len(),
            raw@ == raw0,
            b <= rn,
            raw_succs@.len() == b,
            forall|j: int|
                0 <= j < b ==> (#[trigger] raw_succs@[j])@ == term_targets(raw0[j].term),
        decreases rn - b,
    {
        let ts = term_targets_exec(&raw[b].term);
        raw_succs.push(ts);
        b = b + 1;
    }
    proof {
        assert forall|a: int, k: int|
            0 <= a < raw_succs@.len() && 0 <= k < (raw_succs@[a])@.len() implies (#[trigger] (
        raw_succs@[a])@[k]) < raw_succs@.len() by {
            assert((raw_succs@[a])@ == term_targets(raw0[a].term));
        }
    }
    let bfs = bfs_reach(&raw_succs, 0, None);
    let mark = bfs.0;
    let order = bfs.1;
    let nb = order.len();
    proof {
        lemma_unique_bound(order@, rn);
        if forall|b: int|
            0 <= b < raw0.len() ==> term_targets(#[trigger] raw0[b].term).len() == 0 {
            // without branches only the entry is reachable, so exactly one
            // block survives
            assert forall|x: usize| x < rn && x != 0 implies !adj_reaches(
                raw_succs@,
                0,
                None,
                x,
            ) by {
                if adj_reaches(raw_succs@, 0, None, x) {
                    let p = choose|p: Seq<usize>|
                        adj_path(raw_succs@, 0, None, p) && p.last() == x;
                    assert(p[0] == 0);
                    assert(p.len() >= 2);
                    let a = p[p.len() - 2];
                    assert(adj_edge(raw_succs@, a, x));
                    assert((raw_succs@[a as int])@ == term_targets(raw0[a as int].term));
                    assert(!(raw_succs@[a as int])@.contains(x));
                }
            }
            if nb >= 2 {
                assert(mark@[order@[1] as int]);
                assert(adj_reaches(raw_succs@, 0, None, order@[1]));
                assert(order@[1] == 0usize);
                assert(order@[0] != order@[1]);
                assert(false);
            }
        }
    }
    let mut new_id: Vec<usize> = Vec::new();
    let mut x: usize = 0;
    while x < rn
        invariant
            x <= rn,
            new_id@.len() == x,
        decreases rn - x,
    {
        new_id.push(0);
        x = x + 1;
    }
    let mut j: usize = 0;
    while j < nb
        invariant
            nb == order@.len(),
            nb <= rn,
            new_id@.len() == rn,
            j <= nb,
            forall|k: int| 0 <= k < nb ==> (#[trigger] order@[k]) < rn,
            forall|k1: int, k2: int| 0 <= k1 < k2 < nb ==> order@[k1] != order@[k2],
            forall|jj: int| 0 <= jj < j ==> new_id@[(#[trigger] order@[jj]) as int] == jj,
        decreases nb - j,
    {
        new_id[order[j]] = j;
        proof {
            assert forall|jj: int|
                0 <= jj < j + 1 implies new_id@[(#[trigger] order@[jj]) as int] == jj by {
                if jj < j {
                    assert(order@[jj] != order@[j as int]);
                }
            }
        }
        j = j + 1;
    }
    proof {
        lemma_unique_bound(order@, rn);
        assert forall|y: usize| y < rn && mark@[y as int] implies new_id@[y as int] < nb
            && order@[new_id@[y as int] as int] == y by {
            assert(order@.contains(y));
            let k = choose|k: int| 0 <= k < order@.len() && order@[k] == y;
            assert(new_id@[y as int] == k);
        }
    }
    let mut raw_mut = raw;
    let mut blocks: Vec<BasicBlock> = Vec::new();
    let mut succs: Vec<Vec<usize>> = Vec::new();
    let mut j2: usize = 0;
    while j2 < nb
        invariant
            nb == order@.len(),
            nb <= rn,
            rn == raw0.len(),
            new_id@.len() == rn,
            raw_mut@.len() == rn,
            j2 <= nb,
            nb >= 1,
            order@[0] == 0usize,
            mark@.len() == rn,
            forall|k: int| 0 <= k < nb ==> (#[trigger] order@[k]) < rn,
            forall|k1: int, k2: int| 0 <= k1 < k2 < nb ==> order@[k1] != order@[k2],
            forall|jj: int| 0 <= jj < nb ==> new_id@[(#[trigger] order@[jj]) as int] == jj,
            forall|k: int| 0 <= k < nb ==> mark@[(#[trigger] order@[k]) as int],
            forall|y: usize|
                y < rn && mark@[y as int] ==> new_id@[y as int] < nb && order@[new_id@[y as int] as int]
                    == y,
            forall|y: usize| y < rn ==> (mark@[y as int] <==> adj_reaches(raw_succs@, 0, None, y)),
            forall|k: int|
                1 <= k < nb ==> exists|k2: int|
                    0 <= k2 < k && adj_edge(raw_succs@, order@[k2], #[trigger] order@[k]),
            raw_succs@.len() == rn,
            forall|q: int|
                0 <= q < rn ==> (#[trigger] raw_succs@[q])@ == term_targets(raw0[q].term),
            forall|bq: int, k: int|
                0 <= bq < rn && 0 <= k < term_targets(raw0[bq].term).len() ==> (
                #[trigger] term_targets(raw0[bq].term)[k]) < rn,
            forall|y: usize|
                y < rn && !order@.subrange(0, j2 as int).contains(y) ==> raw_mut@[y as int]
                    == raw0[y as int],
            blocks@.len() == j2,
            succs@.len() == j2,
            forall|jj: int|
                0 <= jj < j2 ==> (#[trigger] succs@[jj])@ == term_targets(blocks@[jj].term),
            forall|jj: int, k: int|
                0 <= jj < j2 && 0 <= k < (succs@[jj])@.len() ==> (#[trigger] (succs@[jj])@[k]) < nb,
            forall|jj: int|
                0 <= jj < j2 ==> (#[trigger] succs@[jj])@.len() == term_targets(
                    raw0[order@[jj] as int].term,
                ).len(),
            forall|jj: int, k: int|
                0 <= jj < j2 && 0 <= k < (succs@[jj])@.len() ==> (#[trigger] (succs@[jj])@[k])
                    == new_id@[term_targets(raw0[order@[jj] as int].term)[k] as int],
            forall|jj: int|
                0 <= jj < j2 ==> (#[trigger] blocks@[jj]).stmts == raw0[order@[jj] as int].stmts,
        decreases nb - j2,
    {
        let oid = order[j2];
        proof {
            assert(!order@.subrange(0, j2 as int).contains(oid)) by {
                if order@.subrange(0, j2 as int).contains(oid) {
                    let k = choose|k: int|
                        0 <= k < j2 && order@.subrange(0, j2 as int)[k] == oid;
                    assert(order@[k] == order@[j2 as int]);
                }
            }
        }
        let ghost rm_before = raw_mut@;
        let ob = take_block(&mut raw_mut, oid);
        proof {
            assert(rm_before[oid as int] == raw0[oid as int]);
            assert(ob == raw0[oid as int]);
            assert forall|k: int|
                0 <= k < term_targets(ob.term).len() implies (#[trigger] term_targets(
                ob.term,
            )[k]) < new_id@.len() by {}
        }
        let nt = retarget_term(ob.term, &new_id);
        proof {
            assert(mark@[oid as int]);
            assert forall|k: int|
                0 <= k < term_targets(nt).len() implies (#[trigger] term_targets(nt)[k]) < nb by {
                let ot = term_targets(ob.term)[k];
                assert(term_targets(nt)[k] == new_id@[ot as int]);
                assert((raw_succs@[oid as int])@.contains(ot)) by {
                    assert((raw_succs@[oid as int])@ == term_targets(raw0[oid as int].term));
                    assert(term_targets(raw0[oid as int].term)[k] == ot);
                }
                assert(adj_edge(raw_succs@, oid, ot));
                lemma_reach_step(raw_succs@, 0, None, oid, ot);
                assert(mark@[ot as int]);
            }
        }
        let sv = term_targets_exec(&nt);
        blocks.push(BasicBlock { stmts: ob.stmts, term: nt });
        succs.push(sv);
        proof {
            assert forall|y: usize|
                y < rn && !order@.subrange(0, j2 + 1 as int).contains(y) implies raw_mut@[y as int]
                    == raw0[y as int] by {
                assert(order@.subrange(0, j2 + 1 as int)[j2 as int] == oid);
                assert(y != oid);
                assert(!order@.subrange(0, j2 as int).contains(y)) by {
                    if order@.subrange(0, j2 as int).contains(y) {
                        let k = choose|k: int|
                            0 <= k < j2 && order@.subrange(0, j2 as int)[k] == y;
                        assert(order@.subrange(0, j2 + 1 as int)[k] == y);
                    }
                }
                assert(rm_before[y as int] == raw0[y as int]);
                assert(raw_mut@[y as int] == rm_before[y as int]);
            }
        }
        j2 = j2 + 1;
    }
    let mut preds: Vec<Vec<usize>> = Vec::new();
    let mut y2: usize = 0;
    while y2 < nb
        invariant
            y2 <= nb,
            preds@.len() == y2,
            forall|k: int| 0 <= k < y2 ==> (#[trigger] preds@[k])@.len() == 0,
        decreases nb - y2,
    {
        preds.push(Vec::new());
        y2 = y2 + 1;
    }
    let mut p: usize = 0;
    while p < nb
        invariant
            nb == blocks@.len(),
            nb == succs@.len(),
            preds@.len() == nb,
            p <= nb,
            forall|jj: int, k: int|
                0 <= jj < nb && 0 <= k < (succs@[jj])@.len() ==> (#[trigger] (succs@[jj])@[k]) < nb,
            forall|bq: int, k: int|
                0 <= bq < nb && 0 <= k < (preds@[bq])@.len() ==> (#[trigger] (preds@[bq])@[k]) < nb,
            forall|bq: int, k: int|
                0 <= bq < nb && 0 <= k < (preds@[bq])@.len() ==> succs@[(#[trigger] (
                preds@[bq])@[k]) as int]@.contains(bq as usize),
            forall|bq: int, k: int|
                0 <= bq < nb && 0 <= k < (preds@[bq])@.len() ==> ((#[trigger] (preds@[bq])@[k])
                    as int) < p,
            forall|pp: int, k: int|
                0 <= pp < p && 0 <= k < (succs@[pp])@.len() ==> preds@[(#[trigger] (
                succs@[pp])@[k]) as int]@.contains(pp as usize),
            forall|bq: int, k1: int, k2: int|
                0 <= bq < nb && 0 <= k1 < k2 < (preds@[bq])@.len() ==> (#[trigger] (
                preds@[bq])@[k1]) != (#[trigger] (preds@[bq])@[k2]),
        decreases nb - p,
    {
        let mut k: usize = 0;
        let ghost preds_outer = preds@;
        let n_succ = succs[p].len();
        while k < n_succ
            invariant
                nb == blocks@.len(),
                nb == succs@.len(),
                preds@.len() == nb,
                p < nb,
                n_succ == (succs@[p as int])@.len(),
                k <= n_succ,
                forall|jj: int, kk: int|
                    0 <= jj < nb && 0 <= kk < (succs@[jj])@.len() ==> (#[trigger] (
                    succs@[jj])@[kk]) < nb,
                forall|bq: int, kk: int|
                    0 <= bq < nb && 0 <= kk < (preds@[bq])@.len() ==> (#[trigger] (
                    preds@[bq])@[kk]) < nb,
                forall|bq: int, kk: int|
                    0 <= bq < nb && 0 <= kk < (preds@[bq])@.len() ==> succs@[(#[trigger] (
                    preds@[bq])@[kk]) as int]@.contains(bq as usize),
                forall|bq: int, kk: int|
                    0 <= bq < nb && 0 <= kk < (preds@[bq])@.len() ==> ((#[trigger] (
                    preds@[bq])@[kk]) as int) <= p as int,
                forall|pp: int, kk: int|
                    0 <= pp < p && 0 <= kk < (succs@[pp])@.len() ==> preds@[(#[trigger] (
                    succs@[pp])@[kk]) as int]@.contains(pp as usize),
                forall|kk: int|
                    0 <= kk < k ==> preds@[((succs@[p as int])@[kk]) as int]@.contains(p),
                forall|bq: int, k1: int, k2: int|
                    0 <= bq < nb && 0 <= k1 < k2 < (preds@[bq])@.len() ==> (#[trigger] (
                    preds@[bq])@[k1]) != (#[trigger] (preds@[bq])@[k2]),
            decreases n_succ - k,
        {
            let t = succs[p][k];
            if !contains_usize(&preds[t], p) {
                let ghost before = preds@;
                proof {
                    assert(!before[t as int]@.contains(p));
                }
                preds[t].push(p);
                proof {
                    assert(preds@[t as int]@ == before[t as int]@.push(p));
                    assert(preds@[t as int]@.last() == p);
                    assert(forall|bq: int|
                        0 <= bq < nb && bq != t as int ==> #[trigger] preds@[bq] == before[bq]);
                    assert(forall|w: int|
                        0 <= w < before[t as int]@.len() ==> #[trigger] preds@[t as int]@[w]
                            == before[t as int]@[w]);
                    assert forall|bq: int, kk: int|
                        0 <= bq < nb && 0 <= kk < (preds@[bq])@.len() implies succs@[(
                    #[trigger] (preds@[bq])@[kk]) as int]@.contains(bq as usize) by {
                        if bq == t as int && kk == (preds@[bq])@.len() - 1 {
                            assert((preds@[bq])@[kk] == p);
                            assert((succs@[p as int])@[k as int] == t);
                        } else {
                            assert((preds@[bq])@[kk] == (before[bq])@[kk]);
                        }
                    }
                    assert forall|bq: int, kk: int|
                        0 <= bq < nb && 0 <= kk < (preds@[bq])@.len() implies ((#[trigger] (
                    preds@[bq])@[kk]) as int) <= p as int by {
                        if !(bq == t as int && kk == (preds@[bq])@.len() - 1) {
                            assert((preds@[bq])@[kk] == (before[bq])@[kk]);
                        }
                    }
                    assert forall|bq: int, kk: int|
                        0 <= bq < nb && 0 <= kk < (preds@[bq])@.len() implies (#[trigger] (
                    preds@[bq])@[kk]) < nb by {
                        if !(bq == t as int && kk == (preds@[bq])@.len() - 1) {
                            assert((preds@[bq])@[kk] == (before[bq])@[kk]);
                        }
                    }
                    assert forall|pp: int, kk: int|
                        0 <= pp < p && 0 <= kk < (succs@[pp])@.len() implies preds@[(#[trigger] (
                    succs@[pp])@[kk]) as int]@.contains(pp as usize) by {
                        let tt = (succs@[pp])@[kk];
                        assert(before[tt as int]@.contains(pp as usize));
                        let w = choose|w: int|
                            0 <= w < before[tt as int]@.len() && before[tt as int]@[w] == pp
                                as usize;
                        assert(preds@[tt as int]@[w] == pp as usize);
                    }
                    assert forall|kk: int|
                        0 <= kk < k + 1 implies preds@[((succs@[p as int])@[kk]) as int]@.contains(
                        p,
                    ) by {
                        let tt = (succs@[p as int])@[kk];
                        if kk < k {
                            assert(before[tt as int]@.contains(p));
                            let w = choose|w: int|
                                0 <= w < before[tt as int]@.len() && before[tt as int]@[w] == p;
                            assert(preds@[tt as int]@[w] == p);
                        } else {
                            assert(preds@[t as int]@.last() == p);
                        }
                    }
                    assert forall|bq: int, k1: int, k2: int|
                        0 <= bq < nb && 0 <= k1 < k2 < (preds@[bq])@.len() implies (#[trigger] (
                    preds@[bq])@[k1]) != (#[trigger] (preds@[bq])@[k2]) by {
                        if bq == t as int && k2 == (preds@[bq])@.len() - 1 {
                            assert((preds@[bq])@[k1] == before[bq]@[k1]);
                            assert((preds@[bq])@[k2] == p);
                            if before[bq]@[k1] == p {
                                assert(before[t as int]@.contains(p));
                            }
                        } else if bq == t as int {
                            assert((preds@[bq])@[k1] == before[bq]@[k1]);
                            assert((preds@[bq])@[k2] == before[bq]@[k2]);
                        }
                    }
                }
            } else {
                proof {
                    assert(preds@[t as int]@.contains(p));
                    assert forall|kk: int|
                        0 <= kk < k + 1 implies preds@[((succs@[p as int])@[kk]) as int]@.contains(
                        p,
                    ) by {
                        if kk == k {
                            assert((succs@[p as int])@[kk] == t);
                        }
                    }
                }
            }
            k = k + 1;
        }
        proof {
            assert forall|pp: int, kk: int|
                0 <= pp < p + 1 && 0 <= kk < (succs@[pp])@.len() implies preds@[(#[trigger] (
            succs@[pp])@[kk]) as int]@.contains(pp as usize) by {
                if pp == p as int {
                    assert(preds@[((succs@[p as int])@[kk]) as int]@.contains(p));
                }
            }
            assert forall|bq: int, kk: int|
                0 <= bq < nb && 0 <= kk < (preds@[bq])@.len() implies ((#[trigger] (
            preds@[bq])@[kk]) as int) < p + 1 by {}
        }
        p = p + 1;
    }
    let c = Cfg { blocks, succs, preds };
    proof {
        assert forall|j: int|
            0 <= j < c.blocks@.len() implies exists|b: int|
            0 <= b < raw0.len() && (#[trigger] c.blocks@[j]).stmts == raw0[b].stmts by {
            assert(c.blocks@[j].stmts == raw0[order@[j] as int].stmts);
        }
        assert(c.blocks@[0].stmts == raw0[order@[0] as int].stmts);
        assert(c.n() == nb as int);
        assert(c.blocks@.len() >= 1);
        assert forall|k: int| 1 <= k < nb implies #[trigger] has_earlier_parent(c.succs@, k) by {
            let k2 = choose|k2: int|
                0 <= k2 < k && adj_edge(raw_succs@, order@[k2], order@[k]);
            assert((raw_succs@[order@[k2] as int])@.contains(order@[k]));
            let w = choose|w: int|
                0 <= w < (raw_succs@[order@[k2] as int])@.len() && (raw_succs@[order@[k2] as int])@[w]
                    == order@[k];
            assert(term_targets(raw0[order@[k2] as int].term)[w] == order@[k]);
            assert((c.succs@[k2])@[w] == new_id@[order@[k] as int]);
            assert(new_id@[order@[k] as int] == k);
            assert((c.succs@[k2])@.contains(k as usize));
        }
        assert forall|y: usize| y < c.n() implies c.reachable(y) by {
            lemma_renumber_reach(c.succs@, y as int);
        }
    }
    c
}

} // verus!

verus! {

/// The stack slot `d` holds the pseudo-register with this identity.
pub open spec fn stack_var(base: nat, d: nat) -> Var {
    Var { index: (base + d) as u32, subscript: 0, asserted: false }
}

/// What a pop at depth `d` reads: the top slot's register, or zero on an
/// underflow (malformed input).
pub open spec fn pop_expr(base: nat, d: nat) -> crate::ssa::ExprV {
    if d > 0 {
        crate::ssa::ExprV::Read(stack_var(base, (d - 1) as nat))
    } else {
        crate::ssa::ExprV::Const(0)
    }
}

/// The depth after a pop.
pub open spec fn pop_depth(d: nat) -> nat {
    if d > 0 {
        (d - 1) as nat
    } else {
        0
    }
}

/// The variable naming operand-stack slot `d`; pseudo-registers sit above
/// the function's parameters and locals. `None` when the slot index would
/// not fit the register space.
fn stack_reg(base: u64, d: usize) -> (r: Option<Var>)
    ensures
        base + d <= 0xFFFF_FFFE ==> r == Some(stack_var(base as nat, d as nat)),
{
    if d > 0xFFFF_FFFEusize || base > 0xFFFF_FFFEu64 {
        return None;
    }
    let idx = base + (d as u64);
    if idx <= 0xFFFF_FFFEu64 {
        Some(Var::no_sub(idx as u32))
    } else {
        None
    }
}

/// Pops the operand stack, reading the register that holds its top. An
/// underflowing pop (malformed input) reads as zero.
fn pop_operand(base: u64, d: &mut usize) -> (e: Expr)
    ensures
        *final(d) == pop_depth(*old(d) as nat),
        base + *old(d) <= 0xFFFF_FFFF ==> e@ == pop_expr(base as nat, *old(d) as nat),
{
    if *d > 0 {
        *d = *d - 1;
        match stack_reg(base, *d) {
            Some(v) => Expr::Read(v),
            None => Expr::Const(0),
        }
    } else {
        Expr::Const(0)
    }
}

/// Pops the operand stack as a bare variable (for call arguments).
fn pop_var(base: u64, d: &mut usize) -> (v: Var)
{
    if *d > 0 {
        *d = *d - 1;
        match stack_reg(base, *d) {
            Some(v) => v,
            None => Var::no_sub(0),
        }
    } else {
        Var::no_sub(0)
    }
}

/// Pushes a value: assigns it to the register of the next free slot.
/// Returns false when the register space is exhausted.
fn push_operand(base: u64, d: &mut usize, e: Expr, stmts: &mut Vec<Stmt>) -> (ok: bool)
    ensures
        base + *old(d) <= 0xFFFF_FFFE ==> {
            &&& ok
            &&& *final(d) == *old(d) + 1
            &&& final(stmts)@.len() == old(stmts)@.len() + 1
            &&& crate::ssa::stmts_view(final(stmts)@) == crate::ssa::stmts_view(old(stmts)@).push(
                crate::ssa::StmtV::Assign(stack_var(base as nat, *old(d) as nat), e@),
            )
        },
        !ok ==> *final(d) == *old(d) && final(stmts)@ == old(stmts)@,
{
    if *d == usize::MAX {
        return false;
    }
    match stack_reg(base, *d) {
        Some(v) => {
            let ghost pre = stmts@;
            let s = Stmt::Assign(v, e);
            stmts.push(s);
            proof {
                crate::ssa::lemma_stmts_view_push(pre, s);
            }
            *d = *d + 1;
            true
        },
        None => false,
    }
}

/// The value returned when control leaves the function at stack depth `d`.
fn return_value(base: u64, d: &mut usize, has_result: bool) -> (r: Option<Expr>)
    ensures
        (has_result && *old(d) > 0 && base + *old(d) <= 0xFFFF_FFFF) ==> (r matches Some(e) && e@
            == pop_expr(base as nat, *old(d) as nat)),
        !(has_result && *old(d) > 0) ==> r is None,
{
    if has_result && *d > 0 {
        Some(pop_operand(base, d))
    } else {
        None
    }
}

/// The instruction neither branches, nor returns, nor calls: decoding it
/// only moves values through the operand stack.
pub open spec fn is_plain_instr(i: Instr) -> bool {
    match i {
        Instr::Br(_) => false,
        Instr::BrIf(_) => false,
        Instr::BrTable(_, _) => false,
        Instr::Return => false,
        Instr::Unreachable => false,
        Instr::Call { .. } => false,
        _ => true,
    }
}

/// The body is a single straight line of plain instructions.
pub open spec fn straight_line(body: FuncBody) -> bool {
    forall|k: int| 0 <= k < body.instrs@.len() ==> is_plain_instr(#[trigger] body.instrs@[k])
}

/// The statements decoding one plain instruction emits at stack depth `d`.
pub open spec fn sim_step_stmts(base: nat, d: nat, i: Instr) -> Seq<crate::ssa::StmtV> {
    match i {
        Instr::Const(c) => seq![
            crate::ssa::StmtV::Assign(stack_var(base, d), crate::ssa::ExprV::Const(c)),
        ],
        Instr::LocalGet(x) => seq![
            crate::ssa::StmtV::Assign(
                stack_var(base, d),
                crate::ssa::ExprV::Read(Var { index: x, subscript: 0, asserted: false }),
            ),
        ],
        Instr::LocalSet(x) => seq![
            crate::ssa::StmtV::Assign(
                Var { index: x, subscript: 0, asserted: false },
                pop_expr(base, d),
            ),
        ],
        Instr::LocalTee(x) => seq![
            crate::ssa::StmtV::Assign(
                Var { index: x, subscript: 0, asserted: false },
                pop_expr(base, d),
            ),
        ],
        Instr::Unary(op) => seq![
            crate::ssa::StmtV::Assign(
                stack_var(base, pop_depth(d)),
                crate::ssa::ExprV::Unary(op, Box::new(pop_expr(base, d))),
            ),
        ],
        Instr::Binary(op) => seq![
            crate::ssa::StmtV::Assign(
                stack_var(base, pop_depth(pop_depth(d))),
                crate::ssa::ExprV::Binary(
                    op,
                    Box::new(pop_expr(base, pop_depth(d))),
                    Box::new(pop_expr(base, d)),
                ),
            ),
        ],
        Instr::Load => seq![
            crate::ssa::StmtV::Assign(
                stack_var(base, pop_depth(d)),
                crate::ssa::ExprV::Load(Box::new(pop_expr(base, d))),
            ),
        ],
        Instr::Store => seq![
            crate::ssa::StmtV::Store(pop_expr(base, pop_depth(d)), pop_expr(base, d)),
        ],
        _ => Seq::empty(),
    }
}

/// The stack depth after decoding one plain instruction at depth `d`.
pub open spec fn sim_step_depth(d: nat, i: Instr) -> nat {
    match i {
        Instr::Const(_) => d + 1,
        Instr::LocalGet(_) => d + 1,
        Instr::LocalSet(_) => pop_depth(d),
        Instr::LocalTee(_) => d,
        Instr::Unary(_) => pop_depth(d) + 1,
        Instr::Binary(_) => pop_depth(pop_depth(d)) + 1,
        Instr::Load => pop_depth(d) + 1,
        Instr::Store => pop_depth(pop_depth(d)),
        Instr::Drop => pop_depth(d),
        _ => d,
    }
}

/// The stack depth after decoding the first `k` instructions.
pub open spec fn sim_depth_upto(body: FuncBody, k: int) -> nat
    decreases k,
{
    if k <= 0 {
        0
    } else {
        sim_step_depth(sim_depth_upto(body, k - 1), body.instrs@[k - 1])
    }
}

/// The statements decoding the first `k` instructions emits, in order.
pub open spec fn sim_stmts_upto(body: FuncBody, k: int) -> Seq<crate::ssa::StmtV>
    decreases k,
{
    if k <= 0 {
        Seq::empty()
    } else {
        sim_stmts_upto(body, k - 1) + sim_step_stmts(
            (body.n_params + body.n_locals) as nat,
            sim_depth_upto(body, k - 1),
            body.instrs@[k - 1],
        )
    }
}

/// Each decoded instruction grows the stack by at most one slot.
pub proof fn lemma_sim_depth_bound(body: FuncBody, k: int)
    requires
        0 <= k,
    ensures
        sim_depth_upto(body, k) <= k,
    decreases k,
{
    if k > 0 {
        lemma_sim_depth_bound(body, k - 1);
    }
}

/// Decodes one instruction sequence into a well-formed control-flow graph:
/// a linear scan splits the stream at branch targets and after every
/// terminator, the operand stack is simulated per block to synthesize
/// assignments to explicit pseudo-registers, and unreachable blocks are
/// pruned.
pub fn build_from_body(body: &FuncBody) -> (c: Cfg)
    ensures
        c.wf(),
        body.instrs@.len() == 0 ==> {
            &&& c.blocks@.len() == 1
            &&& c.blocks@[0].stmts@.len() == 0
            &&& c.blocks@[0].term == Term::Return(None::<Expr>)
        },
        (straight_line(*body) && body.instrs@.len() >= 1 && body.n_params + body.n_locals
            + body.instrs@.len() <= 0xFFFF_FFFE) ==> {
            &&& c.blocks@.len() == 1
            &&& crate::ssa::stmts_view(c.blocks@[0].stmts@) == sim_stmts_upto(
                *body,
                body.instrs@.len() as int,
            )
        },
{
    let n = body.instrs.len();
    if n == 0 {
        return single_block_cfg(Term::Return(None));
    }
    if n > 0xFFFF_FFFEusize {
        // an instruction stream past the register space is malformed input
        return single_block_cfg(Term::Trap);
    }
    let base: u64 = body.n_params as u64 + body.n_locals as u64;
    let ghost sl = straight_line(*body) && body.instrs@.len() >= 1 && body.n_params
        + body.n_locals + body.instrs@.len() <= 0xFFFF_FFFE;

    // Block leaders: index 0, every branch target, every instruction after a
    // branch or terminator.
    let mut leader: Vec<bool> = Vec::new();
    let mut i: usize = 0;
    while i < n
        invariant
            i <= n,
            leader@.len() == i,
            forall|j: int| 0 <= j < i ==> !leader@[j],
        decreases n - i,
    {
        leader.push(false);
        i = i + 1;
    }
    leader[0] = true;
    let mut i2: usize = 0;
    while i2 < n
        invariant
            n == body.instrs@.len(),
            i2 <= n,
            leader@.len() == n,
            leader@[0],
            sl == (straight_line(*body) && body.instrs@.len() >= 1 && body.n_params + body.n_locals + body.instrs@.len() <= 0xFFFF_FFFE),
            sl ==> forall|j: int| 1 <= j < n ==> !leader@[j],
        decreases n - i2,
    {
        proof {
            if sl {
                assert(is_plain_instr(body.instrs@[i2 as int]));
            }
        }
        match &body.instrs[i2] {
            Instr::Br(t) => {
                proof {
                    if sl {
                        assert(is_plain_instr(body.instrs@[i2 as int]));
                        assert(false);
                    }
                }
                if *t < n {
                    leader[*t] = true;
                }
                if i2 + 1 < n {
                    leader[i2 + 1] = true;
                }
            },
            Instr::BrIf(t) => {
                proof {
                    if sl {
                        assert(is_plain_instr(body.instrs@[i2 as int]));
                        assert(false);
                    }
                }
                if *t < n {
                    leader[*t] = true;
                }
                if i2 + 1 < n {
                    leader[i2 + 1] = true;
                }
            },
            Instr::BrTable(ts, dflt) => {
                proof {
                    if sl {
                        assert(is_plain_instr(body.instrs@[i2 as int]));
                        assert(false);
                    }
                }
                let mut k: usize = 0;
                while k < ts.len()
                    invariant
                        n == body.instrs@.len(),
                        leader@.len() == n,
                        leader@[0],
                        !sl,
                        k <= ts@.len(),
                    decreases ts@.len() - k,
                {
                    let t = ts[k];
                    if t < n {
                        leader[t] = true;
                    }
                    k = k + 1;
                }
                if *dflt < n {
                    leader[*dflt] = true;
                }
                if i2 + 1 < n {
                    leader[i2 + 1] = true;
                }
            },
            Instr::Return => {
                proof {
                    if sl {
                        assert(is_plain_instr(body.instrs@[i2 as int]));
                        assert(false);
                    }
                }
                if i2 + 1 < n {
                    leader[i2 + 1] = true;
                }
            },
            Instr::Unreachable => {
                proof {
                    if sl {
                        assert(is_plain_instr(body.instrs@[i2 as int]));
                        assert(false);
                    }
                }
                if i2 + 1 < n {
                    leader[i2 + 1] = true;
                }
            },
            _ => {},
        }
        i2 = i2 + 1;
    }

    // Block numbering: starts[g] is the first instruction of block g, bid[i]
    // the block that holds instruction i.
    let mut starts: Vec<usize> = Vec::new();
    let mut bid: Vec<usize> = Vec::new();
    let mut i3: usize = 0;
    while i3 < n
        invariant
            n == body.instrs@.len(),
            leader@.len() == n,
            leader@[0],
            sl == (straight_line(*body) && body.instrs@.len() >= 1 && body.n_params + body.n_locals + body.instrs@.len() <= 0xFFFF_FFFE),
            sl ==> forall|j: int| 1 <= j < n ==> !leader@[j],
            sl && i3 >= 1 ==> starts@ =~= seq![0usize],
            i3 <= n,
            bid@.len() == i3,
            starts@.len() <= i3,
            i3 > 0 ==> starts@.len() >= 1,
            forall|k: int| 0 <= k < starts@.len() ==> (#[trigger] starts@[k]) < i3,
            forall|k: int| 0 <= k < starts@.len() ==> (#[trigger] starts@[k]) < n,
            forall|k1: int, k2: int| 0 <= k1 < k2 < starts@.len() ==> starts@[k1] < starts@[k2],
            forall|k: int| 0 <= k < i3 ==> (#[trigger] bid@[k]) < starts@.len(),
        decreases n - i3,
    {
        if leader[i3] {
            starts.push(i3);
        }
        bid.push(starts.len() - 1);
        i3 = i3 + 1;
    }
    let nb = starts.len();
    proof {
        if sl {
            assert(starts@ =~= seq![0usize]);
            assert(nb == 1);
            assert(starts@[0] == 0usize);
        }
    }
    // The extra block nb is a trap block; out-of-range targets lead there.

    let mut raw: Vec<BasicBlock> = Vec::new();
    let mut g0: usize = 0;
    while g0 < nb + 1
        invariant
            nb <= 0xFFFF_FFFEusize,
            g0 <= nb + 1,
            raw@.len() == g0,
            forall|b: int|
                0 <= b < g0 ==> term_targets(#[trigger] raw@[b].term).len() == 0,
        decreases nb + 1 - g0,
    {
        raw.push(BasicBlock { stmts: Vec::new(), term: Term::Trap });
        g0 = g0 + 1;
    }

    let mut seen: Vec<bool> = Vec::new();
    let mut depth_in: Vec<usize> = Vec::new();
    let mut g1: usize = 0;
    while g1 < nb
        invariant
            g1 <= nb,
            seen@.len() == g1,
            depth_in@.len() == g1,
            forall|j: int| 0 <= j < g1 ==> depth_in@[j] == 0,
        decreases nb - g1,
    {
        seen.push(false);
        depth_in.push(0);
        g1 = g1 + 1;
    }
    seen[0] = true;
    let mut wl: Vec<usize> = Vec::new();
    wl.push(0);
    proof {
        if sl {
            assert(wl@ =~= seq![0usize]);
            assert(depth_in@[0] == 0);
        }
    }
    let mut wi: usize = 0;
    while wi < wl.len()
        invariant
            n == body.instrs@.len(),
            nb == starts@.len(),
            nb >= 1,
            bid@.len() == n,
            forall|k: int| 0 <= k < n ==> (#[trigger] bid@[k]) < nb,
            forall|k: int| 0 <= k < nb ==> (#[trigger] starts@[k]) < n,
            forall|k1: int, k2: int| 0 <= k1 < k2 < nb ==> starts@[k1] < starts@[k2],
            seen@.len() == nb,
            depth_in@.len() == nb,
            raw@.len() == nb + 1,
            forall|b: int, k: int|
                0 <= b < raw@.len() && 0 <= k < term_targets(raw@[b].term).len() ==> (
                #[trigger] term_targets(raw@[b].term)[k]) < nb + 1,
            wi <= wl@.len(),
            forall|k: int| 0 <= k < wl@.len() ==> (#[trigger] wl@[k]) < nb,
            forall|k: int| 0 <= k < wl@.len() ==> seen@[wl@[k] as int],
            forall|k1: int, k2: int| 0 <= k1 < k2 < wl@.len() ==> wl@[k1] != wl@[k2],
            wl@.len() <= nb,
            sl == (straight_line(*body) && body.instrs@.len() >= 1 && body.n_params + body.n_locals + body.instrs@.len() <= 0xFFFF_FFFE),
            base == body.n_params + body.n_locals,
            sl ==> nb == 1 && starts@ =~= seq![0usize] && wl@ =~= seq![0usize]
                && depth_in@[0] == 0,
            sl ==> term_targets(raw@[1].term).len() == 0,
            sl && wi >= 1 ==> crate::ssa::stmts_view(raw@[0].stmts@) == sim_stmts_upto(
                *body,
                n as int,
            ) && term_targets(raw@[0].term).len() == 0,
        decreases nb - wi,
    {
        let g = wl[wi];
        let start = starts[g];
        let end = if g + 1 < nb {
            starts[g + 1]
        } else {
            n
        };
        let mut d: usize = depth_in[g];
        let mut stmts: Vec<Stmt> = Vec::new();
        let mut term_found: Option<Term> = None;
        let mut i4: usize = start;
        while i4 < end && term_found.is_none()
            invariant
                n == body.instrs@.len(),
                nb == starts@.len(),
                bid@.len() == n,
                forall|k: int| 0 <= k < n ==> (#[trigger] bid@[k]) < nb,
                end <= n,
                i4 <= end,
                term_found matches Some(t) ==> forall|k: int|
                    0 <= k < term_targets(t).len() ==> (#[trigger] term_targets(t)[k]) < nb + 1,
                sl == (straight_line(*body) && body.instrs@.len() >= 1 && body.n_params + body.n_locals + body.instrs@.len() <= 0xFFFF_FFFE),
                base == body.n_params + body.n_locals,
                sl ==> start == 0 && end == n,
                sl ==> term_found is None,
                sl ==> d == sim_depth_upto(*body, i4 as int),
                sl ==> crate::ssa::stmts_view(stmts@) == sim_stmts_upto(*body, i4 as int),
            decreases end - i4,
        {
            proof {
                if sl {
                    assert(is_plain_instr(body.instrs@[i4 as int]));
                    lemma_sim_depth_bound(*body, i4 as int);
                    assert(base + d <= 0xFFFF_FFFE);
                }
            }
            let ghost d_pre = d as nat;
            let ghost stmts_pre = stmts@;
            match &body.instrs[i4] {
                Instr::Const(cv) => {
                    if !push_operand(base, &mut d, Expr::Const(*cv), &mut stmts) {
                        term_found = Some(Term::Trap);
                    }
                },
                Instr::LocalGet(x) => {
                    let e = Expr::Read(Var::no_sub(*x));
                    if !push_operand(base, &mut d, e, &mut stmts) {
                        term_found = Some(Term::Trap);
                    }
                },
                Instr::LocalSet(x) => {
                    let e = pop_operand(base, &mut d);
                    let s = Stmt::Assign(Var::no_sub(*x), e);
                    stmts.push(s);
                    proof {
                        crate::ssa::lemma_stmts_view_push(stmts_pre, s);
                    }
                },
                Instr::LocalTee(x) => {
                    let e = if d > 0 {
                        match stack_reg(base, d - 1) {
                            Some(v) => Expr::Read(v),
                            None => Expr::Const(0),
                        }
                    } else {
                        Expr::Const(0)
                    };
                    let s = Stmt::Assign(Var::no_sub(*x), e);
                    stmts.push(s);
                    proof {
                        crate::ssa::lemma_stmts_view_push(stmts_pre, s);
                    }
                },
                Instr::Unary(op) => {
                    let a = pop_operand(base, &mut d);
                    if !push_operand(base, &mut d, Expr::Unary(*op, Box::new(a)), &mut stmts) {
                        term_found = Some(Term::Trap);
                    }
                },
                Instr::Binary(op) => {
                    let b2 = pop_operand(base, &mut d);
                    let a = pop_operand(base, &mut d);
                    if !push_operand(
                        base,
                        &mut d,
                        Expr::Binary(*op, Box::new(a), Box::new(b2)),
                        &mut stmts,
                    ) {
                        term_found = Some(Term::Trap);
                    }
                },
                Instr::Load => {
                    let a = pop_operand(base, &mut d);
                    if !push_operand(base, &mut d, Expr::Load(Box::new(a)), &mut stmts) {
                        term_found = Some(Term::Trap);
                    }
                },
                Instr::Store => {
                    let v = pop_operand(base, &mut d);
                    let a = pop_operand(base, &mut d);
                    let s = Stmt::Store(a, v);
                    stmts.push(s);
                    proof {
                        crate::ssa::lemma_stmts_view_push(stmts_pre, s);
                    }
                },
                Instr::Call { func, n_args, has_result } => {
                    let mut rev: Vec<Var> = Vec::new();
                    let mut a: u32 = 0;
                    let na = *n_args;
                    while a < na
                        invariant
                            a <= na,
                            rev@.len() == a,
                        decreases na - a,
                    {
                        rev.push(pop_var(base, &mut d));
                        a = a + 1;
                    }
                    let mut args: Vec<Var> = Vec::new();
                    let mut w: usize = rev.len();
                    while w > 0
                        invariant
                            w <= rev@.len(),
                        decreases w,
                    {
                        w = w - 1;
                        args.push(rev[w]);
                    }
                    if *has_result {
                        if !push_operand(base, &mut d, Expr::Call(*func, args), &mut stmts) {
                            term_found = Some(Term::Trap);
                        }
                    } else {
                        stmts.push(Stmt::Discard(Expr::Call(*func, args)));
                    }
                },
                Instr::Drop => {
                    if d > 0 {
                        d = d - 1;
                    }
                },
                Instr::Nop => {},
                Instr::Br(t) => {
                    let tb = if *t < n {
                        bid[*t]
                    } else {
                        nb
                    };
                    term_found = Some(Term::Br(tb));
                },
                Instr::BrIf(t) => {
                    let cond = pop_operand(base, &mut d);
                    let tb = if *t < n {
                        bid[*t]
                    } else {
                        nb
                    };
                    let fb = if end < n {
                        bid[end]
                    } else {
                        nb
                    };
                    term_found = Some(Term::CondBr(cond, tb, fb));
                },
                Instr::BrTable(ts, dflt) => {
                    let sel = pop_operand(base, &mut d);
                    let mut mapped: Vec<usize> = Vec::new();
                    let mut k: usize = 0;
                    while k < ts.len()
                        invariant
                            n == body.instrs@.len(),
                            bid@.len() == n,
                            forall|q: int| 0 <= q < n ==> (#[trigger] bid@[q]) < nb,
                            k <= ts@.len(),
                            mapped@.len() == k,
                            forall|q: int| 0 <= q < k ==> (#[trigger] mapped@[q]) < nb + 1,
                        decreases ts@.len() - k,
                    {
                        let t = ts[k];
                        let tb = if t < n {
                            bid[t]
                        } else {
                            nb
                        };
                        mapped.push(tb);
                        k = k + 1;
                    }
                    let db = if *dflt < n {
                        bid[*dflt]
                    } else {
                        nb
                    };
                    let ghost m = mapped@;
                    let tt = Term::BrTable(sel, mapped, db);
                    proof {
                        assert(term_targets(tt) == m.push(db));
                        assert forall|k2: int|
                            0 <= k2 < term_targets(tt).len() implies (#[trigger] term_targets(
                        tt)[k2]) < nb + 1 by {
                            if k2 < m.len() {
                                assert(term_targets(tt)[k2] == m[k2]);
                            }
                        }
                    }
                    term_found = Some(tt);
                },
                Instr::Return => {
                    let rv = return_value(base, &mut d, body.has_result);
                    term_found = Some(Term::Return(rv));
                },
                Instr::Unreachable => {
                    term_found = Some(Term::Trap);
                },
            }
            proof {
                if sl {
                    assert(sim_stmts_upto(*body, i4 + 1 as int) == sim_stmts_upto(
                        *body,
                        i4 as int,
                    ) + sim_step_stmts(
                        (body.n_params + body.n_locals) as nat,
                        d_pre,
                        body.instrs@[i4 as int],
                    ));
                    assert(crate::ssa::stmts_view(stmts@) =~= sim_stmts_upto(
                        *body,
                        i4 + 1 as int,
                    ));
                    assert(d == sim_depth_upto(*body, i4 + 1 as int));
                    assert(term_found is None);
                }
            }
            i4 = i4 + 1;
        }
        let term = match term_found {
            Some(t) => t,
            None => {
                if end < n {
                    Term::Br(bid[end])
                } else {
                    Term::Return(return_value(base, &mut d, body.has_result))
                }
            },
        };
        proof {
            assert(forall|k: int|
                0 <= k < term_targets(term).len() ==> (#[trigger] term_targets(term)[k]) < nb + 1);
        }
        let ghost stmts_moved = stmts@;
        let tv = term_targets_exec(&term);
        let ghost raw_before = raw@;
        raw[g] = BasicBlock { stmts, term };
        proof {
            assert forall|b: int, k: int|
                0 <= b < raw@.len() && 0 <= k < term_targets(raw@[b].term).len()
                implies (#[trigger] term_targets(raw@[b].term)[k]) < nb + 1 by {
                if b != g as int {
                    assert(raw@[b] == raw_before[b]);
                }
            }
            if sl {
                assert(raw@[0].stmts@ == stmts_moved);
                assert(crate::ssa::stmts_view(raw@[0].stmts@) == sim_stmts_upto(*body, n as int));
                assert(term_targets(raw@[0].term).len() == 0);
                assert(raw@[1] == raw_before[1]);
                assert(term_targets(raw@[1].term).len() == 0);
                assert(tv@.len() == 0);
            }
        }
        // hand the exit depth to newly-discovered successors
        let mut w2: usize = 0;
        while w2 < tv.len()
            invariant
                nb == starts@.len(),
                seen@.len() == nb,
                depth_in@.len() == nb,
                w2 <= tv@.len(),
                wi < wl@.len(),
                forall|k: int| 0 <= k < wl@.len() ==> (#[trigger] wl@[k]) < nb,
                forall|k: int| 0 <= k < wl@.len() ==> seen@[wl@[k] as int],
                forall|k1: int, k2: int| 0 <= k1 < k2 < wl@.len() ==> wl@[k1] != wl@[k2],
                wl@.len() <= nb,
                sl == (straight_line(*body) && body.instrs@.len() >= 1 && body.n_params + body.n_locals + body.instrs@.len() <= 0xFFFF_FFFE),
                sl ==> tv@.len() == 0,
                sl ==> nb == 1 && starts@ =~= seq![0usize] && wl@ =~= seq![0usize]
                    && depth_in@[0] == 0,
                sl ==> crate::ssa::stmts_view(raw@[0].stmts@) == sim_stmts_upto(*body, n as int)
                    && term_targets(raw@[0].term).len() == 0 && term_targets(
                    raw@[1].term,
                ).len() == 0,
            decreases tv@.len() - w2,
        {
            let s = tv[w2];
            if s < nb && !seen[s] {
                seen[s] = true;
                depth_in[s] = d;
                wl.push(s);
                proof {
                    lemma_unique_bound(wl@, nb);
                }
            }
            w2 = w2 + 1;
        }
        wi = wi + 1;
    }
    finish_cfg(raw)
}

impl Cfg {
    /// Builds the control-flow graph of one function of a module. Fails with
    /// `NoSuchFunc` exactly when the index is out of range, and with
    /// `FuncIsImported` exactly when the function carries no body; any other
    /// input yields a well-formed graph.
    pub fn build(module: &Module, func_index: u32) -> (r: Result<Cfg, CfgBuildError>)
        ensures
            r is Err <==> (func_index >= module.functions@.len() || module.functions@[func_index as int].body is None),
            func_index >= module.functions@.len() ==> r == Result::<Cfg, CfgBuildError>::Err(
                CfgBuildError::NoSuchFunc { index: func_index },
            ),
            func_index < module.functions@.len() && module.functions@[func_index as int].body is None
                ==> r == Result::<Cfg, CfgBuildError>::Err(
                CfgBuildError::FuncIsImported { index: func_index },
            ),
            r is Ok ==> r->Ok_0.wf(),
            r is Ok && module.functions@[func_index as int].body->0.instrs@.len() == 0 ==> {
                &&& r->Ok_0.blocks@.len() == 1
                &&& r->Ok_0.blocks@[0].stmts@.len() == 0
                &&& r->Ok_0.blocks@[0].term == Term::Return(None::<Expr>)
            },
            r is Ok && ({
                let b = module.functions@[func_index as int].body->0;
                straight_line(b) && b.instrs@.len() >= 1 && b.n_params + b.n_locals
                    + b.instrs@.len() <= 0xFFFF_FFFE
            }) ==> ({
                let b = module.functions@[func_index as int].body->0;
                &&& r->Ok_0.blocks@.len() == 1
                &&& crate::ssa::stmts_view(r->Ok_0.blocks@[0].stmts@) == sim_stmts_upto(
                    b,
                    b.instrs@.len() as int,
                )
            }),
    {
        if func_index as usize >= module.functions.len() {
            return Err(CfgBuildError::NoSuchFunc { index: func_index });
        }
        match &module.functions[func_index as usize].body {
            None => Err(CfgBuildError::FuncIsImported { index: func_index }),
            Some(b) => Ok(build_from_body(b)),
        }
    }
}

} // verus!

verus! {

/// Two graphs with the same edge structure: identical edge arrays, equally
/// many blocks, and terminators with identical target lists. Passes that
/// only rewrite statements and expressions preserve this.
pub open spec fn same_shape(a: Cfg, b: Cfg) -> bool {
    &&& b.succs == a.succs
    &&& b.preds == a.preds
    &&& b.blocks@.len() == a.blocks@.len()
    &&& forall|j: int|
        0 <= j < a.blocks@.len() ==> term_targets(#[trigger] b.blocks@[j].term) == term_targets(
            a.blocks@[j].term,
        )
}

/// Equal edge arrays and block counts pin the shape: on well-formed graphs
/// the terminator targets follow from the successor lists.
pub proof fn lemma_shape_from_edges(a: Cfg, b: Cfg)
    requires
        a.wf(),
        b.wf(),
        b.succs == a.succs,
        b.preds == a.preds,
        b.blocks@.len() == a.blocks@.len(),
    ensures
        same_shape(a, b),
{
    assert forall|j: int|
        0 <= j < a.blocks@.len() implies term_targets(#[trigger] b.blocks@[j].term) == term_targets(
        a.blocks@[j].term,
    ) by {
        assert((a.succs@[j])@ == term_targets(a.blocks@[j].term));
        assert((b.succs@[j])@ == term_targets(b.blocks@[j].term));
    }
}

/// Well-formedness only depends on the shape.
pub proof fn lemma_same_shape_wf(a: Cfg, b: Cfg)
    requires
        a.wf(),
        same_shape(a, b),
    ensures
        b.wf(),
{
    assert(b.wf_shape()) by {
        assert forall|j: int|
            0 <= j < b.n() implies (#[trigger] b.succs@[j])@ == term_targets(b.blocks@[j].term) by {
            assert((a.succs@[j])@ == term_targets(a.blocks@[j].term));
        }
    }
    assert forall|x: usize| x < b.n() implies b.reachable(x) by {
        assert(a.reachable(x));
    }
}

} // verus!

verus! {

/// Copies a branch-target list.
pub fn clone_targets(v: &Vec<usize>) -> (r: Vec<usize>)
    ensures
        r@ == v@,
{
    let mut r: Vec<usize> = Vec::new();
    let mut i: usize = 0;
    while i < v.len()
        invariant
            i <= v.len(),
            r@ == v@.subrange(0, i as int),
        decreases v.len() - i,
    {
        r.push(v[i]);
        i = i + 1;
    }
    proof {
        assert(r@ =~= v@);
    }
    r
}

} // verus!

verus! {

/// How many targets a terminator has, clamped at two.
pub(crate) fn count_targets(t: &Term) -> (r: usize)
    ensures
        r == 0 <==> term_targets(*t).len() == 0,
        r == 1 <==> term_targets(*t).len() == 1,
        r <= 2,
{
    match t {
        Term::Br(_) => 1,
        Term::CondBr(_, _, _) => 2,
        Term::BrTable(_, ts, _) => {
            if ts.len() == 0 {
                1
            } else {
                2
            }
        },
        Term::Return(_) => 0,
        Term::Trap => 0,
    }
}

/// Rewrites every target equal to `from` into `to`, keeping the rest.
pub(crate) fn retarget_eq(t: &Term, from: usize, to: usize) -> (r: Term)
    ensures
        term_targets(r).len() == term_targets(*t).len(),
        forall|k: int|
            0 <= k < term_targets(*t).len() ==> #[trigger] term_targets(r)[k] == (if term_targets(
                *t,
            )[k] == from {
                to
            } else {
                term_targets(*t)[k]
            }),
{
    match t {
        Term::Br(x) => Term::Br(
            if *x == from {
                to
            } else {
                *x
            },
        ),
        Term::CondBr(c, a, b) => {
            let na = if *a == from {
                to
            } else {
                *a
            };
            let nb = if *b == from {
                to
            } else {
                *b
            };
            Term::CondBr(c.clone(), na, nb)
        },
        Term::BrTable(e, ts, d) => {
            let mut nts: Vec<usize> = Vec::new();
            let mut k: usize = 0;
            while k < ts.len()
                invariant
                    k <= ts@.len(),
                    nts@.len() == k,
                    forall|j: int|
                        0 <= j < k ==> #[trigger] nts@[j] == (if ts@[j] == from {
                            to
                        } else {
                            ts@[j]
                        }),
                decreases ts@.len() - k,
            {
                let x = ts[k];
                nts.push(
                    if x == from {
                        to
                    } else {
                        x
                    },
                );
                k = k + 1;
            }
            let nd = if *d == from {
                to
            } else {
                *d
            };
            let ghost m = nts@;
            let r = Term::BrTable(e.clone(), nts, nd);
            proof {
                assert(term_targets(r) == m.push(nd));
                assert forall|kk: int|
                    0 <= kk < term_targets(*t).len() implies #[trigger] term_targets(r)[kk] == (
                if term_targets(*t)[kk] == from {
                    to
                } else {
                    term_targets(*t)[kk]
                }) by {
                    if kk < m.len() {
                        assert(term_targets(r)[kk] == m[kk]);
                        assert(term_targets(*t)[kk] == ts@[kk]);
                    }
                }
            }
            r
        },
        Term::Return(oe) => match oe {
            Some(e) => Term::Return(Some(e.clone())),
            None => Term::Return(None),
        },
        Term::Trap => Term::Trap,
    }
}

/// Rebuilds a well-formed graph from raw blocks (see `finish_cfg`).
pub(crate) fn finish_cfg_pub(raw: Vec<BasicBlock>) -> (c: Cfg)
    requires
        raw@.len() >= 1,
        forall|b: int, k: int|
            0 <= b < raw@.len() && 0 <= k < term_targets(raw@[b].term).len() ==> (
            #[trigger] term_targets(raw@[b].term)[k]) < raw@.len(),
    ensures
        c.wf(),
        forall|j: int|
            0 <= j < c.blocks@.len() ==> exists|b: int|
                0 <= b < raw@.len() && (#[trigger] c.blocks@[j]).stmts == raw@[b].stmts,
        c.blocks@[0].stmts == raw@[0].stmts,
{
    finish_cfg(raw)
}

} // verus!
