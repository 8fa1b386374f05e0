//! A small reference interpreter over control-flow graphs, used as the
//! equivalence oracle for the SSA round trip: the code before SSA
//! construction and the optimized code after SSA destruction must show the
//! same observable behavior — the same sequence of side-effecting operations
//! and the same result — on identical inputs.

use vstd::prelude::*;

use crate::cfg::Cfg;
use crate::cfg::Term;
use crate::ssa::BinOp;
use crate::ssa::Expr;
use crate::ssa::Stmt;
use crate::ssa::UnOp;
use crate::ssa::Var;

verus! {

/// One observable step of an execution.
#[derive(Debug, Clone, PartialEq, Eq)]
pub enum Event {
    CallEv { func: u32, args: Vec<i64>, result: i64 },
    LoadEv { addr: i64, value: i64 },
    StoreEv { addr: i64, value: i64 },
}

/// How an execution ended.
#[derive(Debug, Clone, Copy, PartialEq, Eq, Structural)]
pub enum Outcome {
    Returned,
    ReturnedValue(i64),
    Trapped,
    OutOfFuel,
}

/// The observable behavior of one execution: its side effects in order and
/// its final outcome.
#[derive(Debug, Clone, PartialEq, Eq)]
pub struct Trace {
    pub events: Vec<Event>,
    pub outcome: Outcome,
}

/// The machine state: a register file keyed by `(index, subscript)`, a small
/// wrapped memory, and a cursor into the prearranged call results.
struct Machine {
    regs: Vec<(Var, i64)>,
    mem: Vec<i64>,
    call_results: Vec<i64>,
    call_cursor: usize,
    events: Vec<Event>,
}

impl Machine {
    fn read_reg(&self, v: Var) -> (r: i64)
    {
        let mut k: usize = 0;
        while k < self.regs.len()
            invariant
                k <= self.regs@.len(),
            decreases self.regs@.len() - k,
        {
            if self.regs[k].0 == v {
                return self.regs[k].1;
            }
            k = k + 1;
        }
        0
    }

    fn write_reg(&mut self, v: Var, val: i64)
    {
        let mut k: usize = 0;
        while k < self.regs.len()
            invariant
                k <= self.regs@.len(),
            decreases self.regs@.len() - k,
        {
            if self.regs[k].0 == v {
                self.regs[k] = (v, val);
                return ;
            }
            k = k + 1;
        }
        self.regs.push((v, val));
    }

    fn mem_index(&self, addr: i64) -> (r: Option<usize>)
        ensures
            r matches Some(i) ==> (i as int) < self.mem@.len(),
    {
        if self.mem.len() == 0 {
            return None;
        }
        let mu = self.mem.len() as u64;
        let idx = (addr as u64) % mu;
        if idx < self.mem.len() as u64 {
            Some(idx as usize)
        } else {
            None
        }
    }
}

fn eval_unop(op: UnOp, a: i64) -> (r: i64)
{
    match op {
        UnOp::Neg => (0i64).wrapping_sub(a),
        UnOp::Not => !a,
        UnOp::Eqz => if a == 0 {
            1
        } else {
            0
        },
    }
}

fn eval_binop(op: BinOp, a: i64, b: i64) -> (r: Option<i64>)
{
    match op {
        BinOp::Add => Some(a.wrapping_add(b)),
        BinOp::Sub => Some(a.wrapping_sub(b)),
        BinOp::Mul => Some(a.wrapping_mul(b)),
        BinOp::DivS => {
            if b == 0 || (a == i64::MIN && b == -1) {
                None
            } else {
                Some(a / b)
            }
        },
        BinOp::DivU => {
            if (b as u64) == 0 {
                None
            } else {
                Some(#[verifier::truncate] (((a as u64) / (b as u64)) as i64))
            }
        },
        BinOp::RemS => {
            if b == 0 || (a == i64::MIN && b == -1) {
                None
            } else {
                Some(a % b)
            }
        },
        BinOp::RemU => {
            if (b as u64) == 0 {
                None
            } else {
                Some(#[verifier::truncate] (((a as u64) % (b as u64)) as i64))
            }
        },
        BinOp::And => Some(a & b),
        BinOp::Or => Some(a | b),
        BinOp::Xor => Some(a ^ b),
        BinOp::Shl => {
            let sh = (b as u64) % 64;
            Some(#[verifier::truncate] (((a as u64) << sh) as i64))
        },
        BinOp::ShrS => {
            let sh = ((b as u64) % 64) as i64;
            Some(a >> sh)
        },
        BinOp::ShrU => {
            let sh = (b as u64) % 64;
            Some(#[verifier::truncate] (((a as u64) >> sh) as i64))
        },
        BinOp::Eq => Some(
            if a == b {
                1
            } else {
                0
            },
        ),
        BinOp::Ne => Some(
            if a != b {
                1
            } else {
                0
            },
        ),
        BinOp::LtS => Some(
            if a < b {
                1
            } else {
                0
            },
        ),
        BinOp::LtU => Some(
            if (a as u64) < (b as u64) {
                1
            } else {
                0
            },
        ),
        BinOp::GtS => Some(
            if a > b {
                1
            } else {
                0
            },
        ),
        BinOp::GtU => Some(
            if (a as u64) > (b as u64) {
                1
            } else {
                0
            },
        ),
        BinOp::LeS => Some(
            if a <= b {
                1
            } else {
                0
            },
        ),
        BinOp::LeU => Some(
            if (a as u64) <= (b as u64) {
                1
            } else {
                0
            },
        ),
        BinOp::GeS => Some(
            if a >= b {
                1
            } else {
                0
            },
        ),
        BinOp::GeU => Some(
            if (a as u64) >= (b as u64) {
                1
            } else {
                0
            },
        ),
    }
}

/// Evaluates an expression; `None` means the evaluation trapped. The
/// incoming block index selects which input a phi-operation yields.
fn eval_expr(m: &mut Machine, e: &Expr, came_from: usize) -> (r: Option<i64>)
    decreases *e,
{
    match e {
        Expr::Const(c) => Some(*c),
        Expr::Read(v) => Some(m.read_reg(*v)),
        Expr::Unary(op, a) => {
            match eval_expr(m, a, came_from) {
                Some(av) => Some(eval_unop(*op, av)),
                None => None,
            }
        },
        Expr::Binary(op, a, b) => {
            match eval_expr(m, a, came_from) {
                Some(av) => match eval_expr(m, b, came_from) {
                    Some(bv) => eval_binop(*op, av, bv),
                    None => None,
                },
                None => None,
            }
        },
        Expr::Load(a) => {
            match eval_expr(m, a, came_from) {
                Some(av) => {
                    match m.mem_index(av) {
                        Some(idx) => {
                            let value = m.mem[idx];
                            m.events.push(Event::LoadEv { addr: av, value });
                            Some(value)
                        },
                        None => None,
                    }
                },
                None => None,
            }
        },
        Expr::Call(f, args) => {
            let mut vals: Vec<i64> = Vec::new();
            let mut k: usize = 0;
            while k < args.len()
                invariant
                    k <= args@.len(),
                decreases args@.len() - k,
            {
                vals.push(m.read_reg(args[k]));
                k = k + 1;
            }
            let result = if m.call_cursor < m.call_results.len() {
                let r = m.call_results[m.call_cursor];
                m.call_cursor = m.call_cursor + 1;
                r
            } else {
                0
            };
            m.events.push(Event::CallEv { func: *f, args: vals, result });
            Some(result)
        },
        Expr::Phi(args) => {
            let mut k: usize = 0;
            while k < args.len()
                invariant
                    k <= args@.len(),
                decreases args@.len() - k,
            {
                if args[k].pred == came_from {
                    let v = args[k].var;
                    return Some(m.read_reg(v));
                }
                k = k + 1;
            }
            None
        },
    }
}

/// Runs a graph from its entry block on the given arguments (bound to the
/// first register indices), with prearranged call results and an initial
/// memory, for at most `fuel` block transitions. Returns the observable
/// trace. An execution that exhausts its fuel reports so instead of an
/// outcome.
pub fn interpret(
    cfg: &Cfg,
    args: &Vec<i64>,
    call_results: &Vec<i64>,
    mem0: &Vec<i64>,
    fuel: usize,
) -> (t: Trace)
    requires
        cfg.wf(),
        args@.len() <= 0xFFFF_FFFF,
{
    let mut m = Machine {
        regs: Vec::new(),
        mem: clone_i64s(mem0),
        call_results: clone_i64s(call_results),
        call_cursor: 0,
        events: Vec::new(),
    };
    let mut k: usize = 0;
    while k < args.len()
        invariant
            args@.len() <= 0xFFFF_FFFF,
            k <= args@.len(),
        decreases args@.len() - k,
    {
        m.write_reg(Var::no_sub(k as u32), args[k]);
        k = k + 1;
    }
    let mut cur: usize = 0;
    let mut came_from: usize = 0;
    let mut step: usize = 0;
    while step < fuel
        invariant
            cfg.wf(),
            (cur as int) < cfg.n(),
            step <= fuel,
        decreases fuel - step,
    {
        step = step + 1;
        // run the block's statements
        let mut i: usize = 0;
        let nst = cfg.blocks[cur].stmts.len();
        let mut trapped = false;
        while i < nst && !trapped
            invariant
                cfg.wf(),
                (cur as int) < cfg.n(),
                nst == cfg.blocks@[cur as int].stmts@.len(),
                i <= nst,
            decreases nst - i,
        {
            match &cfg.blocks[cur].stmts[i] {
                Stmt::Assign(v, e) => {
                    match eval_expr(&mut m, e, came_from) {
                        Some(val) => {
                            m.write_reg(*v, val);
                        },
                        None => {
                            trapped = true;
                        },
                    }
                },
                Stmt::Store(a, val) => {
                    match eval_expr(&mut m, a, came_from) {
                        Some(av) => match eval_expr(&mut m, val, came_from) {
                            Some(vv) => {
                                match m.mem_index(av) {
                                    Some(idx) => {
                                        m.mem[idx] = vv;
                                        m.events.push(Event::StoreEv { addr: av, value: vv });
                                    },
                                    None => {
                                        trapped = true;
                                    },
                                }
                            },
                            None => {
                                trapped = true;
                            },
                        },
                        None => {
                            trapped = true;
                        },
                    }
                },
                Stmt::Discard(e) => {
                    match eval_expr(&mut m, e, came_from) {
                        Some(_) => {},
                        None => {
                            trapped = true;
                        },
                    }
                },
                Stmt::Return(_) => {
                    // handled as a terminator; a statement form is inert here
                },
                _ => {},
            }
            i = i + 1;
        }
        if trapped {
            return Trace { events: m.events, outcome: Outcome::Trapped };
        }
        // follow the terminator
        let mut next: usize = 0;
        match &cfg.blocks[cur].term {
            Term::Br(x) => {
                next = *x;
            },
            Term::CondBr(c, a, b) => {
                match eval_expr(&mut m, c, came_from) {
                    Some(cv) => {
                        next = if cv != 0 {
                            *a
                        } else {
                            *b
                        };
                    },
                    None => {
                        return Trace { events: m.events, outcome: Outcome::Trapped };
                    },
                }
            },
            Term::BrTable(sel, ts, d) => {
                match eval_expr(&mut m, sel, came_from) {
                    Some(sv) => {
                        if sv >= 0 && (sv as u64) < (ts.len() as u64) {
                            next = ts[sv as usize];
                        } else {
                            next = *d;
                        }
                    },
                    None => {
                        return Trace { events: m.events, outcome: Outcome::Trapped };
                    },
                }
            },
            Term::Return(oe) => {
                match oe {
                    Some(e) => {
                        match eval_expr(&mut m, e, came_from) {
                            Some(v) => {
                                return Trace {
                                    events: m.events,
                                    outcome: Outcome::ReturnedValue(v),
                                };
                            },
                            None => {
                                return Trace { events: m.events, outcome: Outcome::Trapped };
                            },
                        }
                    },
                    None => {
                        return Trace { events: m.events, outcome: Outcome::Returned };
                    },
                }
            },
            Term::Trap => {
                return Trace { events: m.events, outcome: Outcome::Trapped };
            },
        }
        proof {
            assert(cfg.reachable(cur));
        }
        if next >= cfg.blocks.len() {
            // a well-formed graph never branches out of range
            return Trace { events: m.events, outcome: Outcome::Trapped };
        }
        came_from = cur;
        cur = next;
    }
    Trace { events: m.events, outcome: Outcome::OutOfFuel }
}

fn clone_i64s(v: &Vec<i64>) -> (r: Vec<i64>)
    ensures
        r@ == v@,
{
    let mut r: Vec<i64> = Vec::new();
    let mut i: usize = 0;
    while i < v.len()
        invariant
            i <= v@.len(),
            r@ == v@.subrange(0, i as int),
        decreases v@.len() - i,
    {
        r.push(v[i]);
        i = i + 1;
    }
    proof {
        assert(r@ =~= v@);
    }
    r
}

} // verus!
