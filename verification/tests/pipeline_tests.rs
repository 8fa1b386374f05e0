use auditor::analysis::{eliminate_dead_code, optimize, propagate_expressions};
use auditor::cfg::{BasicBlock, Cfg, CfgBuildError, FuncBody, Instr, Term};
use auditor::dominance::{compute_dominators, dom_tree};
use auditor::interp::{interpret, Outcome, Trace};
use auditor::specs_generate::{ExtendedFunctionParam, ExtendedFunctionReturnType, FunctionInfo};
use auditor::wasm::{ExtendedValueType, ValueType};
use auditor::ssa::{
    transform_out_of_ssa, transform_to_ssa, BinOp, Expr, LoopKind, Stmt, Var,
};
use auditor::structuring::structure;
use auditor::wasm::{Function, Module};

fn module_with(body: FuncBody) -> Module {
    Module {
        functions: vec![Function {
            name: String::from("f"),
            params: vec![],
            return_type: None,
            body: Some(body),
            spec_fn: None,
        }],
        tables: vec![],
        table_inits: vec![],
        spec_fns: vec![],
    }
}

fn diamond_body() -> FuncBody {
    // if (local0) { local2 = 1 } else { local2 = 2 }; return local2
    FuncBody {
        n_params: 3,
        n_locals: 0,
        has_result: true,
        instrs: vec![
            Instr::LocalGet(0),
            Instr::BrIf(5),
            Instr::Const(2),
            Instr::LocalSet(2),
            Instr::Br(7),
            Instr::Const(1),
            Instr::LocalSet(2),
            Instr::LocalGet(2),
            Instr::Return,
        ],
    }
}

#[test]
fn diamond_structures_to_if_without_goto() {
    let module = module_with(diamond_body());
    let cfg = Cfg::build(&module, 0).unwrap();
    let (_decls, code) = structure(cfg);
    let v0 = Var::no_sub(0);
    let v2 = Var::no_sub(2);
    let v3 = Var::no_sub(3);
    let expected = vec![
        Stmt::Assign(v3, Expr::Read(v0)),
        Stmt::If(
            Expr::Read(v3),
            vec![
                Stmt::Assign(v3, Expr::Const(1)),
                Stmt::Assign(v2, Expr::Read(v3)),
            ],
            vec![
                Stmt::Assign(v3, Expr::Const(2)),
                Stmt::Assign(v2, Expr::Read(v3)),
            ],
        ),
        Stmt::Assign(v3, Expr::Read(v2)),
        Stmt::Return(Some(Expr::Read(v3))),
    ];
    assert_eq!(code, expected);
}

#[test]
fn while_loop_structures_to_pretest_without_raw_branches() {
    // hand-built graph: empty header testing local0, one body block, one exit
    let v0 = Var::no_sub(0);
    let v1 = Var::no_sub(1);
    let cfg = Cfg {
        blocks: vec![
            BasicBlock {
                stmts: vec![],
                term: Term::CondBr(Expr::Read(v0), 1, 2),
            },
            BasicBlock {
                stmts: vec![Stmt::Assign(
                    v1,
                    Expr::Binary(BinOp::Add, Box::new(Expr::Read(v1)), Box::new(Expr::Const(1))),
                )],
                term: Term::Br(0),
            },
            BasicBlock {
                stmts: vec![],
                term: Term::Return(None),
            },
        ],
        succs: vec![vec![1, 2], vec![0], vec![]],
        preds: vec![vec![1], vec![0], vec![0]],
    };
    let (_decls, code) = structure(cfg);
    let expected = vec![
        Stmt::Loop(
            LoopKind::PreTest,
            Some(Expr::Read(v0)),
            vec![Stmt::Assign(
                v1,
                Expr::Binary(BinOp::Add, Box::new(Expr::Read(v1)), Box::new(Expr::Const(1))),
            )],
        ),
        Stmt::Return(None),
    ];
    assert_eq!(code, expected);
}

#[test]
fn build_reports_missing_and_imported_functions() {
    let mut module = module_with(diamond_body());
    module.functions.push(Function {
        name: String::from("imported"),
        params: vec![],
        return_type: None,
        body: None,
        spec_fn: None,
    });
    assert!(Cfg::build(&module, 0).is_ok());
    assert_eq!(
        Cfg::build(&module, 1).unwrap_err(),
        CfgBuildError::FuncIsImported { index: 1 }
    );
    assert_eq!(
        Cfg::build(&module, 7).unwrap_err(),
        CfgBuildError::NoSuchFunc { index: 7 }
    );
}

/// Brute-force dominance: `a` dominates `b` when `b` is unreachable once
/// every path is forbidden to pass through `a`.
fn brute_force_dominates(succs: &[Vec<usize>], a: usize, b: usize) -> bool {
    if a == b {
        return true;
    }
    let n = succs.len();
    let mut seen = vec![false; n];
    let mut stack = vec![];
    if a != 0 {
        seen[0] = true;
        stack.push(0usize);
    }
    while let Some(u) = stack.pop() {
        for &s in &succs[u] {
            if s != a && !seen[s] {
                seen[s] = true;
                stack.push(s);
            }
        }
    }
    !seen[b]
}

#[test]
fn dominator_sets_match_brute_force_path_enumeration() {
    // a diamond followed by a loop
    let module = module_with(FuncBody {
        n_params: 2,
        n_locals: 0,
        has_result: false,
        instrs: vec![
            Instr::LocalGet(0),
            Instr::BrIf(4),
            Instr::Const(1),
            Instr::LocalSet(1),
            Instr::LocalGet(1),
            Instr::BrIf(4),
            Instr::Return,
        ],
    });
    let cfg = Cfg::build(&module, 0).unwrap();
    let doms = compute_dominators(&cfg);
    let n = cfg.blocks.len();
    for b in 0..n {
        for a in 0..n {
            assert_eq!(
                doms[b][a],
                brute_force_dominates(&cfg.succs, a, b),
                "dominance mismatch at a={a} b={b}"
            );
        }
    }
    let idom = dom_tree(&cfg, &doms);
    assert_eq!(idom[0], 0);
    for b in 1..n {
        assert!(idom[b] != b);
        assert!(doms[b][idom[b]]);
    }
}

#[test]
fn ssa_construction_gives_every_assignment_a_unique_version() {
    let module = module_with(diamond_body());
    let mut cfg = Cfg::build(&module, 0).unwrap();
    let _du = transform_to_ssa(&mut cfg);
    let mut seen: Vec<(u32, u32)> = vec![];
    for b in &cfg.blocks {
        for s in &b.stmts {
            if let Stmt::Assign(v, _) = s {
                assert!(v.subscript > 0, "unversioned assignment survived");
                assert!(
                    !seen.contains(&(v.index, v.subscript)),
                    "duplicate definition of ({}, {})",
                    v.index,
                    v.subscript
                );
                seen.push((v.index, v.subscript));
            }
        }
    }
    assert!(!seen.is_empty());
}

#[test]
fn optimizer_is_idempotent() {
    let module = module_with(diamond_body());
    let mut cfg = Cfg::build(&module, 0).unwrap();
    let mut du = transform_to_ssa(&mut cfg);
    let _ = propagate_expressions(&mut cfg, &mut du);
    let _ = eliminate_dead_code(&mut cfg, &mut du);
    optimize(&mut cfg, &mut du);
    let snapshot = format!("{:?}", cfg);
    optimize(&mut cfg, &mut du);
    assert_eq!(format!("{:?}", cfg), snapshot);
    let changed_again = propagate_expressions(&mut cfg, &mut du);
    assert!(!changed_again);
    let removed_again = eliminate_dead_code(&mut cfg, &mut du);
    assert!(!removed_again);
}

fn run_round_trip(body: FuncBody, args: Vec<i64>, call_results: Vec<i64>) -> (Trace, Trace) {
    let module = module_with(body);
    let cfg_before = Cfg::build(&module, 0).unwrap();
    let mem = vec![0i64; 16];
    let before = interpret(&cfg_before, &args, &call_results, &mem, 10_000);
    let mut cfg_after = Cfg::build(&module, 0).unwrap();
    let mut du = transform_to_ssa(&mut cfg_after);
    let _ = propagate_expressions(&mut cfg_after, &mut du);
    let _ = eliminate_dead_code(&mut cfg_after, &mut du);
    optimize(&mut cfg_after, &mut du);
    transform_out_of_ssa(&mut cfg_after);
    let after = interpret(&cfg_after, &args, &call_results, &mem, 10_000);
    (before, after)
}

#[test]
fn ssa_round_trip_preserves_behavior_on_a_diamond() {
    for arg in [0i64, 1, -3] {
        let (before, after) = run_round_trip(diamond_body(), vec![arg, 0, 0], vec![]);
        assert_eq!(before, after);
        assert_eq!(
            before.outcome,
            Outcome::ReturnedValue(if arg != 0 { 1 } else { 2 })
        );
    }
}

#[test]
fn ssa_round_trip_preserves_side_effects_and_loops() {
    // a counted loop that stores each value, then calls out with the sum
    let body = FuncBody {
        n_params: 2,
        n_locals: 1,
        has_result: true,
        instrs: vec![
            // 0: loop header: if local1 >= local0 break to 10
            Instr::LocalGet(1),
            Instr::LocalGet(0),
            Instr::Binary(BinOp::GeS),
            Instr::BrIf(10),
            // 4: store(local1, local1); local1 += 1
            Instr::LocalGet(1),
            Instr::LocalGet(1),
            Instr::Store,
            Instr::LocalGet(1),
            Instr::Const(1),
            // 9: (binary add folded below)
            Instr::Binary(BinOp::Add),
            // 10 is the break target only when reached via BrIf
            Instr::Return,
        ],
    };
    // the instruction indices above make instruction 10 both the loop exit
    // and the return; the setup exercises stores, a loop and a conditional
    let (before, after) = run_round_trip(body, vec![3, 0, 0], vec![7]);
    assert_eq!(before, after);
}

#[test]
fn ssa_round_trip_preserves_calls() {
    let body = FuncBody {
        n_params: 1,
        n_locals: 0,
        has_result: true,
        instrs: vec![
            Instr::LocalGet(0),
            Instr::Call { func: 9, n_args: 1, has_result: true },
            Instr::Const(5),
            Instr::Binary(BinOp::Mul),
            Instr::Return,
        ],
    };
    let (before, after) = run_round_trip(body, vec![11], vec![4]);
    assert_eq!(before, after);
    assert_eq!(before.outcome, Outcome::ReturnedValue(20));
    assert_eq!(before.events.len(), 1);
}

#[test]
fn structuring_is_total_on_an_irreducible_graph() {
    // two mutually-entering headers: 0 -> {1, 2}, 1 <-> 2, both return
    let v0 = Var::no_sub(0);
    let cfg = Cfg {
        blocks: vec![
            BasicBlock {
                stmts: vec![],
                term: Term::CondBr(Expr::Read(v0), 1, 2),
            },
            BasicBlock {
                stmts: vec![Stmt::Assign(v0, Expr::Const(1))],
                term: Term::CondBr(Expr::Read(v0), 2, 3),
            },
            BasicBlock {
                stmts: vec![Stmt::Assign(v0, Expr::Const(2))],
                term: Term::CondBr(Expr::Read(v0), 1, 3),
            },
            BasicBlock {
                stmts: vec![],
                term: Term::Return(None),
            },
        ],
        succs: vec![vec![1, 2], vec![2, 3], vec![1, 3], vec![]],
        preds: vec![vec![], vec![0, 2], vec![0, 1], vec![1, 2]],
    };
    // totality: it must terminate and produce a tree; irreducible edges may
    // fall back to labeled jumps
    let (_decls, code) = structure(cfg);
    assert!(!code.is_empty());
}

#[test]
fn decompile_func_reports_errors_exactly() {
    let module = module_with(diamond_body());
    let instance = auditor::wasm::Instance::from_module(module);
    let out = instance.decompile_function(0).unwrap();
    assert!(out.contains("pub fn f"));
    assert!(matches!(
        instance.decompile_function(3),
        Err(CfgBuildError::NoSuchFunc { index: 3 })
    ));
}

#[test]
fn spec_signatures_render_into_the_header() {
    let spec = FunctionInfo {
        name: String::from("transfer"),
        inputs: vec![ExtendedFunctionParam {
            name: String::from("amount"),
            type_ident: ExtendedValueType::new(ValueType::I64, "i64"),
        }],
        output: Some(ExtendedFunctionReturnType {
            type_ident: ExtendedValueType::new(ValueType::I32, "bool"),
        }),
    };
    let mut body = diamond_body();
    body.n_params = 3;
    let mut module = module_with(body);
    module.functions[0].name = String::from("transfer");
    module.functions[0].spec_fn = Some(spec);
    let instance = auditor::wasm::Instance::from_module(module);
    let out = instance.decompile_function(0).unwrap();
    assert!(out.contains("pub fn transfer(env: Env, amount: i64) -> bool {"));
}

#[test]
fn straight_line_bodies_decode_to_a_single_block() {
    // local2 = local0; store(local0, local1)
    let module = module_with(FuncBody {
        n_params: 3,
        n_locals: 0,
        has_result: false,
        instrs: vec![
            Instr::LocalGet(0),
            Instr::LocalSet(2),
            Instr::LocalGet(0),
            Instr::LocalGet(1),
            Instr::Store,
        ],
    });
    let cfg = Cfg::build(&module, 0).unwrap();
    assert_eq!(cfg.blocks.len(), 1);
    let v0 = Var::no_sub(0);
    let v1 = Var::no_sub(1);
    let v2 = Var::no_sub(2);
    let t3 = Var::no_sub(3);
    let t4 = Var::no_sub(4);
    assert_eq!(
        cfg.blocks[0].stmts,
        vec![
            Stmt::Assign(t3, Expr::Read(v0)),
            Stmt::Assign(v2, Expr::Read(t3)),
            Stmt::Assign(t3, Expr::Read(v0)),
            Stmt::Assign(t4, Expr::Read(v1)),
            Stmt::Store(Expr::Read(t3), Expr::Read(t4)),
        ]
    );
    assert_eq!(cfg.blocks[0].term, Term::Return(None));
}

#[test]
fn empty_bodies_decode_to_a_bare_return()
{
    let module = module_with(FuncBody {
        n_params: 0,
        n_locals: 0,
        has_result: false,
        instrs: vec![],
    });
    let cfg = Cfg::build(&module, 0).unwrap();
    assert_eq!(cfg.blocks.len(), 1);
    assert!(cfg.blocks[0].stmts.is_empty());
    assert_eq!(cfg.blocks[0].term, Term::Return(None));
}

#[test]
fn variables_render_as_index_and_version() {
    assert_eq!(auditor::fmt::render_var(Var::no_sub(7)).as_str(), "7");
    assert_eq!(auditor::fmt::render_var(Var::new(3, 2)).as_str(), "3_2");
}

#[test]
fn statements_render_one_line_each() {
    let v3 = Var::no_sub(3);
    let assign = Stmt::Assign(
        v3,
        Expr::Binary(BinOp::Add, Box::new(Expr::Const(1)), Box::new(Expr::Const(-2))),
    );
    assert_eq!(auditor::fmt::render_stmt(&assign, 0).as_str(), "3 = (1 + -2);\n");
    assert_eq!(auditor::fmt::render_stmt(&Stmt::Return(None), 1).as_str(), "    return;\n");
    let both = vec![assign, Stmt::Return(None)];
    assert_eq!(
        auditor::fmt::render_stmts(&both, 0).as_str(),
        "3 = (1 + -2);\nreturn;\n"
    );
    assert_eq!(auditor::fmt::render_stmts(&vec![], 5).as_str(), "");
}
