use auditor::common_env::{take_common_module, CommonFunction, CommonModule, CommonEnvError};
use auditor::fmt::{dec_string, CodeWriter};
use auditor::sdk_linker::{
    check_lcs_patterns, find_best_match, get_lcs_pattern, get_sequence_tlsh, replace_sequence,
    search_for_patterns, LinkerError, Pattern,
};
use auditor::specs_generate::{
    find_function_specs, generate_type_ident_string, read_contract_specs, ExtendedFunctionParam,
    ExtendedFunctionReturnType, FunctionInfo, SpecEntry, SpecFunction, SpecParam, SpecType,
};
use auditor::ssa::Var;
use auditor::wasm::{
    init_tables, ExtendedValueType, InitExpr, Instance, Module, Table, TableElement, TableInit,
    TableType, ValueType,
};

fn empty_module() -> Module {
    Module { functions: vec![], tables: vec![], table_inits: vec![], spec_fns: vec![] }
}

#[test]
fn var_constructors_and_asserted_flag() {
    let v = Var::new(4, 2);
    assert_eq!(v.index, 4);
    assert_eq!(v.subscript, 2);
    assert!(!v.asserted);
    let mut w = Var::no_sub(9);
    assert_eq!(w.subscript, 0);
    w.set_asserted();
    assert!(w.asserted);
    assert_eq!(w.index, 9);
}

#[test]
fn decimal_rendering() {
    assert_eq!(dec_string(0).as_str(), "0");
    assert_eq!(dec_string(7).as_str(), "7");
    assert_eq!(dec_string(40123).as_str(), "40123");
}

#[test]
fn writer_indents_and_accumulates() {
    let module = empty_module();
    let instance = Instance::from_module(module);
    let mut w = CodeWriter::formatter(&instance, 0);
    w.push_str("a");
    w.indent();
    w.newline();
    w.push_str("b");
    w.dedent();
    w.suppress_newline();
    w.newline();
    w.push_str("c");
    assert_eq!(w.get_output().as_str(), "a\n    bc");
}

#[test]
fn tables_initialize_and_apply_segments() {
    let module = Module {
        functions: vec![],
        tables: vec![TableType { initial: 3 }],
        table_inits: vec![
            TableInit { index: 0, offset: InitExpr::I32Const(1), entries: vec![10, 11, 12] },
            TableInit { index: 0, offset: InitExpr::Other, entries: vec![99] },
        ],
        spec_fns: vec![],
    };
    let tables = init_tables(&module);
    assert_eq!(
        tables,
        vec![Table {
            elements: vec![
                TableElement::Null,
                TableElement::Func(10),
                TableElement::Func(11),
                TableElement::Func(12),
            ],
        }]
    );
}

#[test]
fn signatures_render_with_name_inputs_and_output() {
    assert_eq!(FunctionInfo::default().render().as_str(), "fn () ");
    let f = FunctionInfo {
        name: String::from("mint"),
        inputs: vec![
            ExtendedFunctionParam {
                name: String::from("to"),
                type_ident: ExtendedValueType::new(ValueType::I32, "soroban_sdk::Address"),
            },
            ExtendedFunctionParam {
                name: String::from("amount"),
                type_ident: ExtendedValueType::new(ValueType::I64, "i128"),
            },
        ],
        output: Some(ExtendedFunctionReturnType {
            type_ident: ExtendedValueType::new(ValueType::I32, "bool"),
        }),
    };
    assert_eq!(f.render().as_str(), "fn mint(to: soroban_sdk::Address, amount: i128) bool");
}

#[test]
fn raw_headers_fall_back_to_letter_parameters() {
    let module = Module {
        functions: vec![auditor::wasm::Function {
            name: String::from("f"),
            params: vec![ValueType::I64, ValueType::I32],
            return_type: Some(ValueType::I64),
            body: None,
            spec_fn: None,
        }],
        tables: vec![],
        table_inits: vec![],
        spec_fns: vec![],
    };
    let instance = Instance::from_module(module);
    let mut w = CodeWriter::formatter(&instance, 0);
    w.write_func(&vec![], false);
    assert_eq!(
        w.get_output().as_str(),
        "pub fn f(env: Env, arg_a: i64 , arg_b: i32 ) -> i64 {}\n"
    );
}

#[test]
fn spec_headers_render_the_signature() {
    let spec = FunctionInfo {
        name: String::from("mint"),
        inputs: vec![ExtendedFunctionParam {
            name: String::from("to"),
            type_ident: ExtendedValueType::new(ValueType::I32, "soroban_sdk::Address"),
        }],
        output: Some(ExtendedFunctionReturnType {
            type_ident: ExtendedValueType::new(ValueType::I32, "bool"),
        }),
    };
    let module = Module {
        functions: vec![auditor::wasm::Function {
            name: String::from("mint"),
            params: vec![ValueType::I32],
            return_type: Some(ValueType::I32),
            body: None,
            spec_fn: Some(spec),
        }],
        tables: vec![],
        table_inits: vec![],
        spec_fns: vec![],
    };
    let instance = Instance::from_module(module);
    let mut w = CodeWriter::formatter(&instance, 0);
    w.write_func(&vec![], false);
    assert_eq!(
        w.get_output().as_str(),
        "pub fn mint(env: Env, to: soroban_sdk::Address) -> bool {\n}"
    );
}

#[test]
fn function_spec_lookup_finds_first_match() {
    let mk = |name: &str| FunctionInfo {
        name: String::from(name),
        inputs: vec![],
        output: None,
    };
    let specs = vec![mk("alpha"), mk("beta"), mk("beta")];
    let hit = find_function_specs(&specs, "beta").unwrap();
    assert_eq!(hit.name.as_str(), "beta");
    assert!(find_function_specs(&specs, "gamma").is_none());
    assert!(FunctionInfo::default().is_default());
    assert!(!mk("alpha").is_default());
}

#[test]
fn common_env_lookup_walks_modules_in_order() {
    let modules = vec![
        CommonModule {
            export: String::from("i"),
            name: String::from("int"),
            functions: vec![CommonFunction {
                export: String::from("0"),
                name: String::from("obj_to_u64"),
            }],
        },
        CommonModule {
            export: String::from("v"),
            name: String::from("vec"),
            functions: vec![CommonFunction {
                export: String::from("g"),
                name: String::from("vec_get"),
            }],
        },
    ];
    let hit = take_common_module(&modules, "v", "g").unwrap();
    assert_eq!(hit.module_name.as_str(), "vec");
    assert_eq!(hit.function_name.as_str(), "vec_get");
    assert_eq!(
        take_common_module(&modules, "v", "zz").unwrap_err(),
        CommonEnvError::FunctionNotFound
    );
}

#[test]
fn type_idents_render_like_their_spec_types() {
    let t = generate_type_ident_string(&SpecType::U64);
    assert_eq!(t.value_type, ValueType::I64);
    assert_eq!(t.name.as_str(), "u64");
    let t = generate_type_ident_string(&SpecType::OptionT(Box::new(SpecType::Address)));
    assert_eq!(t.value_type, ValueType::I32);
    assert_eq!(t.name.as_str(), "Option<soroban_sdk::Address>");
    let t = generate_type_ident_string(&SpecType::MapT(
        Box::new(SpecType::Symbol),
        Box::new(SpecType::VecT(Box::new(SpecType::U32))),
    ));
    assert_eq!(
        t.name.as_str(),
        "soroban_sdk::Map<soroban_sdk::Symbol, soroban_sdk::Vec<u32>>"
    );
    let t = generate_type_ident_string(&SpecType::Tuple(vec![
        SpecType::Bool,
        SpecType::BytesN(32),
    ]));
    assert_eq!(t.name.as_str(), "(bool, soroban_sdk::BytesN<32>)");
    let t = generate_type_ident_string(&SpecType::Udt(String::from("MyToken")));
    assert_eq!(t.name.as_str(), "MyToken");
}

#[test]
fn contract_specs_keep_only_function_entries() {
    let entries = vec![
        SpecEntry::UdtStruct,
        SpecEntry::Function(SpecFunction {
            name: String::from("mint"),
            inputs: vec![SpecParam { name: String::from("to"), type_: SpecType::Address }],
            output: Some(SpecType::Bool),
        }),
        SpecEntry::UdtEnum,
    ];
    let fns = read_contract_specs(&entries);
    assert_eq!(fns.len(), 1);
    assert_eq!(fns[0].name.as_str(), "mint");
    assert_eq!(fns[0].inputs.len(), 1);
    assert_eq!(fns[0].inputs[0].name.as_str(), "to");
    assert_eq!(fns[0].inputs[0].type_ident.name.as_str(), "soroban_sdk::Address");
    assert_eq!(fns[0].output.as_ref().unwrap().type_ident.name.as_str(), "bool");
}

#[test]
fn lcs_alignment_matches_known_example() {
    assert_eq!(check_lcs_patterns("a--b---c", "abc").as_str(), "abc");
    assert_eq!(get_lcs_pattern("gac", "agcat").unwrap().as_str(), "ga");
}

#[test]
fn fingerprint_needs_fifty_characters() {
    let short = String::from("too short");
    assert_eq!(get_sequence_tlsh(&short).unwrap_err(), LinkerError::MinSizeNotReached);
    let long = String::from(
        "var_a=global_a-16;var_b=global_a-16;store_i64(var_a+8,1);var_c=vec.vec_new()",
    );
    assert!(get_sequence_tlsh(&long).is_ok());
}

#[test]
fn best_match_prefers_the_exact_window() {
    let body = "xxxaaabbbyyy";
    let (p, s) = find_best_match(body, "aaa", "bbb");
    assert_eq!(p, Some(3));
    assert_eq!(s, Some(6));
}

#[test]
fn replacement_splices_the_matched_span() {
    let pattern = Pattern {
        name: String::from("vec_new"),
        hash: String::new(),
        prefix_pattern: String::from("aaa"),
        suffix_pattern: String::from("bbb"),
        body_replace: String::from("<VEC>"),
    };
    let out = replace_sequence(&pattern, "xxxaaabbbyyy").unwrap();
    assert_eq!(out.as_str(), "xxx<VEC>yyy");
}

#[test]
fn pattern_search_returns_the_body_when_nothing_matches() {
    let out = search_for_patterns("short body", &vec![]).unwrap();
    assert_eq!(out.as_str(), "short body");
    let pattern = Pattern {
        name: String::from("p"),
        hash: String::new(),
        prefix_pattern: String::from("zzzz"),
        suffix_pattern: String::from("qqqq"),
        body_replace: String::from("<P>"),
    };
    let out = search_for_patterns("short body", &vec![pattern]).unwrap();
    assert_eq!(out.as_str(), "short body");
}

#[test]
fn fingerprint_rejects_low_entropy_input() {
    // long enough, but without enough distinct content for a fingerprint
    let flat = String::from("aaaaaaaaaaaaaaaaaaaaaaaaaaaaaaaaaaaaaaaaaaaaaaaaaaaaaaaaaaaa");
    assert_eq!(get_sequence_tlsh(&flat).unwrap_err(), LinkerError::BuildFailed);
}

#[test]
fn signature_rendering_includes_name_inputs_and_output() {
    let info = FunctionInfo {
        name: String::from("swap"),
        inputs: vec![],
        output: None,
    };
    assert_eq!(info.render().as_str(), "fn swap() ");
}
