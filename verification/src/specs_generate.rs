//! Contract-interface metadata: the function signatures read from a contract's
//! spec section, used to give decompiled functions their exported names and
//! typed parameters. The binary spec section itself is decoded outside the
//! library; this module works on the decoded entries.

use vstd::prelude::*;

use crate::wasm::ExtendedValueType;
use crate::wasm::ValueType;

verus! {

/// A type from a contract spec entry, reduced to the plain shape the
/// renderer needs.
#[derive(Debug, PartialEq, Eq)]
pub enum SpecType {
    Val,
    U64,
    I64,
    U32,
    I32,
    U128,
    I128,
    Bool,
    Symbol,
    Error,
    Bytes,
    Address,
    StringT,
    OptionT(Box<SpecType>),
    ResultT(Box<SpecType>, Box<SpecType>),
    VecT(Box<SpecType>),
    MapT(Box<SpecType>, Box<SpecType>),
    Tuple(Vec<SpecType>),
    BytesN(u64),
    Udt(String),
    Void,
    Timepoint,
    Duration,
    U256,
    I256,
}

/// A named, typed parameter of a spec-section function entry.
#[derive(Debug, PartialEq, Eq)]
pub struct SpecParam {
    pub name: String,
    pub type_: SpecType,
}

/// A function entry of a contract's spec section, decoded to plain values.
#[derive(Debug, PartialEq, Eq)]
pub struct SpecFunction {
    pub name: String,
    pub inputs: Vec<SpecParam>,
    pub output: Option<SpecType>,
}

/// One entry of a contract's spec section. Only function entries carry
/// information this library consumes; the user-defined-type entries are
/// listed so a caller can hand the section over in full.
#[derive(Debug, PartialEq, Eq)]
pub enum SpecEntry {
    Function(SpecFunction),
    UdtStruct,
    UdtUnion,
    UdtEnum,
    UdtErrorEnum,
}

/// A function parameter with its extended (named) value type.
#[derive(Debug, PartialEq, Eq)]
pub struct ExtendedFunctionParam {
    pub name: String,
    pub type_ident: ExtendedValueType,
}

impl ExtendedFunctionParam {
    pub fn name(&self) -> (r: &str)
        ensures
            r@ == self.name@,
    {
        self.name.as_str()
    }

    pub fn type_ident(&self) -> (r: &ExtendedValueType)
        ensures
            r == self.type_ident,
    {
        &self.type_ident
    }
}

impl Clone for ExtendedFunctionParam {
    fn clone(&self) -> (r: Self)
        ensures
            r == *self,
    {
        ExtendedFunctionParam { name: self.name.clone(), type_ident: self.type_ident.clone() }
    }
}

/// A function return type with its extended (named) value type.
#[derive(Debug, PartialEq, Eq)]
pub struct ExtendedFunctionReturnType {
    pub type_ident: ExtendedValueType,
}

impl ExtendedFunctionReturnType {
    pub fn type_ident(&self) -> (r: &ExtendedValueType)
        ensures
            r == self.type_ident,
    {
        &self.type_ident
    }
}

impl Clone for ExtendedFunctionReturnType {
    fn clone(&self) -> (r: Self)
        ensures
            r == *self,
    {
        ExtendedFunctionReturnType { type_ident: self.type_ident.clone() }
    }
}

/// The signature a contract exports for one function: its exported name,
/// its named and typed inputs, and its optional return type.
#[derive(Debug, PartialEq, Eq)]
pub struct FunctionInfo {
    pub name: String,
    pub inputs: Vec<ExtendedFunctionParam>,
    pub output: Option<ExtendedFunctionReturnType>,
}

/// The rendered parameter list of a signature: `name: type`, comma-separated.
pub open spec fn fn_params_text(ps: Seq<ExtendedFunctionParam>) -> Seq<char>
    decreases ps.len(),
{
    if ps.len() == 0 {
        Seq::empty()
    } else if ps.len() == 1 {
        ps[0].name@ + seq![':', ' '] + ps[0].type_ident.name@
    } else {
        fn_params_text(ps.drop_last()) + seq![',', ' '] + ps.last().name@ + seq![':', ' ']
            + ps.last().type_ident.name@
    }
}

/// The rendered form of a signature: `fn name(params) output`, the output
/// type name empty when the signature has none.
pub open spec fn fninfo_text(f: FunctionInfo) -> Seq<char> {
    seq!['f', 'n', ' '] + f.name@ + seq!['('] + fn_params_text(f.inputs@) + seq![')', ' ']
        + (match f.output {
        Some(o) => o.type_ident.name@,
        None => Seq::<char>::empty(),
    })
}

impl FunctionInfo {
    pub fn default() -> (r: Self)
        ensures
            r.name@ == Seq::<char>::empty(),
            r.inputs@ == Seq::<ExtendedFunctionParam>::empty(),
            r.output is None,
    {
        FunctionInfo { name: String::new(), inputs: Vec::new(), output: None }
    }

    pub fn default_inputs(inputs: Vec<ExtendedFunctionParam>) -> (r: Self)
        ensures
            r.name@ == Seq::<char>::empty(),
            r.inputs == inputs,
            r.output is None,
    {
        FunctionInfo { name: String::new(), inputs, output: None }
    }

    pub fn name(&self) -> (r: &str)
        ensures
            r@ == self.name@,
    {
        self.name.as_str()
    }

    pub fn inputs(&self) -> (r: &Vec<ExtendedFunctionParam>)
        ensures
            r == self.inputs,
    {
        &self.inputs
    }

    pub fn output(&self) -> (r: Option<&ExtendedFunctionReturnType>)
        ensures
            r is Some <==> self.output is Some,
            r is Some ==> r->0 == self.output->0,
    {
        self.output.as_ref()
    }

    /// The rendered form of the signature: exactly `fn name(params) output`,
    /// the parameters comma-separated as `name: type`, the output type empty
    /// when none exists.
    pub fn render(&self) -> (r: String)
        ensures
            r@ == fninfo_text(*self),
    {
        let ghost head = seq!['f', 'n', ' '] + self.name@ + seq!['('];
        let mut s = String::from_str("fn ");
        s = s.concat(self.name.as_str());
        s = s.concat("(");
        proof {
            reveal_strlit("fn ");
            reveal_strlit("(");
            assert(self.inputs@.take(0) =~= Seq::<ExtendedFunctionParam>::empty());
            assert(s@ =~= head + fn_params_text(self.inputs@.take(0)));
        }
        let mut k: usize = 0;
        while k < self.inputs.len()
            invariant
                k <= self.inputs@.len(),
                head == seq!['f', 'n', ' '] + self.name@ + seq!['('],
                s@ =~= head + fn_params_text(self.inputs@.take(k as int)),
            decreases self.inputs@.len() - k,
        {
            if k > 0 {
                s = s.concat(", ");
            }
            s = s.concat(self.inputs[k].name.as_str());
            s = s.concat(": ");
            s = s.concat(self.inputs[k].type_ident.name.as_str());
            proof {
                reveal_strlit(", ");
                reveal_strlit(": ");
                let ins = self.inputs@;
                assert(ins.take(k as int + 1).drop_last() =~= ins.take(k as int));
                assert(ins.take(k as int + 1).last() == ins[k as int]);
                assert(s@ =~= head + fn_params_text(ins.take(k as int + 1)));
            }
            k = k + 1;
        }
        s = s.concat(") ");
        proof {
            reveal_strlit(") ");
            assert(self.inputs@.take(self.inputs@.len() as int) =~= self.inputs@);
        }
        let r = match &self.output {
            Some(o) => s.concat(o.type_ident.name.as_str()),
            None => s,
        };
        proof {
            assert(r@ =~= fninfo_text(*self));
        }
        r
    }

    /// True exactly when this value equals `FunctionInfo::default()`.
    pub fn is_default(&self) -> (r: bool)
        ensures
            r == (self.name@.len() == 0 && self.inputs@.len() == 0 && self.output is None),
    {
        self.name.as_str().is_empty() && self.inputs.len() == 0 && self.output.is_none()
    }
}

impl Clone for FunctionInfo {
    fn clone(&self) -> (r: Self)
        ensures
            r.name == self.name,
            r.inputs@ == self.inputs@,
            r.output == self.output,
    {
        let mut inputs: Vec<ExtendedFunctionParam> = Vec::new();
        let mut i: usize = 0;
        while i < self.inputs.len()
            invariant
                i <= self.inputs.len(),
                inputs@ == self.inputs@.subrange(0, i as int),
            decreases self.inputs.len() - i,
        {
            inputs.push(self.inputs[i].clone());
            i = i + 1;
        }
        proof {
            assert(inputs@ =~= self.inputs@);
        }
        FunctionInfo {
            name: self.name.clone(),
            inputs,
            output: match &self.output {
                Some(o) => Some(o.clone()),
                None => None,
            },
        }
    }
}

/// Looks a function's spec entry up by its exported name. Returns a copy of
/// the first entry whose name matches, and `None` exactly when no entry
/// matches.
pub fn find_function_specs(spec_fns_result: &Vec<FunctionInfo>, function_name_to_find: &str) -> (r:
    Option<FunctionInfo>)
    ensures
        match r {
            Some(f) => exists|k: int|
                {
                    &&& 0 <= k < spec_fns_result@.len()
                    &&& #[trigger] spec_fns_result@[k].name@ == function_name_to_find@
                    &&& f.name == spec_fns_result@[k].name
                    &&& f.inputs@ == spec_fns_result@[k].inputs@
                    &&& f.output == spec_fns_result@[k].output
                    &&& forall|j: int|
                        0 <= j < k ==> #[trigger] spec_fns_result@[j].name@
                            != function_name_to_find@
                },
            None => forall|k: int|
                0 <= k < spec_fns_result@.len() ==> #[trigger] spec_fns_result@[k].name@
                    != function_name_to_find@,
        },
{
    let mut i: usize = 0;
    while i < spec_fns_result.len()
        invariant
            i <= spec_fns_result.len(),
            forall|j: int|
                0 <= j < i ==> #[trigger] spec_fns_result@[j].name@ != function_name_to_find@,
        decreases spec_fns_result.len() - i,
    {
        if str_eq(spec_fns_result[i].name.as_str(), function_name_to_find) {
            return Some(spec_fns_result[i].clone());
        }
        i = i + 1;
    }
    None
}

/// Character-by-character equality of two string slices.
pub fn str_eq(a: &str, b: &str) -> (r: bool)
    ensures
        r == (a@ == b@),
{
    let la = a.unicode_len();
    let lb = b.unicode_len();
    if la != lb {
        return false;
    }
    let mut i: usize = 0;
    while i < la
        invariant
            la == a@.len(),
            la == b@.len(),
            i <= la,
            forall|j: int| 0 <= j < i ==> a@[j] == b@[j],
        decreases la - i,
    {
        if a.get_char(i) != b.get_char(i) {
            return false;
        }
        i = i + 1;
    }
    proof {
        assert(a@ =~= b@);
    }
    true
}

} // verus!

verus! {

/// The plain value type a spec-section type lowers to: the wide scalars ride
/// in an `i64`, everything else in an `i32` handle.
pub open spec fn spec_value_type(t: SpecType) -> ValueType {
    match t {
        SpecType::U64 => ValueType::I64,
        SpecType::I64 => ValueType::I64,
        SpecType::U128 => ValueType::I64,
        SpecType::I128 => ValueType::I64,
        SpecType::Symbol => ValueType::I64,
        _ => ValueType::I32,
    }
}

/// The rendered name of a spec-section type.
pub open spec fn spec_type_name(t: SpecType) -> Seq<char>
    decreases t,
{
    match t {
        SpecType::Val => "soroban_sdk::Val"@,
        SpecType::U64 => "u64"@,
        SpecType::I64 => "i64"@,
        SpecType::U32 => "u32"@,
        SpecType::I32 => "i32"@,
        SpecType::U128 => "u128"@,
        SpecType::I128 => "i128"@,
        SpecType::Bool => "bool"@,
        SpecType::Symbol => "soroban_sdk::Symbol"@,
        SpecType::Error => "soroban_sdk::Error"@,
        SpecType::Bytes => "soroban_sdk::Bytes"@,
        SpecType::Address => "soroban_sdk::Address"@,
        SpecType::StringT => "soroban_sdk::String"@,
        SpecType::OptionT(o) => "Option<"@ + spec_type_name(*o) + ">"@,
        SpecType::ResultT(o, e) => "Result<"@ + spec_type_name(*o) + ", "@ + spec_type_name(*e)
            + ">"@,
        SpecType::VecT(v) => "soroban_sdk::Vec<"@ + spec_type_name(*v) + ">"@,
        SpecType::MapT(k, v) => "soroban_sdk::Map<"@ + spec_type_name(*k) + ", "@ + spec_type_name(
            *v,
        ) + ">"@,
        SpecType::Tuple(ts) => "("@ + spec_tuple_names(ts@, ts@.len() as int) + ")"@,
        SpecType::BytesN(n) => "soroban_sdk::BytesN<"@ + crate::fmt::dec_digits(n as nat) + ">"@,
        SpecType::Udt(name) => name@,
        SpecType::Void => "()"@,
        SpecType::Timepoint => "soroban_sdk::Timepoint"@,
        SpecType::Duration => "soroban_sdk::Duration"@,
        SpecType::U256 => "soroban_sdk::U256"@,
        SpecType::I256 => "soroban_sdk::I256"@,
    }
}

/// The rendered names of the first `k` members of a tuple type, separated by
/// commas.
pub open spec fn spec_tuple_names(ts: Seq<SpecType>, k: int) -> Seq<char>
    decreases ts, k,
{
    if k <= 0 || k > ts.len() {
        Seq::empty()
    } else if k == 1 {
        spec_type_name(ts[0])
    } else {
        spec_tuple_names(ts, k - 1) + ", "@ + spec_type_name(ts[k - 1])
    }
}

/// Lowers a spec-section type to its stack-machine value type and its
/// rendered name.
pub fn generate_type_ident_string(spec: &SpecType) -> (r: ExtendedValueType)
    ensures
        r.value_type == spec_value_type(*spec),
        r.name@ == spec_type_name(*spec),
    decreases *spec,
{
    proof {
        reveal_strlit("soroban_sdk::Val");
        reveal_strlit("u64");
        reveal_strlit("i64");
        reveal_strlit("u32");
        reveal_strlit("i32");
        reveal_strlit("u128");
        reveal_strlit("i128");
        reveal_strlit("bool");
        reveal_strlit("soroban_sdk::Symbol");
        reveal_strlit("soroban_sdk::Error");
        reveal_strlit("soroban_sdk::Bytes");
        reveal_strlit("soroban_sdk::Address");
        reveal_strlit("soroban_sdk::String");
        reveal_strlit("()");
        reveal_strlit("soroban_sdk::Timepoint");
        reveal_strlit("soroban_sdk::Duration");
        reveal_strlit("soroban_sdk::U256");
        reveal_strlit("soroban_sdk::I256");
    }
    match spec {
        SpecType::Val => ExtendedValueType::new(ValueType::I32, "soroban_sdk::Val"),
        SpecType::U64 => ExtendedValueType::new(ValueType::I64, "u64"),
        SpecType::I64 => ExtendedValueType::new(ValueType::I64, "i64"),
        SpecType::U32 => ExtendedValueType::new(ValueType::I32, "u32"),
        SpecType::I32 => ExtendedValueType::new(ValueType::I32, "i32"),
        SpecType::U128 => ExtendedValueType::new(ValueType::I64, "u128"),
        SpecType::I128 => ExtendedValueType::new(ValueType::I64, "i128"),
        SpecType::Bool => ExtendedValueType::new(ValueType::I32, "bool"),
        SpecType::Symbol => ExtendedValueType::new(ValueType::I64, "soroban_sdk::Symbol"),
        SpecType::Error => ExtendedValueType::new(ValueType::I32, "soroban_sdk::Error"),
        SpecType::Bytes => ExtendedValueType::new(ValueType::I32, "soroban_sdk::Bytes"),
        SpecType::Address => ExtendedValueType::new(ValueType::I32, "soroban_sdk::Address"),
        SpecType::StringT => ExtendedValueType::new(ValueType::I32, "soroban_sdk::String"),
        SpecType::OptionT(o) => {
            let inner = generate_type_ident_string(o);
            let mut s = String::from_str("Option<");
            s = s.concat(inner.name.as_str());
            s = s.concat(">");
            proof {
                reveal_strlit("Option<");
                reveal_strlit(">");
            }
            ExtendedValueType { value_type: ValueType::I32, name: s }
        },
        SpecType::ResultT(o, e) => {
            let ok = generate_type_ident_string(o);
            let err = generate_type_ident_string(e);
            let mut s = String::from_str("Result<");
            s = s.concat(ok.name.as_str());
            s = s.concat(", ");
            s = s.concat(err.name.as_str());
            s = s.concat(">");
            proof {
                reveal_strlit("Result<");
                reveal_strlit(", ");
                reveal_strlit(">");
            }
            ExtendedValueType { value_type: ValueType::I32, name: s }
        },
        SpecType::VecT(v) => {
            let inner = generate_type_ident_string(v);
            let mut s = String::from_str("soroban_sdk::Vec<");
            s = s.concat(inner.name.as_str());
            s = s.concat(">");
            proof {
                reveal_strlit("soroban_sdk::Vec<");
                reveal_strlit(">");
            }
            ExtendedValueType { value_type: ValueType::I32, name: s }
        },
        SpecType::MapT(k, v) => {
            let key = generate_type_ident_string(k);
            let value = generate_type_ident_string(v);
            let mut s = String::from_str("soroban_sdk::Map<");
            s = s.concat(key.name.as_str());
            s = s.concat(", ");
            s = s.concat(value.name.as_str());
            s = s.concat(">");
            proof {
                reveal_strlit("soroban_sdk::Map<");
                reveal_strlit(", ");
                reveal_strlit(">");
            }
            ExtendedValueType { value_type: ValueType::I32, name: s }
        },
        SpecType::Tuple(ts) => {
            let inner = tuple_member_names(ts);
            let mut s = String::from_str("(");
            s = s.concat(inner.as_str());
            s = s.concat(")");
            proof {
                reveal_strlit("(");
                reveal_strlit(")");
                assert(s@ =~= spec_type_name(SpecType::Tuple(*ts)));
            }
            ExtendedValueType { value_type: ValueType::I32, name: s }
        },
        SpecType::BytesN(n) => {
            let mut s = String::from_str("soroban_sdk::BytesN<");
            s = s.concat(crate::fmt::dec_string(*n).as_str());
            s = s.concat(">");
            proof {
                reveal_strlit("soroban_sdk::BytesN<");
                reveal_strlit(">");
            }
            ExtendedValueType { value_type: ValueType::I32, name: s }
        },
        SpecType::Udt(name) => {
            ExtendedValueType { value_type: ValueType::I32, name: name.clone() }
        },
        SpecType::Void => ExtendedValueType::new(ValueType::I32, "()"),
        SpecType::Timepoint => ExtendedValueType::new(ValueType::I32, "soroban_sdk::Timepoint"),
        SpecType::Duration => ExtendedValueType::new(ValueType::I32, "soroban_sdk::Duration"),
        SpecType::U256 => ExtendedValueType::new(ValueType::I32, "soroban_sdk::U256"),
        SpecType::I256 => ExtendedValueType::new(ValueType::I32, "soroban_sdk::I256"),
    }
}

/// The comma-separated rendered names of a tuple's member types.
fn tuple_member_names(ts: &Vec<SpecType>) -> (r: String)
    ensures
        r@ == spec_tuple_names(ts@, ts@.len() as int),
    decreases ts@,
{
    let mut s = String::new();
    let mut k: usize = 0;
    while k < ts.len()
        invariant
            k <= ts@.len(),
            s@ == spec_tuple_names(ts@, k as int),
        decreases ts@.len() - k,
    {
        if k > 0 {
            s = s.concat(", ");
        }
        let member = generate_type_ident_string(&ts[k]);
        s = s.concat(member.name.as_str());
        proof {
            reveal_strlit(", ");
            assert(s@ =~= spec_tuple_names(ts@, k + 1 as int));
        }
        k = k + 1;
    }
    s
}

/// The function entries among the first `k` entries of a spec section.
pub open spec fn fn_entries_upto(s: Seq<SpecEntry>, k: int) -> Seq<SpecFunction>
    decreases k,
{
    if k <= 0 {
        Seq::empty()
    } else {
        fn_entries_upto(s, k - 1) + (match s[k - 1] {
            SpecEntry::Function(f) => seq![f],
            _ => Seq::empty(),
        })
    }
}

/// The rendered signature matches its spec-section function entry: same
/// name, the inputs lowered pointwise, the output lowered when present.
pub open spec fn info_matches(fi: FunctionInfo, f: SpecFunction) -> bool {
    &&& fi.name@ == f.name@
    &&& fi.inputs@.len() == f.inputs@.len()
    &&& forall|p: int|
        0 <= p < f.inputs@.len() ==> {
            &&& (#[trigger] fi.inputs@[p]).name@ == f.inputs@[p].name@
            &&& fi.inputs@[p].type_ident.value_type == spec_value_type(f.inputs@[p].type_)
            &&& fi.inputs@[p].type_ident.name@ == spec_type_name(f.inputs@[p].type_)
        }
    &&& (fi.output is Some <==> f.output is Some)
    &&& (f.output is Some ==> fi.output->0.type_ident.value_type == spec_value_type(f.output->0)
        && fi.output->0.type_ident.name@ == spec_type_name(f.output->0))
}

/// Collects the function signatures of a decoded spec section: one rendered
/// signature per function entry, in order; the user-defined-type entries
/// carry nothing the decompiler needs.
pub fn read_contract_specs(entries: &Vec<SpecEntry>) -> (r: Vec<FunctionInfo>)
    ensures
        r@.len() == fn_entries_upto(entries@, entries@.len() as int).len(),
        forall|k: int|
            0 <= k < r@.len() ==> info_matches(
                #[trigger] r@[k],
                fn_entries_upto(entries@, entries@.len() as int)[k],
            ),
{
    let mut spec_fns: Vec<FunctionInfo> = Vec::new();
    let mut e: usize = 0;
    while e < entries.len()
        invariant
            e <= entries@.len(),
            spec_fns@.len() == fn_entries_upto(entries@, e as int).len(),
            forall|k: int|
                0 <= k < spec_fns@.len() ==> info_matches(
                    #[trigger] spec_fns@[k],
                    fn_entries_upto(entries@, e as int)[k],
                ),
        decreases entries@.len() - e,
    {
        match &entries[e] {
            SpecEntry::Function(f) => {
                let mut inputs: Vec<ExtendedFunctionParam> = Vec::new();
                let mut p: usize = 0;
                let np = f.inputs.len();
                while p < np
                    invariant
                        e < entries@.len(),
                        entries@[e as int] matches SpecEntry::Function(ff) && ff == *f,
                        np == f.inputs@.len(),
                        p <= np,
                        inputs@.len() == p,
                        forall|q: int|
                            0 <= q < p ==> {
                                &&& (#[trigger] inputs@[q]).name@ == f.inputs@[q].name@
                                &&& inputs@[q].type_ident.value_type == spec_value_type(
                                    f.inputs@[q].type_,
                                )
                                &&& inputs@[q].type_ident.name@ == spec_type_name(
                                    f.inputs@[q].type_,
                                )
                            },
                    decreases np - p,
                {
                    let param = &f.inputs[p];
                    let type_ident = generate_type_ident_string(&param.type_);
                    inputs.push(ExtendedFunctionParam { name: param.name.clone(), type_ident });
                    p = p + 1;
                }
                let output: Option<ExtendedFunctionReturnType> = match &f.output {
                    Some(t) => Some(
                        ExtendedFunctionReturnType { type_ident: generate_type_ident_string(t) },
                    ),
                    None => None,
                };
                let info = FunctionInfo { name: f.name.clone(), inputs, output };
                spec_fns.push(info);
            },
            _ => {},
        }
        e = e + 1;
    }
    spec_fns
}

} // verus!
