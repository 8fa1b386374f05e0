//! The decoded module model the pipeline runs on: functions with their
//! decoded instruction bodies, table declarations and table initializers, and
//! the instance that owns the module together with its initialized tables.
//! Decoding the binary container into this model happens outside the library.

use vstd::prelude::*;

use crate::cfg::FuncBody;
use crate::specs_generate::FunctionInfo;

verus! {

/// A plain value type of the stack machine. Floating-point code is out of
/// this library's scope.
#[derive(Debug, Clone, Copy, PartialEq, Eq, Structural)]
pub enum ValueType {
    I32,
    I64,
}

impl ValueType {
    pub fn type_str(&self) -> (r: &str)
        ensures
            *self == ValueType::I32 ==> r@ == "i32"@,
            *self == ValueType::I64 ==> r@ == "i64"@,
    {
        match self {
            ValueType::I32 => "i32",
            ValueType::I64 => "i64",
        }
    }
}

/// A value type joined with the richer type name the contract spec section
/// supplies for it.
#[derive(Debug, PartialEq, Eq)]
pub struct ExtendedValueType {
    pub value_type: ValueType,
    pub name: String,
}

impl ExtendedValueType {
    pub fn new(value_type: ValueType, name: &str) -> (r: Self)
        ensures
            r.value_type == value_type,
            r.name@ == name@,
    {
        ExtendedValueType { value_type, name: String::from_str(name) }
    }

    pub fn type_str(&self) -> (r: &str)
        ensures
            r@ == self.name@,
    {
        self.name.as_str()
    }
}

impl Clone for ExtendedValueType {
    fn clone(&self) -> (r: Self)
        ensures
            r == *self,
    {
        ExtendedValueType { value_type: self.value_type, name: self.name.clone() }
    }
}

/// One element of an indirect-call table.
#[derive(Debug, Clone, Copy, PartialEq, Eq, Structural)]
pub enum TableElement {
    Null,
    Func(u32),
}

/// An initialized indirect-call table.
#[derive(Debug, PartialEq, Eq)]
pub struct Table {
    pub elements: Vec<TableElement>,
}

/// A declared table with its initial element count.
#[derive(Debug, Clone, Copy, PartialEq, Eq, Structural)]
pub struct TableType {
    pub initial: u32,
}

/// The decoded offset expression of a table initializer.
#[derive(Debug, Clone, Copy, PartialEq, Eq, Structural)]
pub enum InitExpr {
    I32Const(i32),
    Other,
}

/// One table-initializer segment: function indices written into table
/// `index` starting at `offset`.
#[derive(Debug, PartialEq, Eq)]
pub struct TableInit {
    pub index: u32,
    pub offset: InitExpr,
    pub entries: Vec<u32>,
}

/// A decoded function: its signature, its decoded body (`None` for an
/// imported function), and its spec-section signature if one was found.
#[derive(Debug, PartialEq, Eq)]
pub struct Function {
    pub name: String,
    pub params: Vec<ValueType>,
    pub return_type: Option<ValueType>,
    pub body: Option<FuncBody>,
    pub spec_fn: Option<FunctionInfo>,
}

impl Function {
    pub fn name(&self) -> (r: &str)
        ensures
            r@ == self.name@,
    {
        self.name.as_str()
    }

    pub fn is_imported(&self) -> (r: bool)
        ensures
            r == (self.body is None),
    {
        self.body.is_none()
    }

    pub fn params(&self) -> (r: &Vec<ValueType>)
        ensures
            r == self.params,
    {
        &self.params
    }

    pub fn return_type(&self) -> (r: Option<ValueType>)
        ensures
            r == self.return_type,
    {
        self.return_type
    }

    pub fn spec_fn(&self) -> (r: Option<&FunctionInfo>)
        ensures
            r is Some <==> self.spec_fn is Some,
            r is Some ==> r->0 == self.spec_fn->0,
    {
        self.spec_fn.as_ref()
    }
}

/// A decoded module: its functions, its table declarations and initializer
/// segments, and the spec-section signatures read alongside.
#[derive(Debug, PartialEq, Eq)]
pub struct Module {
    pub functions: Vec<Function>,
    pub tables: Vec<TableType>,
    pub table_inits: Vec<TableInit>,
    pub spec_fns: Vec<FunctionInfo>,
}

impl Module {
    pub fn functions(&self) -> (r: &Vec<Function>)
        ensures
            r == self.functions,
    {
        &self.functions
    }

    pub fn func(&self, i: u32) -> (r: &Function)
        requires
            i < self.functions@.len(),
        ensures
            r == self.functions@[i as int],
    {
        &self.functions[i as usize]
    }

    pub fn tables(&self) -> (r: &Vec<TableType>)
        ensures
            r == self.tables,
    {
        &self.tables
    }

    pub fn table_inits(&self) -> (r: &Vec<TableInit>)
        ensures
            r == self.table_inits,
    {
        &self.table_inits
    }

    pub fn spec_fns(&self) -> (r: &Vec<FunctionInfo>)
        ensures
            r == self.spec_fns,
    {
        &self.spec_fns
    }

    /// Table initializers stay inside the declared tables, use non-negative
    /// offsets, and stay within addressable range.
    pub open spec fn inits_wf(&self) -> bool {
        forall|j: int|
            0 <= j < self.table_inits@.len() ==> {
                &&& (#[trigger] self.table_inits@[j]).index < self.tables@.len()
                &&& (self.table_inits@[j].offset matches InitExpr::I32Const(off) ==> off >= 0
                    && off + self.table_inits@[j].entries@.len() <= usize::MAX)
            }
    }
}

/// The fresh, all-null contents of a declared table.
pub open spec fn spec_new_table(t: TableType) -> Seq<TableElement> {
    Seq::new(t.initial as nat, |i: int| TableElement::Null)
}

/// Writing one initializer entry: inside the table it overwrites, past the
/// end it appends.
pub open spec fn spec_write_entry(tbl: Seq<TableElement>, idx: int, ele: TableElement) -> Seq<
    TableElement,
> {
    if idx >= tbl.len() {
        tbl.push(ele)
    } else {
        tbl.update(idx, ele)
    }
}

/// The contents of one table after the first `k` entries of an initializer
/// at `offset` have been written.
pub open spec fn spec_apply_entries(
    tbl: Seq<TableElement>,
    offset: int,
    entries: Seq<u32>,
    k: int,
) -> Seq<TableElement>
    decreases k,
{
    if k <= 0 {
        tbl
    } else {
        spec_write_entry(
            spec_apply_entries(tbl, offset, entries, k - 1),
            offset + (k - 1),
            TableElement::Func(entries[k - 1]),
        )
    }
}

/// All tables after one initializer segment has been applied. A segment
/// whose offset is not a decoded constant is skipped.
pub open spec fn spec_apply_init(tables: Seq<Seq<TableElement>>, init: TableInit) -> Seq<
    Seq<TableElement>,
> {
    match init.offset {
        InitExpr::I32Const(off) => tables.update(
            init.index as int,
            spec_apply_entries(
                tables[init.index as int],
                off as int,
                init.entries@,
                init.entries@.len() as int,
            ),
        ),
        InitExpr::Other => tables,
    }
}

/// All tables after the first `j` initializer segments have been applied.
pub open spec fn spec_apply_inits(
    tables: Seq<Seq<TableElement>>,
    inits: Seq<TableInit>,
    j: int,
) -> Seq<Seq<TableElement>>
    decreases j,
{
    if j <= 0 {
        tables
    } else {
        spec_apply_init(spec_apply_inits(tables, inits, j - 1), inits[j - 1])
    }
}

/// The contents every table of a module holds after initialization.
pub open spec fn spec_tables_of(m: Module) -> Seq<Seq<TableElement>> {
    spec_apply_inits(
        Seq::new(m.tables@.len(), |t: int| spec_new_table(m.tables@[t])),
        m.table_inits@,
        m.table_inits@.len() as int,
    )
}

/// Builds every declared table and applies the initializer segments in
/// order.
pub fn init_tables(module: &Module) -> (r: Vec<Table>)
    requires
        module.inits_wf(),
    ensures
        r@.len() == spec_tables_of(*module).len(),
        forall|t: int|
            0 <= t < r@.len() ==> (#[trigger] r@[t]).elements@ == spec_tables_of(*module)[t],
{
    let ghost init_views = Seq::new(
        module.tables@.len(),
        |t: int| spec_new_table(module.tables@[t]),
    );
    let mut tables: Vec<Table> = Vec::new();
    let mut t: usize = 0;
    while t < module.tables.len()
        invariant
            t <= module.tables@.len(),
            tables@.len() == t,
            init_views == Seq::new(module.tables@.len(), |x: int| spec_new_table(module.tables@[x])),
            forall|x: int| 0 <= x < t ==> (#[trigger] tables@[x]).elements@ == init_views[x],
        decreases module.tables@.len() - t,
    {
        let count = module.tables[t].initial;
        let mut elements: Vec<TableElement> = Vec::new();
        let mut e: u32 = 0;
        while e < count
            invariant
                e <= count,
                elements@.len() == e,
                forall|x: int| 0 <= x < e ==> elements@[x] == TableElement::Null,
            decreases count - e,
        {
            elements.push(TableElement::Null);
            e = e + 1;
        }
        proof {
            assert(elements@ =~= spec_new_table(module.tables@[t as int]));
        }
        tables.push(Table { elements });
        t = t + 1;
    }
    let ghost tables0 = Seq::new(tables@.len(), |x: int| tables@[x].elements@);
    proof {
        assert(tables0 =~= init_views);
    }
    let mut j: usize = 0;
    while j < module.table_inits.len()
        invariant
            j <= module.table_inits@.len(),
            module.inits_wf(),
            tables0 == init_views,
            init_views == Seq::new(module.tables@.len(), |x: int| spec_new_table(module.tables@[x])),
            tables@.len() == module.tables@.len(),
            Seq::new(tables@.len(), |x: int| tables@[x].elements@) =~= spec_apply_inits(
                tables0,
                module.table_inits@,
                j as int,
            ),
        decreases module.table_inits@.len() - j,
    {
        let ghost before = Seq::new(tables@.len(), |x: int| tables@[x].elements@);
        let index = module.table_inits[j].index as usize;
        let offset = module.table_inits[j].offset;
        match offset {
            InitExpr::I32Const(off) => {
                let ghost tbl0 = tables@[index as int].elements@;
                let ghost entries_view = module.table_inits@[j as int].entries@;
                let mut i: usize = 0;
                let n_entries = module.table_inits[j].entries.len();
                while i < n_entries
                    invariant
                        j < module.table_inits@.len(),
                        n_entries == entries_view.len(),
                        entries_view == module.table_inits@[j as int].entries@,
                        module.table_inits@[j as int].offset == InitExpr::I32Const(off),
                        module.table_inits@[j as int].index == index as u32,
                        off >= 0,
                        off + n_entries <= usize::MAX,
                        i <= n_entries,
                        index < tables@.len(),
                        tables@.len() == before.len(),
                        forall|x: int|
                            0 <= x < tables@.len() && x != index ==> (#[trigger] tables@[x]).elements@
                                == before[x],
                        tables@[index as int].elements@ == spec_apply_entries(
                            tbl0,
                            off as int,
                            entries_view,
                            i as int,
                        ),
                    decreases n_entries - i,
                {
                    let ele = TableElement::Func(module.table_inits[j].entries[i]);
                    let pos = i + off as usize;
                    if pos >= tables[index].elements.len() {
                        tables[index].elements.push(ele);
                    } else {
                        tables[index].elements[pos] = ele;
                    }
                    i = i + 1;
                }
                proof {
                    assert(tbl0 == before[index as int]);
                    assert(Seq::new(tables@.len(), |x: int| tables@[x].elements@)
                        =~= spec_apply_init(before, module.table_inits@[j as int]));
                }
            },
            InitExpr::Other => {
                proof {
                    assert(Seq::new(tables@.len(), |x: int| tables@[x].elements@)
                        =~= spec_apply_init(before, module.table_inits@[j as int]));
                }
            },
        }
        j = j + 1;
    }
    tables
}

/// A loaded module together with its initialized tables.
#[derive(Debug, PartialEq, Eq)]
pub struct Instance {
    pub module: Module,
    pub tables: Vec<Table>,
}

impl Instance {
    /// Builds an instance around a decoded module, initializing its tables.
    pub fn from_module(module: Module) -> (r: Self)
        requires
            module.inits_wf(),
        ensures
            r.module == module,
            r.tables@.len() == spec_tables_of(module).len(),
            forall|t: int|
                0 <= t < r.tables@.len() ==> (#[trigger] r.tables@[t]).elements@ == spec_tables_of(
                    module,
                )[t],
    {
        let tables = init_tables(&module);
        Instance { module, tables }
    }

    pub fn module(&self) -> (r: &Module)
        ensures
            r == self.module,
    {
        &self.module
    }

    pub fn tables(&self) -> (r: &Vec<Table>)
        ensures
            r == self.tables,
    {
        &self.tables
    }

    pub fn spec_fns(&self) -> (r: &Vec<FunctionInfo>)
        ensures
            r == self.module.spec_fns,
    {
        self.module.spec_fns()
    }
}

} // verus!

verus! {

impl Instance {
    /// Decompiles one function of the instance's module and returns its
    /// rendered text. Fails exactly when the index names no function or an
    /// imported one; the returned text is exactly the rendering of a
    /// faithful structuring of a well-formed, phi-free graph, headed by the
    /// function's signature.
    pub fn decompile_function(&self, func_index: u32) -> (r: Result<String, crate::cfg::CfgBuildError>)
        ensures
            r is Err <==> (func_index >= self.module.functions@.len()
                || self.module.functions@[func_index as int].body is None),
            r is Err ==> r->Err_0 == (if func_index >= self.module.functions@.len() {
                crate::cfg::CfgBuildError::NoSuchFunc { index: func_index }
            } else {
                crate::cfg::CfgBuildError::FuncIsImported { index: func_index }
            }),
            r matches Ok(s) ==> crate::fmt::rendered_output(
                s@,
                self.module.functions@[func_index as int],
            ),
    {
        let mut writer = crate::fmt::CodeWriter::formatter(self, func_index);
        let empty_args: Vec<crate::ssa::Expr> = Vec::new();
        let code = match writer.decompile_func(func_index, false, &empty_args) {
            Ok(code) => code,
            Err(e) => {
                return Err(e);
            },
        };
        writer.write_func(&code, false);
        let out = writer.get_output();
        proof {
            assert(crate::fmt::rendered_function(
                out@,
                self.module.functions@[func_index as int],
                code@,
            ));
            assert(crate::fmt::rendered_output(
                out@,
                self.module.functions@[func_index as int],
            ));
        }
        Ok(out)
    }
}

} // verus!
