//! The shared host-environment description: which modules the host exports
//! and which functions each module carries. The description file itself is
//! read and decoded outside the library; this module searches the decoded
//! entries.

use vstd::prelude::*;

use crate::specs_generate::str_eq;

verus! {

/// One function a host module exports.
#[derive(Debug, PartialEq, Eq)]
pub struct CommonFunction {
    pub export: String,
    pub name: String,
}

/// One host module: its export name, its readable name, and its functions.
#[derive(Debug, PartialEq, Eq)]
pub struct CommonModule {
    pub export: String,
    pub name: String,
    pub functions: Vec<CommonFunction>,
}

/// A found host function together with the module that carries it.
#[derive(Debug, PartialEq, Eq)]
pub struct ModuleFunction {
    pub module_name: String,
    pub function_name: String,
    pub function: CommonFunction,
}

/// Why a lookup in the host-environment description failed.
#[derive(Debug, Clone, Copy, PartialEq, Eq, Structural)]
pub enum CommonEnvError {
    FunctionNotFound,
}

/// `mf` is the result of finding the first module exported as `mn` that
/// carries a function exported as `fnm`, at module position `m` and function
/// position `f`: the pair matches, nothing earlier does, and `mf` copies the
/// found names and function.
pub open spec fn found_at(
    modules: Seq<CommonModule>,
    mn: Seq<char>,
    fnm: Seq<char>,
    mf: ModuleFunction,
    m: int,
    f: int,
) -> bool {
    &&& 0 <= m < modules.len()
    &&& 0 <= f < modules[m].functions@.len()
    &&& modules[m].export@ == mn
    &&& modules[m].functions@[f].export@ == fnm
    &&& mf.module_name@ == modules[m].name@
    &&& mf.function_name@ == modules[m].functions@[f].name@
    &&& mf.function == modules[m].functions@[f]
    &&& forall|m2: int, f2: int|
        0 <= m2 < m && 0 <= f2 < (#[trigger] modules[m2]).functions@.len() ==> !(
        modules[m2].export@ == mn && (#[trigger] modules[m2].functions@[f2]).export@ == fnm)
    &&& forall|f2: int| 0 <= f2 < f ==> (#[trigger] modules[m].functions@[f2]).export@ != fnm
}

/// `mf` reports the first matching module/function pair for the two export
/// names.
pub open spec fn found_first(
    modules: Seq<CommonModule>,
    mn: Seq<char>,
    fnm: Seq<char>,
    mf: ModuleFunction,
) -> bool {
    exists|m: int, f: int| #[trigger] found_at(modules, mn, fnm, mf, m, f)
}

/// There is a module exported as `mn` carrying a function exported as `fnm`.
pub open spec fn has_common_function(
    modules: Seq<CommonModule>,
    mn: Seq<char>,
    fnm: Seq<char>,
) -> bool {
    exists|m: int, f: int|
        0 <= m < modules.len() && 0 <= f < (#[trigger] modules[m]).functions@.len()
            && modules[m].export@ == mn && (#[trigger] modules[m].functions@[f]).export@ == fnm
}

impl Clone for CommonFunction {
    fn clone(&self) -> (r: Self)
        ensures
            r == *self,
    {
        CommonFunction { export: self.export.clone(), name: self.name.clone() }
    }
}

/// Looks a function up by its module's export name and its own export name.
/// Returns the first match, walking modules and their functions in order,
/// and fails exactly when no module/function pair matches.
pub fn take_common_module(modules: &Vec<CommonModule>, module_name: &str, field_name: &str) -> (r:
    Result<ModuleFunction, CommonEnvError>)
    ensures
        r is Ok <==> has_common_function(modules@, module_name@, field_name@),
        r is Ok ==> found_first(modules@, module_name@, field_name@, r->Ok_0),
{
    let mut m: usize = 0;
    while m < modules.len()
        invariant
            m <= modules@.len(),
            forall|mm: int, f: int|
                0 <= mm < m && 0 <= f < (#[trigger] modules@[mm]).functions@.len() ==> !(
                modules@[mm].export@ == module_name@ && (
                #[trigger] modules@[mm].functions@[f]).export@ == field_name@),
        decreases modules@.len() - m,
    {
        if str_eq(modules[m].export.as_str(), module_name) {
            let mut f: usize = 0;
            let nf = modules[m].functions.len();
            while f < nf
                invariant
                    m < modules@.len(),
                    nf == modules@[m as int].functions@.len(),
                    f <= nf,
                    modules@[m as int].export@ == module_name@,
                    forall|mm: int, ff: int|
                        0 <= mm < m && 0 <= ff < (#[trigger] modules@[mm]).functions@.len() ==> !(
                        modules@[mm].export@ == module_name@ && (
                        #[trigger] modules@[mm].functions@[ff]).export@ == field_name@),
                    forall|ff: int|
                        0 <= ff < f ==> (#[trigger] modules@[m as int].functions@[ff]).export@
                            != field_name@,
                decreases nf - f,
            {
                if str_eq(modules[m].functions[f].export.as_str(), field_name) {
                    let found = &modules[m].functions[f];
                    let out = ModuleFunction {
                        module_name: modules[m].name.clone(),
                        function_name: found.name.clone(),
                        function: found.clone(),
                    };
                    proof {
                        let mi = m as int;
                        assert forall|m2: int, f2: int|
                            0 <= m2 < mi && 0 <= f2 < (#[trigger] modules@[m2]).functions@.len()
                            implies !(modules@[m2].export@ == module_name@ && (
                        #[trigger] modules@[m2].functions@[f2]).export@ == field_name@) by {
                            assert(!(modules@[m2].export@ == module_name@
                                && modules@[m2].functions@[f2].export@ == field_name@));
                        }
                        assert(found_at(
                            modules@,
                            module_name@,
                            field_name@,
                            out,
                            m as int,
                            f as int,
                        ));
                        assert(found_first(modules@, module_name@, field_name@, out));
                    }
                    return Ok(out);
                }
                f = f + 1;
            }
        }
        m = m + 1;
    }
    proof {
        assert(!has_common_function(modules@, module_name@, field_name@));
    }
    Err(CommonEnvError::FunctionNotFound)
}

} // verus!
