//! Rendering of decompiled functions. `CodeWriter` accumulates the textual
//! output of one function; `decompile_func` runs the whole pipeline — graph
//! construction, SSA construction, cleanup to the optimizer's fixed point,
//! SSA destruction, structuring — and hands the structured statements to the
//! writer. The text spec functions here (`expr_text`, `stmt_text`,
//! `func_text`, ...) state the renderer's output exactly, character for
//! character.

use vstd::prelude::*;

use crate::analysis;
use crate::cfg::Cfg;
use crate::cfg::CfgBuildError;
use crate::specs_generate::ExtendedFunctionParam;
use crate::specs_generate::FunctionInfo;
use crate::ssa;
use crate::ssa::stmts_view;
use crate::ssa::BinOp;
use crate::ssa::Expr;
use crate::ssa::ExprV;
use crate::ssa::LoopKind;
use crate::ssa::PhiArg;
use crate::ssa::Stmt;
use crate::ssa::StmtV;
use crate::ssa::UnOp;
use crate::ssa::Var;
use crate::structuring;
use crate::wasm::Function;
use crate::wasm::Instance;
use crate::wasm::Module;
use crate::wasm::ValueType;

verus! {

/// The decimal digits of `n`, most significant first.
pub open spec fn dec_digits(n: nat) -> Seq<char>
    decreases n,
{
    if n < 10 {
        seq![digit_char(n)]
    } else {
        dec_digits(n / 10).push(digit_char(n % 10))
    }
}

pub open spec fn digit_char(d: nat) -> char {
    if d == 0 {
        '0'
    } else if d == 1 {
        '1'
    } else if d == 2 {
        '2'
    } else if d == 3 {
        '3'
    } else if d == 4 {
        '4'
    } else if d == 5 {
        '5'
    } else if d == 6 {
        '6'
    } else if d == 7 {
        '7'
    } else if d == 8 {
        '8'
    } else {
        '9'
    }
}

/// Renders a number in decimal.
pub fn dec_string(n: u64) -> (r: String)
    ensures
        r@ == dec_digits(n as nat),
    decreases n,
{
    let d = n % 10;
    let c: &str = if d == 0 {
        "0"
    } else if d == 1 {
        "1"
    } else if d == 2 {
        "2"
    } else if d == 3 {
        "3"
    } else if d == 4 {
        "4"
    } else if d == 5 {
        "5"
    } else if d == 6 {
        "6"
    } else if d == 7 {
        "7"
    } else if d == 8 {
        "8"
    } else {
        "9"
    };
    proof {
        reveal_strlit("0");
        reveal_strlit("1");
        reveal_strlit("2");
        reveal_strlit("3");
        reveal_strlit("4");
        reveal_strlit("5");
        reveal_strlit("6");
        reveal_strlit("7");
        reveal_strlit("8");
        reveal_strlit("9");
        assert(c@ =~= seq![digit_char((n % 10) as nat)]);
    }
    if n < 10 {
        let r = String::from_str(c);
        proof {
            assert(r@ =~= dec_digits(n as nat));
        }
        r
    } else {
        let r = dec_string(n / 10).concat(c);
        proof {
            assert(r@ =~= dec_digits(n as nat));
        }
        r
    }
}

/// Four spaces per indentation level.
pub open spec fn pad_text(indent: int) -> Seq<char> {
    Seq::new((4 * indent) as nat, |x: int| ' ')
}

/// The text `newline` appends: a line break and four spaces per
/// indentation level.
pub open spec fn newline_text(indent: int) -> Seq<char> {
    seq!['\n'] + pad_text(indent)
}

/// The indentation level one deeper, saturating at the machine limit.
pub open spec fn indent_deeper(indent: int) -> int {
    if indent < usize::MAX {
        indent + 1
    } else {
        indent
    }
}

/// The rendered form of a variable: its index in decimal and, when it has an
/// SSA version, an underscore and the version.
pub open spec fn var_text(v: Var) -> Seq<char> {
    if v.subscript == 0 {
        dec_digits(v.index as nat)
    } else {
        dec_digits(v.index as nat) + seq!['_'] + dec_digits(v.subscript as nat)
    }
}

/// The rendered form of a constant: its decimal magnitude, signed.
pub open spec fn const_text(c: i64) -> Seq<char> {
    if c >= 0 {
        dec_digits(c as nat)
    } else if c == i64::MIN {
        seq!['-'] + dec_digits(0x8000_0000_0000_0000 as nat)
    } else {
        seq!['-'] + dec_digits((-(c as int)) as nat)
    }
}

/// The rendered form of a unary operator.
pub open spec fn unop_text(op: UnOp) -> Seq<char> {
    match op {
        UnOp::Neg => seq!['-'],
        UnOp::Not => seq!['!'],
        UnOp::Eqz => seq!['!'],
    }
}

/// The rendered form of a binary operator, spaces included.
pub open spec fn binop_text(op: BinOp) -> Seq<char> {
    match op {
        BinOp::Add => seq![' ', '+', ' '],
        BinOp::Sub => seq![' ', '-', ' '],
        BinOp::Mul => seq![' ', '*', ' '],
        BinOp::DivS => seq![' ', '/', ' '],
        BinOp::DivU => seq![' ', '/', 'u', ' '],
        BinOp::RemS => seq![' ', '%', ' '],
        BinOp::RemU => seq![' ', '%', 'u', ' '],
        BinOp::And => seq![' ', '&', ' '],
        BinOp::Or => seq![' ', '|', ' '],
        BinOp::Xor => seq![' ', '^', ' '],
        BinOp::Shl => seq![' ', '<', '<', ' '],
        BinOp::ShrS => seq![' ', '>', '>', ' '],
        BinOp::ShrU => seq![' ', '>', '>', 'u', ' '],
        BinOp::Eq => seq![' ', '=', '=', ' '],
        BinOp::Ne => seq![' ', '!', '=', ' '],
        BinOp::LtS => seq![' ', '<', ' '],
        BinOp::LtU => seq![' ', '<', 'u', ' '],
        BinOp::GtS => seq![' ', '>', ' '],
        BinOp::GtU => seq![' ', '>', 'u', ' '],
        BinOp::LeS => seq![' ', '<', '=', ' '],
        BinOp::LeU => seq![' ', '<', '=', 'u', ' '],
        BinOp::GeS => seq![' ', '>', '=', ' '],
        BinOp::GeU => seq![' ', '>', '=', 'u', ' '],
    }
}

/// Call arguments, comma-separated.
pub open spec fn args_text(args: Seq<Var>) -> Seq<char>
    decreases args.len(),
{
    if args.len() == 0 {
        Seq::empty()
    } else if args.len() == 1 {
        var_text(args[0])
    } else {
        args_text(args.drop_last()) + seq![',', ' '] + var_text(args.last())
    }
}

/// Phi arguments, comma-separated.
pub open spec fn phi_args_text(args: Seq<PhiArg>) -> Seq<char>
    decreases args.len(),
{
    if args.len() == 0 {
        Seq::empty()
    } else if args.len() == 1 {
        var_text(args[0].var)
    } else {
        phi_args_text(args.drop_last()) + seq![',', ' '] + var_text(args.last().var)
    }
}

/// The rendered form of an expression.
pub open spec fn expr_text(e: ExprV) -> Seq<char>
    decreases e,
{
    match e {
        ExprV::Const(c) => const_text(c),
        ExprV::Read(v) => var_text(v),
        ExprV::Unary(op, a) => unop_text(op) + expr_text(*a),
        ExprV::Binary(op, a, b) => seq!['('] + expr_text(*a) + binop_text(op) + expr_text(*b)
            + seq![')'],
        ExprV::Load(a) => seq!['l', 'o', 'a', 'd', '('] + expr_text(*a) + seq![')'],
        ExprV::Call(f, args) => seq!['f', 'u', 'n', 'c', '_'] + dec_digits(f as nat) + seq!['(']
            + args_text(args) + seq![')'],
        ExprV::Phi(args) => seq!['p', 'h', 'i', '('] + phi_args_text(args) + seq![')'],
    }
}

/// The body of a rendered statement: what stands between the indentation
/// padding and the terminating line break.
pub open spec fn stmt_body_text(s: StmtV, indent: int) -> Seq<char>
    decreases s, 0int,
{
    match s {
        StmtV::Assign(v, e) => var_text(v) + seq![' ', '=', ' '] + expr_text(e) + seq![';'],
        StmtV::Store(a, v) => seq!['s', 't', 'o', 'r', 'e', '('] + expr_text(a) + seq![',', ' ']
            + expr_text(v) + seq![')', ';'],
        StmtV::Discard(e) => expr_text(e) + seq![';'],
        StmtV::Return(oe) => match oe {
            Some(e) => seq!['r', 'e', 't', 'u', 'r', 'n', ' '] + expr_text(e) + seq![';'],
            None => seq!['r', 'e', 't', 'u', 'r', 'n', ';'],
        },
        StmtV::Trap => seq!['u', 'n', 'r', 'e', 'a', 'c', 'h', 'a', 'b', 'l', 'e', '!', '(', ')', ';'],
        StmtV::If(c, t, e) => seq!['i', 'f', ' '] + expr_text(c) + seq![' ', '{', '\n']
            + stmts_text(t, indent_deeper(indent)) + (if e.len() > 0 {
            pad_text(indent) + seq!['}', ' ', 'e', 'l', 's', 'e', ' ', '{', '\n'] + stmts_text(
                e,
                indent_deeper(indent),
            )
        } else {
            Seq::empty()
        }) + pad_text(indent) + seq!['}'],
        StmtV::Loop(k, oc, body) => (match k {
            LoopKind::PreTest => seq!['w', 'h', 'i', 'l', 'e', ' '] + (match oc {
                Some(c) => expr_text(c),
                None => Seq::empty(),
            }) + seq![' ', '{'],
            LoopKind::PostTest => seq!['d', 'o', ' ', '{'],
            LoopKind::Infinite => seq!['l', 'o', 'o', 'p', ' ', '{'],
        }) + seq!['\n'] + stmts_text(body, indent_deeper(indent)) + pad_text(indent) + (match k {
            LoopKind::PostTest => seq!['}', ' ', 'w', 'h', 'i', 'l', 'e', ' '] + (match oc {
                Some(c) => expr_text(c),
                None => Seq::empty(),
            }) + seq![';'],
            _ => seq!['}'],
        }),
        StmtV::Block(body) => seq!['{', '\n'] + stmts_text(body, indent_deeper(indent)) + pad_text(
            indent,
        ) + seq!['}'],
        StmtV::Break(d) => seq!['b', 'r', 'e', 'a', 'k', ' '] + dec_digits(d as nat) + seq![';'],
        StmtV::Continue(d) => seq!['c', 'o', 'n', 't', 'i', 'n', 'u', 'e', ' '] + dec_digits(
            d as nat,
        ) + seq![';'],
        StmtV::Goto(l) => seq!['g', 'o', 't', 'o', ' ', 'b', 'l', 'o', 'c', 'k', '_'] + dec_digits(
            l as nat,
        ) + seq![';'],
        StmtV::Label(l) => seq!['b', 'l', 'o', 'c', 'k', '_'] + dec_digits(l as nat) + seq![':'],
    }
}

/// The rendered form of one statement: indentation padding, the statement's
/// body, and a line break.
pub open spec fn stmt_text(s: StmtV, indent: int) -> Seq<char>
    decreases s, 1int,
{
    pad_text(indent) + stmt_body_text(s, indent) + seq!['\n']
}

/// The rendered form of a statement sequence: the concatenation of the
/// renderings of its statements, in order; empty for an empty sequence.
pub open spec fn stmts_text(code: Seq<StmtV>, indent: int) -> Seq<char>
    decreases code, 2int,
{
    if code.len() == 0 {
        Seq::empty()
    } else {
        stmt_text(code[0], indent) + stmts_text(code.drop_first(), indent)
    }
}

/// Appending one statement to a sequence appends its rendering to the text.
pub proof fn lemma_stmts_text_push(code: Seq<StmtV>, x: StmtV, indent: int)
    ensures
        stmts_text(code.push(x), indent) =~= stmts_text(code, indent) + stmt_text(x, indent),
    decreases code.len(),
{
    let cp = code.push(x);
    if code.len() == 0 {
        assert(cp[0] == x);
        assert(cp.drop_first() =~= Seq::<StmtV>::empty());
        assert(stmts_text(cp.drop_first(), indent) =~= Seq::<char>::empty());
        assert(stmts_text(cp, indent) =~= stmt_text(cp[0], indent) + stmts_text(
            cp.drop_first(),
            indent,
        ));
        assert(stmts_text(cp, indent) =~= stmt_text(x, indent));
        assert(stmts_text(code, indent) =~= Seq::<char>::empty());
    } else {
        assert(cp[0] == code[0]);
        assert(cp.drop_first() =~= code.drop_first().push(x));
        lemma_stmts_text_push(code.drop_first(), x, indent);
    }
}

/// The rendered form of a raw value type.
pub open spec fn vt_text(v: ValueType) -> Seq<char> {
    match v {
        ValueType::I32 => seq!['i', '3', '2'],
        ValueType::I64 => seq!['i', '6', '4'],
    }
}

/// The letter standing for the position of a raw parameter.
pub open spec fn arg_letter(i: nat) -> char {
    if i == 0 {
        'a'
    } else if i == 1 {
        'b'
    } else if i == 2 {
        'c'
    } else if i == 3 {
        'd'
    } else if i == 4 {
        'e'
    } else if i == 5 {
        'f'
    } else if i == 6 {
        'g'
    } else if i == 7 {
        'h'
    } else if i == 8 {
        'i'
    } else if i == 9 {
        'j'
    } else if i == 10 {
        'k'
    } else if i == 11 {
        'l'
    } else if i == 12 {
        'm'
    } else if i == 13 {
        'n'
    } else if i == 14 {
        'o'
    } else if i == 15 {
        'p'
    } else if i == 16 {
        'q'
    } else if i == 17 {
        'r'
    } else if i == 18 {
        's'
    } else if i == 19 {
        't'
    } else if i == 20 {
        'u'
    } else if i == 21 {
        'v'
    } else if i == 22 {
        'w'
    } else if i == 23 {
        'x'
    } else if i == 24 {
        'y'
    } else {
        'z'
    }
}

/// The fallback name of a raw parameter: a letter for the first twenty-six
/// positions, the position's digits past them (where letter arithmetic
/// would leave the alphabet).
pub open spec fn arg_name_text(i: nat) -> Seq<char> {
    if i < 26 {
        seq![arg_letter(i)]
    } else {
        dec_digits(i)
    }
}

/// The rendered parameter list of a spec-section signature, after the
/// environment parameter: a comma and a space, then the parameter's name and
/// its type name, for each parameter in order.
pub open spec fn spec_params_text(ps: Seq<ExtendedFunctionParam>) -> Seq<char>
    decreases ps.len(),
{
    if ps.len() == 0 {
        Seq::empty()
    } else {
        spec_params_text(ps.drop_last()) + seq![',', ' '] + ps.last().name@ + seq![':', ' ']
            + ps.last().type_ident.name@
    }
}

/// The rendered parameter list synthesized from a raw signature: positional
/// fallback names with the raw value types, a space after each type.
pub open spec fn raw_params_text(ps: Seq<ValueType>) -> Seq<char>
    decreases ps.len(),
{
    if ps.len() == 0 {
        Seq::empty()
    } else {
        raw_params_text(ps.drop_last()) + seq![',', ' ', 'a', 'r', 'g', '_'] + arg_name_text(
            (ps.len() - 1) as nat,
        ) + seq![':', ' '] + vt_text(ps.last()) + seq![' ']
    }
}

/// The rendered return type of a function with a spec-section signature: the
/// signature's output when it names one, the raw return type otherwise.
pub open spec fn spec_ret_text(f: Function) -> Seq<char> {
    if f.spec_fn->0.output is Some {
        seq![' ', '-', '>', ' '] + f.spec_fn->0.output->0.type_ident.name@
    } else if f.return_type is Some {
        seq![' ', '-', '>', ' '] + vt_text(f.return_type->0)
    } else {
        Seq::empty()
    }
}

/// The rendered return type synthesized from a raw signature.
pub open spec fn raw_ret_text(f: Function) -> Seq<char> {
    if f.return_type is Some {
        seq![' ', '-', '>', ' '] + vt_text(f.return_type->0)
    } else {
        Seq::empty()
    }
}

/// The header line of a function with a spec-section signature.
pub open spec fn spec_header_text(f: Function) -> Seq<char> {
    seq!['p', 'u', 'b', ' ', 'f', 'n', ' '] + f.name@ + seq!['(', 'e', 'n', 'v', ':', ' ', 'E', 'n', 'v']
        + spec_params_text(f.spec_fn->0.inputs@) + seq![')'] + spec_ret_text(f) + seq![' ', '{']
}

/// The header line synthesized from a raw signature.
pub open spec fn raw_header_text(f: Function) -> Seq<char> {
    seq!['p', 'u', 'b', ' ', 'f', 'n', ' '] + f.name@ + seq!['(', 'e', 'n', 'v', ':', ' ', 'E', 'n', 'v']
        + raw_params_text(f.params@) + seq![')'] + raw_ret_text(f) + seq![' ', '{']
}

/// A placeholder spec-section signature suppresses rendering outside calls.
pub open spec fn skips_render(f: Function, is_call: bool) -> bool {
    &&& f.spec_fn is Some
    &&& f.spec_fn->0.name@.len() == 0
    &&& f.spec_fn->0.inputs@.len() == 0
    &&& f.spec_fn->0.output is None
    &&& !is_call
}

/// Everything `write_func` appends to the output: nothing for a suppressed
/// placeholder; the body alone, one level deeper, when the rendering is part
/// of a call; otherwise the header, the body one level deeper, and the
/// closing brace on its own line (the line break swallowed by a pending
/// suppression).
pub open spec fn func_text(
    f: Function,
    code: Seq<StmtV>,
    indent: int,
    suppress: bool,
    is_call: bool,
) -> Seq<char> {
    if skips_render(f, is_call) {
        Seq::empty()
    } else if f.spec_fn is Some {
        if is_call {
            stmts_text(code, indent_deeper(indent))
        } else {
            spec_header_text(f) + stmts_text(code, indent_deeper(indent)) + (if suppress {
                Seq::empty()
            } else {
                newline_text(indent)
            }) + seq!['}']
        }
    } else {
        raw_header_text(f) + stmts_text(code, indent_deeper(indent)) + seq!['}'] + (if suppress {
            Seq::empty()
        } else {
            newline_text(indent)
        })
    }
}

/// `text` is the rendering, from a fresh writer, of a statement sequence
/// `code` that is a faithful structuring of a well-formed, phi-free graph:
/// `code` carries exactly that graph's observable statements, every block of
/// it exactly once.
pub open spec fn rendered_function(text: Seq<char>, f: Function, code: Seq<Stmt>) -> bool {
    &&& (exists|c: Cfg| crate::structuring::structured_from(code, c))
    &&& text == func_text(f, stmts_view(code), 0, false, false)
}

/// `text` is the rendering of some faithful structuring of `f`'s body: see
/// `rendered_function`.
pub open spec fn rendered_output(text: Seq<char>, f: Function) -> bool {
    exists|code: Seq<Stmt>| #[trigger] rendered_function(text, f, code)
}

/// The positional fallback name of a raw parameter.
fn arg_name(i: usize) -> (r: String)
    ensures
        r@ == arg_name_text(i as nat),
{
    if i < 26 {
        let c = match i {
            0 => "a",
            1 => "b",
            2 => "c",
            3 => "d",
            4 => "e",
            5 => "f",
            6 => "g",
            7 => "h",
            8 => "i",
            9 => "j",
            10 => "k",
            11 => "l",
            12 => "m",
            13 => "n",
            14 => "o",
            15 => "p",
            16 => "q",
            17 => "r",
            18 => "s",
            19 => "t",
            20 => "u",
            21 => "v",
            22 => "w",
            23 => "x",
            24 => "y",
            _ => "z",
        };
        proof {
            reveal_strlit("a");
            reveal_strlit("b");
            reveal_strlit("c");
            reveal_strlit("d");
            reveal_strlit("e");
            reveal_strlit("f");
            reveal_strlit("g");
            reveal_strlit("h");
            reveal_strlit("i");
            reveal_strlit("j");
            reveal_strlit("k");
            reveal_strlit("l");
            reveal_strlit("m");
            reveal_strlit("n");
            reveal_strlit("o");
            reveal_strlit("p");
            reveal_strlit("q");
            reveal_strlit("r");
            reveal_strlit("s");
            reveal_strlit("t");
            reveal_strlit("u");
            reveal_strlit("v");
            reveal_strlit("w");
            reveal_strlit("x");
            reveal_strlit("y");
            reveal_strlit("z");
            assert(c@ =~= seq![arg_letter(i as nat)]);
        }
        String::from_str(c)
    } else {
        dec_string(i as u64)
    }
}

/// Accumulates the rendered text of one function.
pub struct CodeWriter<'a> {
    pub indent: usize,
    pub wasm: &'a Instance,
    pub func_index: u32,
    pub output: String,
    pub suppress_newline: bool,
}

/// Anything that knows how to render itself into a `CodeWriter`: it appends
/// exactly its rendering at the writer's indentation to the output, leaving
/// the writer's target, position and suppression state alone.
pub trait CodeDisplay {
    /// The text this value renders to at the given indentation level.
    spec fn text(&self, indent: int) -> Seq<char>;

    fn fmt_code(&self, f: &mut CodeWriter)
        ensures
            final(f).wasm == old(f).wasm,
            final(f).func_index == old(f).func_index,
            final(f).indent == old(f).indent,
            final(f).suppress_newline == old(f).suppress_newline,
            final(f).output@ == old(f).output@ + self.text(old(f).indent as int),
    ;
}

impl<'a> CodeWriter<'a> {
    /// A writer that renders function `func_index` into a string.
    pub fn formatter(wasm: &'a Instance, func_index: u32) -> (r: CodeWriter<'a>)
        ensures
            r.indent == 0,
            r.wasm == wasm,
            r.func_index == func_index,
            r.output@.len() == 0,
            !r.suppress_newline,
    {
        CodeWriter { indent: 0, wasm, func_index, output: String::new(), suppress_newline: false }
    }

    pub fn wasm(&self) -> (r: &Instance)
        ensures
            r == self.wasm,
    {
        self.wasm
    }

    pub fn module(&self) -> (r: &Module)
        ensures
            r == self.wasm.module,
    {
        self.wasm.module()
    }

    pub fn specs_fns(&self) -> (r: &Vec<FunctionInfo>)
        ensures
            r == self.wasm.module.spec_fns,
    {
        self.wasm.spec_fns()
    }

    pub fn func(&self) -> (r: &Function)
        requires
            self.func_index < self.wasm.module.functions@.len(),
        ensures
            r == self.wasm.module.functions@[self.func_index as int],
    {
        self.wasm.module().func(self.func_index)
    }

    pub fn indent(&mut self)
        ensures
            final(self).indent == (if old(self).indent < usize::MAX {
                old(self).indent + 1
            } else {
                old(self).indent as int
            }),
            final(self).output == old(self).output,
            final(self).wasm == old(self).wasm,
            final(self).func_index == old(self).func_index,
            final(self).suppress_newline == old(self).suppress_newline,
    {
        if self.indent < usize::MAX {
            self.indent = self.indent + 1;
        }
    }

    pub fn dedent(&mut self)
        ensures
            final(self).indent == (if old(self).indent > 0 {
                old(self).indent - 1
            } else {
                0int
            }),
            final(self).output == old(self).output,
            final(self).wasm == old(self).wasm,
            final(self).func_index == old(self).func_index,
            final(self).suppress_newline == old(self).suppress_newline,
    {
        if self.indent > 0 {
            self.indent = self.indent - 1;
        }
    }

    /// Appends a rendering to the output: one `fmt_code` call against this
    /// writer, which appends exactly the value's rendering.
    pub fn write<T: CodeDisplay>(&mut self, fmt: T)
        ensures
            final(self).wasm == old(self).wasm,
            final(self).func_index == old(self).func_index,
            final(self).indent == old(self).indent,
            final(self).suppress_newline == old(self).suppress_newline,
            final(self).output@ == old(self).output@ + fmt.text(old(self).indent as int),
    {
        fmt.fmt_code(self);
    }

    /// Appends a plain string to the output.
    pub fn push_str(&mut self, s: &str)
        ensures
            final(self).output@ == old(self).output@ + s@,
            final(self).indent == old(self).indent,
            final(self).wasm == old(self).wasm,
            final(self).func_index == old(self).func_index,
            final(self).suppress_newline == old(self).suppress_newline,
    {
        self.output.append(s);
    }

    /// Renders a value into a fresh string, through a fresh writer for the
    /// same function: the result is exactly the value's rendering at
    /// indentation level zero; this writer's own state is untouched.
    pub fn string_func<T: CodeDisplay>(&mut self, fmt: T) -> (r: String)
        ensures
            *final(self) == *old(self),
            r@ == fmt.text(0),
    {
        let mut sub = CodeWriter::formatter(self.wasm, self.func_index);
        fmt.fmt_code(&mut sub);
        sub.get_output()
    }

    /// Runs the decompilation pipeline on one function of the writer's
    /// module: graph construction, SSA construction, expression propagation
    /// and dead-code elimination to their joint fixed point, SSA
    /// destruction, and structuring. Fails exactly when the index names no
    /// function or an imported one; the returned statements are a faithful
    /// structuring of a well-formed, phi-free graph — they carry exactly
    /// that graph's observable statements, every block of it exactly once.
    pub fn decompile_func(&mut self, func_index: u32, is_call: bool, args: &Vec<Expr>) -> (r:
        Result<Vec<Stmt>, CfgBuildError>)
        ensures
            r is Err <==> (func_index >= old(self).wasm.module.functions@.len()
                || old(self).wasm.module.functions@[func_index as int].body is None),
            r is Err ==> r->Err_0 == (if func_index >= old(self).wasm.module.functions@.len() {
                CfgBuildError::NoSuchFunc { index: func_index }
            } else {
                CfgBuildError::FuncIsImported { index: func_index }
            }),
            r matches Ok(code) ==> crate::structuring::structured_output(code),
            *final(self) == *old(self),
    {
        let built = Cfg::build(self.wasm.module(), func_index);
        let mut cfg = match built {
            Ok(c) => c,
            Err(e) => {
                return Err(e);
            },
        };
        let mut def_use_map = ssa::transform_to_ssa(&mut cfg);
        let _ = analysis::propagate_expressions(&mut cfg, &mut def_use_map);
        let _ = analysis::eliminate_dead_code(&mut cfg, &mut def_use_map);
        analysis::optimize(&mut cfg, &mut def_use_map);
        ssa::transform_out_of_ssa(&mut cfg);
        let ghost destructed = cfg;
        let structured = structuring::structure(cfg);
        let code = structured.1;
        proof {
            assert(crate::structuring::structured_from(code@, destructed));
            assert(crate::structuring::structured_output(code));
        }
        let _ = is_call;
        let _ = args;
        Ok(code)
    }

    /// Renders the function's header (from its spec-section signature when
    /// one exists, from its raw types otherwise) and its structured body:
    /// the output grows by exactly `func_text`. A placeholder spec signature
    /// renders nothing unless the rendering is part of a call; the
    /// indentation level always comes back to where it was.
    #[verifier::rlimit(90)]
    pub fn write_func(&mut self, code: &Vec<Stmt>, is_call: bool)
        requires
            old(self).func_index < old(self).wasm.module.functions@.len(),
        ensures
            final(self).output@.len() >= old(self).output@.len(),
            final(self).wasm == old(self).wasm,
            final(self).func_index == old(self).func_index,
            skips_render(
                old(self).wasm.module.functions@[old(self).func_index as int],
                is_call,
            ) ==> *final(self) == *old(self),
            old(self).indent < usize::MAX ==> ({
                let f = old(self).wasm.module.functions@[old(self).func_index as int];
                &&& final(self).indent == old(self).indent
                &&& final(self).output@ == old(self).output@ + func_text(
                    f,
                    stmts_view(code@),
                    old(self).indent as int,
                    old(self).suppress_newline,
                    is_call,
                )
                &&& final(self).suppress_newline == (if skips_render(f, is_call) || (f.spec_fn
                    is Some && is_call) {
                    old(self).suppress_newline
                } else {
                    false
                })
            }),
    {
        let ghost f = self.wasm.module.functions@[self.func_index as int];
        let ghost pre = self.output@;
        let ghost ind = self.indent as int;
        let ghost sup = self.suppress_newline;
        let ghost head = seq!['p', 'u', 'b', ' ', 'f', 'n', ' '] + f.name@ + seq![
            '(',
            'e',
            'n',
            'v',
            ':',
            ' ',
            'E',
            'n',
            'v',
        ];
        let has_spec = match self.func().spec_fn() {
            Some(_) => true,
            None => false,
        };
        if has_spec {
            let is_default = match self.func().spec_fn() {
                Some(spec) => spec.is_default(),
                None => false,
            };
            if is_default && !is_call {
                // a placeholder signature: nothing worth rendering
                return ;
            }
            let mut header = String::from_str("pub fn ");
            header = header.concat(self.func().name());
            header = header.concat("(env: Env");
            proof {
                reveal_strlit("pub fn ");
                reveal_strlit("(env: Env");
                assert(f.spec_fn->0.inputs@.take(0) =~= Seq::<ExtendedFunctionParam>::empty());
                assert(header@ =~= head + spec_params_text(f.spec_fn->0.inputs@.take(0)));
            }
            let mut np: usize = 0;
            let n_inputs = match self.func().spec_fn() {
                Some(spec) => spec.inputs().len(),
                None => 0,
            };
            while np < n_inputs
                invariant
                    *self == *old(self),
                    self.func_index < self.wasm.module.functions@.len(),
                    f == self.wasm.module.functions@[self.func_index as int],
                    f.spec_fn is Some,
                    n_inputs == f.spec_fn->0.inputs@.len(),
                    np <= n_inputs,
                    head == seq!['p', 'u', 'b', ' ', 'f', 'n', ' '] + f.name@ + seq![
                        '(',
                        'e',
                        'n',
                        'v',
                        ':',
                        ' ',
                        'E',
                        'n',
                        'v',
                    ],
                    header@ =~= head + spec_params_text(f.spec_fn->0.inputs@.take(np as int)),
                decreases n_inputs - np,
            {
                header = header.concat(", ");
                match self.func().spec_fn() {
                    Some(spec) => {
                        let param = &spec.inputs()[np];
                        header = header.concat(param.name());
                        header = header.concat(": ");
                        header = header.concat(param.type_ident().type_str());
                    },
                    None => {},
                }
                proof {
                    reveal_strlit(", ");
                    reveal_strlit(": ");
                    let ins = f.spec_fn->0.inputs@;
                    assert(ins.take(np as int + 1).drop_last() =~= ins.take(np as int));
                    assert(ins.take(np as int + 1).last() == ins[np as int]);
                    assert(header@ =~= head + spec_params_text(ins.take(np as int + 1)));
                }
                np = np + 1;
            }
            header = header.concat(")");
            let has_output = match self.func().spec_fn() {
                Some(spec) => match spec.output() {
                    Some(_) => true,
                    None => false,
                },
                None => false,
            };
            if has_output {
                header = header.concat(" -> ");
                match self.func().spec_fn() {
                    Some(spec) => {
                        match spec.output() {
                            Some(o) => {
                                header = header.concat(o.type_ident().type_str());
                            },
                            None => {},
                        }
                    },
                    None => {},
                }
            } else {
                match self.func().return_type() {
                    Some(t) => {
                        header = header.concat(" -> ");
                        header = header.concat(t.type_str());
                    },
                    None => {},
                }
            }
            header = header.concat(" {");
            proof {
                reveal_strlit(")");
                reveal_strlit(" -> ");
                reveal_strlit(" {");
                reveal_strlit("i32");
                reveal_strlit("i64");
                assert(f.spec_fn->0.inputs@.take(n_inputs as int) =~= f.spec_fn->0.inputs@);
                assert(header@ =~= spec_header_text(f));
            }
            self.indent();
            if !is_call {
                self.push_str(header.as_str());
            }
            let body = render_stmts(code, self.indent);
            self.push_str(body.as_str());
            self.dedent();
            if !is_call {
                self.newline();
                self.push_str("}");
                proof {
                    reveal_strlit("}");
                    if old(self).indent < usize::MAX {
                        assert(self.output@ =~= pre + func_text(
                            f,
                            stmts_view(code@),
                            ind,
                            sup,
                            is_call,
                        ));
                    }
                }
            } else {
                proof {
                    if old(self).indent < usize::MAX {
                        assert(self.output@ =~= pre + func_text(
                            f,
                            stmts_view(code@),
                            ind,
                            sup,
                            is_call,
                        ));
                    }
                }
            }
            return ;
        }
        // no spec entry: synthesize the header from the raw signature
        let mut header = String::from_str("pub fn ");
        header = header.concat(self.func().name());
        header = header.concat("(env: Env");
        proof {
            reveal_strlit("pub fn ");
            reveal_strlit("(env: Env");
            assert(f.params@.take(0) =~= Seq::<ValueType>::empty());
            assert(header@ =~= head + raw_params_text(f.params@.take(0)));
        }
        let n_params = self.func().params().len();
        let mut p: usize = 0;
        while p < n_params
            invariant
                *self == *old(self),
                self.func_index < self.wasm.module.functions@.len(),
                f == self.wasm.module.functions@[self.func_index as int],
                n_params == f.params@.len(),
                p <= n_params,
                head == seq!['p', 'u', 'b', ' ', 'f', 'n', ' '] + f.name@ + seq![
                    '(',
                    'e',
                    'n',
                    'v',
                    ':',
                    ' ',
                    'E',
                    'n',
                    'v',
                ],
                header@ =~= head + raw_params_text(f.params@.take(p as int)),
            decreases n_params - p,
        {
            header = header.concat(", arg_");
            header = header.concat(arg_name(p).as_str());
            header = header.concat(": ");
            let ts = self.func().params()[p].type_str();
            header = header.concat(ts);
            header = header.concat(" ");
            proof {
                reveal_strlit(", arg_");
                reveal_strlit(": ");
                reveal_strlit(" ");
                reveal_strlit("i32");
                reveal_strlit("i64");
                let ps = f.params@;
                assert(ps.take(p as int + 1).drop_last() =~= ps.take(p as int));
                assert(ps.take(p as int + 1).last() == ps[p as int]);
                assert(header@ =~= head + raw_params_text(ps.take(p as int + 1)));
            }
            p = p + 1;
        }
        header = header.concat(")");
        match self.func().return_type() {
            Some(t) => {
                header = header.concat(" -> ");
                header = header.concat(t.type_str());
            },
            None => {},
        }
        header = header.concat(" {");
        proof {
            reveal_strlit(")");
            reveal_strlit(" -> ");
            reveal_strlit(" {");
            reveal_strlit("i32");
            reveal_strlit("i64");
            assert(f.params@.take(n_params as int) =~= f.params@);
            assert(header@ =~= raw_header_text(f));
        }
        self.push_str(header.as_str());
        self.indent();
        let body = render_stmts(code, self.indent);
        self.push_str(body.as_str());
        self.dedent();
        self.push_str("}");
        self.newline();
        proof {
            reveal_strlit("}");
            if old(self).indent < usize::MAX {
                assert(self.output@ =~= pre + func_text(f, stmts_view(code@), ind, sup, is_call));
            }
        }
    }

    /// Swallows exactly the next newline.
    pub fn suppress_newline(&mut self)
        ensures
            final(self).suppress_newline,
            final(self).output == old(self).output,
            final(self).indent == old(self).indent,
            final(self).wasm == old(self).wasm,
            final(self).func_index == old(self).func_index,
    {
        self.suppress_newline = true;
    }

    /// Starts a new line at the current indentation, unless a suppression is
    /// pending, which it consumes: the output grows by exactly a newline and
    /// four spaces per indentation level.
    pub fn newline(&mut self)
        ensures
            old(self).suppress_newline ==> final(self).output == old(self).output,
            !old(self).suppress_newline ==> final(self).output@ == old(self).output@
                + newline_text(old(self).indent as int),
            !final(self).suppress_newline,
            final(self).indent == old(self).indent,
            final(self).wasm == old(self).wasm,
            final(self).func_index == old(self).func_index,
    {
        if self.suppress_newline {
            self.suppress_newline = false;
        } else {
            let ghost pre = self.output@;
            self.push_str("\n");
            proof {
                reveal_strlit("\n");
                assert(self.output@ =~= pre + seq!['\n']);
            }
            let mut k: usize = 0;
            while k < self.indent
                invariant
                    self.output@ =~= pre + seq!['\n'] + pad_text(k as int),
                    self.indent == old(self).indent,
                    self.wasm == old(self).wasm,
                    self.func_index == old(self).func_index,
                    !self.suppress_newline,
                    k <= self.indent,
                decreases self.indent - k,
            {
                self.push_str("    ");
                proof {
                    reveal_strlit("    ");
                    assert(self.output@ =~= pre + seq!['\n'] + pad_text((k + 1) as int));
                }
                k = k + 1;
            }
            proof {
                assert(self.output@ =~= pre + newline_text(old(self).indent as int));
            }
        }
    }

    /// Hands the accumulated text over.
    pub fn get_output(self) -> (r: String)
        ensures
            r == self.output,
    {
        self.output
    }

    /// Renders a statement sequence into the output: the output grows by
    /// exactly the sequence's rendering at the current indentation.
    pub fn write_body(&mut self, code: &Vec<Stmt>)
        ensures
            final(self).output@ == old(self).output@ + stmts_text(
                stmts_view(code@),
                old(self).indent as int,
            ),
            final(self).indent == old(self).indent,
            final(self).suppress_newline == old(self).suppress_newline,
            final(self).wasm == old(self).wasm,
            final(self).func_index == old(self).func_index,
    {
        let body = render_stmts(code, self.indent);
        self.push_str(body.as_str());
    }
}

/// The rendered form of an expression.
pub fn render_expr(e: &Expr) -> (r: String)
    ensures
        r@ == expr_text(e@),
    decreases *e,
{
    match e {
        Expr::Const(c) => {
            if *c >= 0 {
                let r = dec_string(*c as u64);
                proof {
                    assert(r@ =~= expr_text(e@));
                }
                r
            } else {
                let m: u64 = if *c == i64::MIN {
                    0x8000_0000_0000_0000u64
                } else {
                    (0i64 - *c) as u64
                };
                let r = String::from_str("-").concat(dec_string(m).as_str());
                proof {
                    reveal_strlit("-");
                    assert("-"@ =~= seq!['-']);
                    assert(r@ =~= expr_text(e@));
                }
                r
            }
        },
        Expr::Read(v) => {
            let r = render_var(*v);
            proof {
                assert(r@ =~= expr_text(e@));
            }
            r
        },
        Expr::Unary(op, a) => {
            let sym = match op {
                UnOp::Neg => "-",
                UnOp::Not => "!",
                UnOp::Eqz => "!",
            };
            let r = String::from_str(sym).concat(render_expr(a).as_str());
            proof {
                reveal_strlit("-");
                reveal_strlit("!");
                assert(sym@ =~= unop_text(*op));
                assert(r@ =~= expr_text(e@));
            }
            r
        },
        Expr::Binary(op, a, b) => {
            let sym = match op {
                BinOp::Add => " + ",
                BinOp::Sub => " - ",
                BinOp::Mul => " * ",
                BinOp::DivS => " / ",
                BinOp::DivU => " /u ",
                BinOp::RemS => " % ",
                BinOp::RemU => " %u ",
                BinOp::And => " & ",
                BinOp::Or => " | ",
                BinOp::Xor => " ^ ",
                BinOp::Shl => " << ",
                BinOp::ShrS => " >> ",
                BinOp::ShrU => " >>u ",
                BinOp::Eq => " == ",
                BinOp::Ne => " != ",
                BinOp::LtS => " < ",
                BinOp::LtU => " <u ",
                BinOp::GtS => " > ",
                BinOp::GtU => " >u ",
                BinOp::LeS => " <= ",
                BinOp::LeU => " <=u ",
                BinOp::GeS => " >= ",
                BinOp::GeU => " >=u ",
            };
            proof {
                reveal_strlit(" + ");
                reveal_strlit(" - ");
                reveal_strlit(" * ");
                reveal_strlit(" / ");
                reveal_strlit(" /u ");
                reveal_strlit(" % ");
                reveal_strlit(" %u ");
                reveal_strlit(" & ");
                reveal_strlit(" | ");
                reveal_strlit(" ^ ");
                reveal_strlit(" << ");
                reveal_strlit(" >> ");
                reveal_strlit(" >>u ");
                reveal_strlit(" == ");
                reveal_strlit(" != ");
                reveal_strlit(" < ");
                reveal_strlit(" <u ");
                reveal_strlit(" > ");
                reveal_strlit(" >u ");
                reveal_strlit(" <= ");
                reveal_strlit(" <=u ");
                reveal_strlit(" >= ");
                reveal_strlit(" >=u ");
                assert(sym@ =~= binop_text(*op));
            }
            let mut s = String::from_str("(");
            s = s.concat(render_expr(a).as_str());
            s = s.concat(sym);
            s = s.concat(render_expr(b).as_str());
            let r = s.concat(")");
            proof {
                reveal_strlit("(");
                reveal_strlit(")");
                assert("("@ =~= seq!['(']);
                assert(")"@ =~= seq![')']);
                assert(r@ =~= expr_text(e@));
            }
            r
        },
        Expr::Load(a) => {
            let r = String::from_str("load(").concat(render_expr(a).as_str()).concat(")");
            proof {
                reveal_strlit("load(");
                reveal_strlit(")");
                assert("load("@ =~= seq!['l', 'o', 'a', 'd', '(']);
                assert(")"@ =~= seq![')']);
                assert(r@ =~= expr_text(e@));
            }
            r
        },
        Expr::Call(f, args) => {
            let mut s = String::from_str("func_");
            s = s.concat(dec_string(*f as u64).as_str());
            s = s.concat("(");
            let ghost head = seq!['f', 'u', 'n', 'c', '_'] + dec_digits(*f as nat) + seq!['('];
            proof {
                reveal_strlit("func_");
                reveal_strlit("(");
                assert(args@.take(0) =~= Seq::<Var>::empty());
                assert(s@ =~= head + args_text(args@.take(0)));
            }
            let mut k: usize = 0;
            while k < args.len()
                invariant
                    k <= args@.len(),
                    head == seq!['f', 'u', 'n', 'c', '_'] + dec_digits(*f as nat) + seq!['('],
                    s@ =~= head + args_text(args@.take(k as int)),
                decreases args@.len() - k,
            {
                if k > 0 {
                    s = s.concat(", ");
                }
                s = s.concat(render_var(args[k]).as_str());
                proof {
                    reveal_strlit(", ");
                    assert(", "@ =~= seq![',', ' ']);
                    assert(args@.take(k as int + 1).drop_last() =~= args@.take(k as int));
                    assert(args@.take(k as int + 1).last() == args@[k as int]);
                    assert(s@ =~= head + args_text(args@.take(k as int + 1)));
                }
                k = k + 1;
            }
            let r = s.concat(")");
            proof {
                reveal_strlit(")");
                assert(")"@ =~= seq![')']);
                assert(args@.take(args@.len() as int) =~= args@);
                assert(r@ =~= expr_text(e@));
            }
            r
        },
        Expr::Phi(args) => {
            let mut s = String::from_str("phi(");
            let ghost head = seq!['p', 'h', 'i', '('];
            proof {
                reveal_strlit("phi(");
                assert(args@.take(0) =~= Seq::<PhiArg>::empty());
                assert(s@ =~= head + phi_args_text(args@.take(0)));
            }
            let mut k: usize = 0;
            while k < args.len()
                invariant
                    k <= args@.len(),
                    head == seq!['p', 'h', 'i', '('],
                    s@ =~= head + phi_args_text(args@.take(k as int)),
                decreases args@.len() - k,
            {
                if k > 0 {
                    s = s.concat(", ");
                }
                s = s.concat(render_var(args[k].var).as_str());
                proof {
                    reveal_strlit(", ");
                    assert(", "@ =~= seq![',', ' ']);
                    assert(args@.take(k as int + 1).drop_last() =~= args@.take(k as int));
                    assert(args@.take(k as int + 1).last() == args@[k as int]);
                    assert(s@ =~= head + phi_args_text(args@.take(k as int + 1)));
                }
                k = k + 1;
            }
            let r = s.concat(")");
            proof {
                reveal_strlit(")");
                assert(")"@ =~= seq![')']);
                assert(args@.take(args@.len() as int) =~= args@);
                assert(r@ =~= expr_text(e@));
            }
            r
        },
    }
}

/// The rendered form of a variable: its index in decimal, and, when it has
/// an SSA version, an underscore and the version.
pub fn render_var(v: Var) -> (r: String)
    ensures
        r@ == var_text(v),
{
    let base = dec_string(v.index as u64);
    if v.subscript == 0 {
        base
    } else {
        let r = base.concat("_").concat(dec_string(v.subscript as u64).as_str());
        proof {
            reveal_strlit("_");
            assert("_"@ =~= seq!['_']);
            assert(r@ =~= dec_digits(v.index as nat) + seq!['_'] + dec_digits(
                v.subscript as nat,
            ));
        }
        r
    }
}

fn pad(indent: usize) -> (r: String)
    ensures
        r@ == pad_text(indent as int),
{
    let mut s = String::new();
    let mut k: usize = 0;
    while k < indent
        invariant
            s@ =~= pad_text(k as int),
            k <= indent,
        decreases indent - k,
    {
        s = s.concat("    ");
        proof {
            reveal_strlit("    ");
            assert(s@ =~= pad_text((k + 1) as int));
        }
        k = k + 1;
    }
    s
}

/// The rendered form of a statement sequence, one line each: the
/// concatenation of the statements' renderings in order, empty for an empty
/// sequence.
pub fn render_stmts(code: &Vec<Stmt>, indent: usize) -> (r: String)
    ensures
        r@ == stmts_text(stmts_view(code@), indent as int),
    decreases code@, 1int,
{
    let mut s = String::new();
    proof {
        assert(stmts_view(code@.take(0)) =~= Seq::<StmtV>::empty());
        assert(s@ =~= stmts_text(stmts_view(code@.take(0)), indent as int));
    }
    let mut i: usize = 0;
    while i < code.len()
        invariant
            i <= code@.len(),
            s@ =~= stmts_text(stmts_view(code@.take(i as int)), indent as int),
        decreases code@.len() - i,
    {
        s = s.concat(render_stmt(&code[i], indent).as_str());
        proof {
            assert(code@.take(i as int + 1) =~= code@.take(i as int).push(code@[i as int]));
            crate::ssa::lemma_stmts_view_push(code@.take(i as int), code@[i as int]);
            lemma_stmts_text_push(
                stmts_view(code@.take(i as int)),
                crate::ssa::stmt_view(code@[i as int]),
                indent as int,
            );
            assert(s@ =~= stmts_text(stmts_view(code@.take(i as int + 1)), indent as int));
        }
        i = i + 1;
    }
    proof {
        assert(code@.take(code@.len() as int) =~= code@);
    }
    s
}

/// The rendered form of one statement, newline-terminated.
#[verifier::rlimit(90)]
pub fn render_stmt(stmt: &Stmt, indent: usize) -> (r: String)
    ensures
        r@ == stmt_text(stmt@, indent as int),
    decreases *stmt, 0int,
{
    let nl = "\n";
    let ghost ind = indent as int;
    let ghost want = pad_text(ind) + stmt_body_text(stmt@, ind);
    let mut s = pad(indent);
    match stmt {
        Stmt::Assign(v, e) => {
            s = s.concat(render_var(*v).as_str());
            s = s.concat(" = ");
            s = s.concat(render_expr(e).as_str());
            s = s.concat(";");
            proof {
                reveal_strlit(" = ");
                reveal_strlit(";");
                assert(s@ =~= want);
            }
        },
        Stmt::Store(a, v) => {
            s = s.concat("store(");
            s = s.concat(render_expr(a).as_str());
            s = s.concat(", ");
            s = s.concat(render_expr(v).as_str());
            s = s.concat(");");
            proof {
                reveal_strlit("store(");
                reveal_strlit(", ");
                reveal_strlit(");");
                assert(s@ =~= want);
            }
        },
        Stmt::Discard(e) => {
            s = s.concat(render_expr(e).as_str());
            s = s.concat(";");
            proof {
                reveal_strlit(";");
                assert(s@ =~= want);
            }
        },
        Stmt::Return(oe) => {
            match oe {
                Some(e) => {
                    s = s.concat("return ");
                    s = s.concat(render_expr(e).as_str());
                    s = s.concat(";");
                    proof {
                        reveal_strlit("return ");
                        reveal_strlit(";");
                        assert(s@ =~= want);
                    }
                },
                None => {
                    s = s.concat("return;");
                    proof {
                        reveal_strlit("return;");
                        assert(s@ =~= want);
                    }
                },
            }
        },
        Stmt::Trap => {
            s = s.concat("unreachable!();");
            proof {
                reveal_strlit("unreachable!();");
                assert(s@ =~= want);
            }
        },
        Stmt::If(c, t, e) => {
            s = s.concat("if ");
            s = s.concat(render_expr(c).as_str());
            s = s.concat(" {");
            s = s.concat(nl);
            s = s.concat(render_stmts(t, indent_plus(indent)).as_str());
            proof {
                crate::ssa::lemma_stmts_view_index(e@);
            }
            if e.len() > 0 {
                s = s.concat(pad(indent).as_str());
                s = s.concat("} else {");
                s = s.concat(nl);
                s = s.concat(render_stmts(e, indent_plus(indent)).as_str());
            }
            s = s.concat(pad(indent).as_str());
            s = s.concat("}");
            proof {
                reveal_strlit("if ");
                reveal_strlit(" {");
                reveal_strlit("} else {");
                reveal_strlit("}");
                reveal_strlit("\n");
                assert(s@ =~= want);
            }
        },
        Stmt::Loop(kind, oc, body) => {
            match kind {
                LoopKind::PreTest => {
                    s = s.concat("while ");
                    match oc {
                        Some(c) => {
                            s = s.concat(render_expr(c).as_str());
                        },
                        None => {},
                    }
                    s = s.concat(" {");
                },
                LoopKind::PostTest => {
                    s = s.concat("do {");
                },
                LoopKind::Infinite => {
                    s = s.concat("loop {");
                },
            }
            s = s.concat(nl);
            s = s.concat(render_stmts(body, indent_plus(indent)).as_str());
            s = s.concat(pad(indent).as_str());
            match kind {
                LoopKind::PostTest => {
                    s = s.concat("} while ");
                    match oc {
                        Some(c) => {
                            s = s.concat(render_expr(c).as_str());
                        },
                        None => {},
                    }
                    s = s.concat(";");
                },
                _ => {
                    s = s.concat("}");
                },
            }
            proof {
                reveal_strlit("while ");
                reveal_strlit(" {");
                reveal_strlit("do {");
                reveal_strlit("loop {");
                reveal_strlit("} while ");
                reveal_strlit(";");
                reveal_strlit("}");
                reveal_strlit("\n");
                assert(s@ =~= want);
            }
        },
        Stmt::Block(body) => {
            s = s.concat("{");
            s = s.concat(nl);
            s = s.concat(render_stmts(body, indent_plus(indent)).as_str());
            s = s.concat(pad(indent).as_str());
            s = s.concat("}");
            proof {
                reveal_strlit("{");
                reveal_strlit("}");
                reveal_strlit("\n");
                assert(s@ =~= want);
            }
        },
        Stmt::Break(d) => {
            s = s.concat("break ");
            s = s.concat(dec_string(*d as u64).as_str());
            s = s.concat(";");
            proof {
                reveal_strlit("break ");
                reveal_strlit(";");
                assert(s@ =~= want);
            }
        },
        Stmt::Continue(d) => {
            s = s.concat("continue ");
            s = s.concat(dec_string(*d as u64).as_str());
            s = s.concat(";");
            proof {
                reveal_strlit("continue ");
                reveal_strlit(";");
                assert(s@ =~= want);
            }
        },
        Stmt::Goto(l) => {
            s = s.concat("goto block_");
            s = s.concat(dec_string(*l as u64).as_str());
            s = s.concat(";");
            proof {
                reveal_strlit("goto block_");
                reveal_strlit(";");
                assert(s@ =~= want);
            }
        },
        Stmt::Label(l) => {
            s = s.concat("block_");
            s = s.concat(dec_string(*l as u64).as_str());
            s = s.concat(":");
            proof {
                reveal_strlit("block_");
                reveal_strlit(":");
                assert(s@ =~= want);
            }
        },
    }
    let r = s.concat(nl);
    proof {
        reveal_strlit("\n");
        assert(nl@ =~= seq!['\n']);
        assert(r@ =~= stmt_text(stmt@, indent as int));
    }
    r
}

fn indent_plus(indent: usize) -> (r: usize)
    ensures
        r as int == indent_deeper(indent as int),
{
    if indent < usize::MAX {
        indent + 1
    } else {
        indent
    }
}

impl CodeDisplay for &str {
    open spec fn text(&self, indent: int) -> Seq<char> {
        self@
    }

    fn fmt_code(&self, f: &mut CodeWriter) {
        f.push_str(self);
    }
}

impl CodeDisplay for Stmt {
    open spec fn text(&self, indent: int) -> Seq<char> {
        stmt_text(self@, indent)
    }

    fn fmt_code(&self, f: &mut CodeWriter) {
        let s = render_stmt(self, f.indent);
        f.push_str(s.as_str());
    }
}

impl CodeDisplay for Expr {
    open spec fn text(&self, indent: int) -> Seq<char> {
        expr_text(self@)
    }

    fn fmt_code(&self, f: &mut CodeWriter) {
        let s = render_expr(self);
        f.push_str(s.as_str());
    }
}

impl CodeDisplay for Var {
    open spec fn text(&self, indent: int) -> Seq<char> {
        var_text(*self)
    }

    fn fmt_code(&self, f: &mut CodeWriter) {
        let s = render_var(*self);
        f.push_str(s.as_str());
    }
}

} // verus!
