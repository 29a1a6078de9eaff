//! The emitter: a single post-order walk of the AST producing x86-64
//! assembly in AT&T syntax.
//!
//! Every expression leaves its result in `%rax`; `%rbp` is the frame base.
//! [`CodeGenContext`] tracks the per-function variable slots (8 bytes each,
//! at negative offsets from `%rbp`), the current bottom of the stack
//! allocation, and the monotonically increasing counter that mints unique
//! short-circuit labels. The emitted text is pinned to the specification
//! emitter [`se`].

use vstd::prelude::*;
use vstd::string::StringExecFns;
use crate::ast::{ASTNode, AstV, BinaryOp, UnaryOp, ast_view, ast_views, lemma_ast_views_index};
use crate::decimal::{dec_digits, dec_int, i128_dec, i64_dec, u64_dec};
use crate::lexer::str_eq;

verus! {

/// The emitter's state: the variable slots, the current bottom of the
/// stack allocation, and the label counter.
pub ghost struct EmitSt {
    pub offsets: Map<Seq<char>, int>,
    pub stack: int,
    pub labels: nat,
}

/// The outcome of emitting one subtree: the text and the state after it,
/// or the name of an unbound variable.
pub enum ERes {
    Emitted(Seq<char>, EmitSt),
    Unbound(Seq<char>),
}

/// The instruction sequence of a non-short-circuit binary operator, after
/// both operands stand in `%rcx` (left) and `%rax` (right).
pub open spec fn op_code(op: BinaryOp) -> Seq<char> {
    match op {
        BinaryOp::Addition => "addq %rcx, %rax\n"@,
        BinaryOp::Subtraction => "subq %rcx, %rax\n"@,
        BinaryOp::Multiplication => "imulq %rcx, %rax\n"@,
        BinaryOp::Division => "movq $0, %rdx\nidiv %rcx\n"@,
        BinaryOp::Equal => "cmpq %rcx, %rax\nsete %al\nmovzbq %al, %rax\n"@,
        BinaryOp::NotEq => "cmpq %rcx, %rax\nsetne %al\nmovzbq %al, %rax\n"@,
        BinaryOp::Less => "cmpq %rcx, %rax\nsetl %al\nmovzbq %al, %rax\n"@,
        BinaryOp::LessEq => "cmpq %rcx, %rax\nsetle %al\nmovzbq %al, %rax\n"@,
        BinaryOp::Greater => "cmpq %rcx, %rax\nsetg %al\nmovzbq %al, %rax\n"@,
        BinaryOp::GreaterEq => "cmpq %rcx, %rax\nsetge %al\nmovzbq %al, %rax\n"@,
        BinaryOp::LogAnd => Seq::empty(),
        BinaryOp::LogOr => Seq::empty(),
    }
}

/// The instruction sequence of a unary operator.
pub open spec fn unop_code(op: UnaryOp) -> Seq<char> {
    match op {
        UnaryOp::Negate => "neg %rax\n"@,
        UnaryOp::BitNot => "not %rax\n"@,
        UnaryOp::Not => "cmp $0, %rax\nsete %al\nmovzbq %al, %rax\n"@,
    }
}

/// The short-circuit label with number `n`.
pub open spec fn sc_label(n: nat) -> Seq<char> {
    ".short_circuit_"@ + dec_digits(n)
}

/// The end label with number `n`.
pub open spec fn end_label(n: nat) -> Seq<char> {
    ".end_"@ + dec_digits(n)
}

/// The short-circuit layout for `&&` and `||`: the left operand, a
/// conditional jump, the right operand, a conditional jump, then the two
/// constant results under freshly minted labels.
pub open spec fn sc_code(op: BinaryOp, lc: Seq<char>, rc: Seq<char>, n1: nat, n2: nat) -> Seq<
    char,
> {
    if op is LogAnd {
        lc + "\ntestq %rax, %rax\njz "@ + sc_label(n1) + "\n"@ + rc
            + "\ntestq %rax, %rax\njz "@ + sc_label(n1) + "\nmovq $1, %rax\njmp "@ + end_label(
            n2,
        ) + "\n"@ + sc_label(n1) + ":\nmovq $0, %rax\n"@ + end_label(n2) + ":\n"@
    } else {
        lc + "\ntestq %rax, %rax\njnz "@ + sc_label(n1) + "\n"@ + rc
            + "\ntestq %rax, %rax\njnz "@ + sc_label(n1) + "\nmovq $0, %rax\njmp "@ + end_label(
            n2,
        ) + "\n"@ + sc_label(n1) + ":\nmovq $1, %rax\n"@ + end_label(n2) + ":\n"@
    }
}

/// The fixed prologue of every function.
pub open spec fn prologue(name: Seq<char>) -> Seq<char> {
    ".global "@ + name + "\n"@ + name + ":\npushq %rbp\nmovq %rsp, %rbp\n"@
}

/// The fixed epilogue of every function.
pub open spec fn epilogue() -> Seq<char> {
    "movq %rbp, %rsp\npopq %rbp\nret\n"@
}

/// The slot-allocation line for a variable.
pub open spec fn alloc_code(name: Seq<char>) -> Seq<char> {
    "subq $8, %rsp  # Allocate space for "@ + name + "\n"@
}

/// The specification emitter: the text and the state after emitting `n`
/// under state `st`, or the first unbound variable name reached.
pub open spec fn se(n: AstV, st: EmitSt) -> ERes
    decreases n,
{
    match n {
        AstV::Program(fns) => se_seq(fns, st),
        AstV::Function { name, body, return_type } => {
            let st1 = EmitSt { offsets: Map::empty(), stack: 0, labels: st.labels };
            match se_seq(body, st1) {
                ERes::Emitted(bc, st2) => ERes::Emitted(
                    prologue(name) + bc + epilogue(),
                    EmitSt { offsets: st2.offsets, stack: 0, labels: st2.labels },
                ),
                ERes::Unbound(v) => ERes::Unbound(v),
            }
        },
        AstV::Return(e) => match se(*e, st) {
            ERes::Emitted(c, st1) => ERes::Emitted(c + "\n"@, st1),
            ERes::Unbound(v) => ERes::Unbound(v),
        },
        AstV::Declare(name, oe) => {
            let off = st.stack - 8;
            let st1 = EmitSt {
                offsets: st.offsets.insert(name, off),
                stack: off,
                labels: st.labels,
            };
            match oe {
                Some(e) => match se(*e, st1) {
                    ERes::Emitted(c, st2) => ERes::Emitted(
                        alloc_code(name) + c + "\nmovq %rax, "@ + dec_int(off)
                            + "(%rbp)  # Store value in "@ + name + "\n"@,
                        st2,
                    ),
                    ERes::Unbound(v) => ERes::Unbound(v),
                },
                None => ERes::Emitted(alloc_code(name), st1),
            }
        },
        AstV::Assign(name, e) => match se(*e, st) {
            ERes::Emitted(c, st1) => if st1.offsets.contains_key(name) {
                let off = st1.offsets[name];
                ERes::Emitted(
                    c + "\nmovq %rax, "@ + dec_int(off) + "(%rbp)  # Assign value to "@ + name
                        + "\n"@,
                    st1,
                )
            } else {
                let off = st1.stack - 8;
                let st2 = EmitSt {
                    offsets: st1.offsets.insert(name, off),
                    stack: off,
                    labels: st1.labels,
                };
                ERes::Emitted(
                    c + "\n"@ + alloc_code(name) + "movq %rax, "@ + dec_int(off)
                        + "(%rbp)  # Assign value to "@ + name + "\n"@,
                    st2,
                )
            },
            ERes::Unbound(v) => ERes::Unbound(v),
        },
        AstV::Exp(e) => se(*e, st),
        AstV::Var(name) => if st.offsets.contains_key(name) {
            ERes::Emitted(
                "movq "@ + dec_int(st.offsets[name]) + "(%rbp), %rax  # Load variable "@ + name
                    + "\n"@,
                st,
            )
        } else {
            ERes::Unbound(name)
        },
        AstV::Constant(v) => ERes::Emitted("movq $"@ + dec_int(v) + ", %rax\n"@, st),
        AstV::BinaryOp(l, op, r) => match se(*l, st) {
            ERes::Unbound(v) => ERes::Unbound(v),
            ERes::Emitted(lc, st1) => match se(*r, st1) {
                ERes::Unbound(v) => ERes::Unbound(v),
                ERes::Emitted(rc, st2) => if op is LogAnd || op is LogOr {
                    ERes::Emitted(
                        sc_code(op, lc, rc, st2.labels + 1, st2.labels + 2),
                        EmitSt { offsets: st2.offsets, stack: st2.stack, labels: st2.labels + 2 },
                    )
                } else {
                    ERes::Emitted(
                        lc + "\npushq %rax\n"@ + rc + "\npopq %rcx\n"@ + op_code(op),
                        st2,
                    )
                },
            },
        },
        AstV::UnaryOp(op, e) => match se(*e, st) {
            ERes::Emitted(c, st1) => ERes::Emitted(c + unop_code(op), st1),
            ERes::Unbound(v) => ERes::Unbound(v),
        },
    }
}

/// Emitting a sequence of subtrees in order, threading the state.
pub open spec fn se_seq(ss: Seq<AstV>, st: EmitSt) -> ERes
    decreases ss,
{
    if ss.len() == 0 {
        ERes::Emitted(Seq::empty(), st)
    } else {
        match se(ss[0], st) {
            ERes::Unbound(v) => ERes::Unbound(v),
            ERes::Emitted(c, st1) => match se_seq(ss.drop_first(), st1) {
                ERes::Unbound(v) => ERes::Unbound(v),
                ERes::Emitted(c2, st2) => ERes::Emitted(c + c2, st2),
            },
        }
    }
}

/// The number of short-circuit (`&&`/`||`) nodes in a subtree. Each one
/// mints exactly two labels during emission.
pub open spec fn sc_count(n: AstV) -> nat
    decreases n,
{
    match n {
        AstV::Program(fns) => sc_count_seq(fns),
        AstV::Function { name, body, return_type } => sc_count_seq(body),
        AstV::Return(e) => sc_count(*e),
        AstV::Declare(name, oe) => match oe {
            Some(e) => sc_count(*e),
            None => 0,
        },
        AstV::Assign(name, e) => sc_count(*e),
        AstV::Exp(e) => sc_count(*e),
        AstV::Var(name) => 0,
        AstV::Constant(v) => 0,
        AstV::BinaryOp(l, op, r) => sc_count(*l) + sc_count(*r) + if op is LogAnd
            || op is LogOr {
            1nat
        } else {
            0nat
        },
        AstV::UnaryOp(op, e) => sc_count(*e),
    }
}

/// The short-circuit nodes of a sequence of subtrees.
pub open spec fn sc_count_seq(ss: Seq<AstV>) -> nat
    decreases ss,
{
    if ss.len() == 0 {
        0
    } else {
        sc_count(ss[0]) + sc_count_seq(ss.drop_first())
    }
}

/// Successful emission advances the label counter by exactly two per
/// short-circuit node, and never otherwise.
pub proof fn lemma_se_labels(n: AstV, st: EmitSt)
    ensures
        match se(n, st) {
            ERes::Emitted(c, st1) => st1.labels == st.labels + 2 * sc_count(n),
            ERes::Unbound(v) => true,
        },
    decreases n,
{
    match n {
        AstV::Program(fns) => {
            lemma_se_seq_labels(fns, st);
        },
        AstV::Function { name, body, return_type } => {
            let st1 = EmitSt { offsets: Map::empty(), stack: 0, labels: st.labels };
            lemma_se_seq_labels(body, st1);
        },
        AstV::Return(e) => {
            lemma_se_labels(*e, st);
        },
        AstV::Declare(name, oe) => {
            let off = st.stack - 8;
            let st1 = EmitSt {
                offsets: st.offsets.insert(name, off),
                stack: off,
                labels: st.labels,
            };
            match oe {
                Some(e) => {
                    lemma_se_labels(*e, st1);
                },
                None => {},
            }
        },
        AstV::Assign(name, e) => {
            lemma_se_labels(*e, st);
        },
        AstV::Exp(e) => {
            lemma_se_labels(*e, st);
        },
        AstV::Var(name) => {},
        AstV::Constant(v) => {},
        AstV::BinaryOp(l, op, r) => {
            lemma_se_labels(*l, st);
            match se(*l, st) {
                ERes::Emitted(lc, st1) => {
                    lemma_se_labels(*r, st1);
                },
                ERes::Unbound(v) => {},
            }
        },
        AstV::UnaryOp(op, e) => {
            lemma_se_labels(*e, st);
        },
    }
}

/// The sequence form of [`lemma_se_labels`].
pub proof fn lemma_se_seq_labels(ss: Seq<AstV>, st: EmitSt)
    ensures
        match se_seq(ss, st) {
            ERes::Emitted(c, st1) => st1.labels == st.labels + 2 * sc_count_seq(ss),
            ERes::Unbound(v) => true,
        },
    decreases ss,
{
    if ss.len() > 0 {
        lemma_se_labels(ss[0], st);
        match se(ss[0], st) {
            ERes::Emitted(c, st1) => {
                lemma_se_seq_labels(ss.drop_first(), st1);
            },
            ERes::Unbound(v) => {},
        }
    }
}

// ---------------------------------------------------------------------
// The code-generation context
// ---------------------------------------------------------------------

/// The emitter's mutable state: variable slots, the stack bottom, and the
/// label counter.
pub struct CodeGenContext {
    var_offsets: Vec<(String, i128)>,
    stack_offset: i128,
    label_counter: u64,
}

/// The mapping that a slot list denotes: later entries shadow earlier
/// ones.
pub open spec fn assoc_map(s: Seq<(String, i128)>) -> Map<Seq<char>, int>
    decreases s.len(),
{
    if s.len() == 0 {
        Map::empty()
    } else {
        assoc_map(s.drop_last()).insert(s.last().0@, s.last().1 as int)
    }
}

proof fn lemma_assoc_map_found(s: Seq<(String, i128)>, k: Seq<char>, j: int)
    requires
        0 <= j < s.len(),
        s[j].0@ == k,
        forall|m: int| j < m < s.len() ==> #[trigger] s[m].0@ != k,
    ensures
        assoc_map(s).contains_key(k),
        assoc_map(s)[k] == s[j].1 as int,
    decreases s.len(),
{
    if j < s.len() - 1 {
        assert(s.drop_last()[j] == s[j]);
        lemma_assoc_map_found(s.drop_last(), k, j);
    }
}

proof fn lemma_assoc_map_missing(s: Seq<(String, i128)>, k: Seq<char>)
    requires
        forall|m: int| 0 <= m < s.len() ==> #[trigger] s[m].0@ != k,
    ensures
        !assoc_map(s).contains_key(k),
    decreases s.len(),
{
    if s.len() > 0 {
        lemma_assoc_map_missing(s.drop_last(), k);
    }
}

impl View for CodeGenContext {
    type V = EmitSt;

    closed spec fn view(&self) -> EmitSt {
        EmitSt {
            offsets: assoc_map(self.var_offsets@),
            stack: self.stack_offset as int,
            labels: self.label_counter as nat,
        }
    }
}

impl CodeGenContext {
    /// The stack bottom never lies below eight bytes per recorded slot,
    /// so allocation arithmetic cannot overflow.
    pub closed spec fn wf(&self) -> bool {
        self.stack_offset >= -8 * (self.var_offsets@.len() as int)
    }

    /// A fresh context: no slots, stack bottom at the frame base, label
    /// counter at zero.
    pub fn new() -> (c: CodeGenContext)
        ensures
            c.wf(),
            c@ == (EmitSt { offsets: Map::<Seq<char>, int>::empty(), stack: 0, labels: 0 }),
    {
        let c = CodeGenContext { var_offsets: Vec::new(), stack_offset: 0, label_counter: 0 };
        proof {
            assert(assoc_map(c.var_offsets@) =~= Map::<Seq<char>, int>::empty());
        }
        c
    }

    /// Reserves a fresh 8-byte slot for `name` and returns its offset from
    /// the frame base. An already-bound name is shadowed.
    pub fn allocate_var(&mut self, name: &str) -> (off: i128)
        requires
            old(self).wf(),
        ensures
            final(self).wf(),
            final(self)@.stack == old(self)@.stack - 8,
            off as int == final(self)@.stack,
            final(self)@.offsets == old(self)@.offsets.insert(name@, off as int),
            final(self)@.labels == old(self)@.labels,
    {
        let ghost s0 = self.var_offsets@;
        let n = self.var_offsets.len();
        proof {
            assert(s0.len() == n);
            assert(self.stack_offset - 8 >= i128::MIN);
        }
        self.stack_offset = self.stack_offset - 8;
        self.var_offsets.push((name.to_owned(), self.stack_offset));
        proof {
            assert(self.var_offsets@.drop_last() =~= s0);
            assert(assoc_map(self.var_offsets@) == assoc_map(s0).insert(
                name@,
                self.stack_offset as int,
            ));
        }
        self.stack_offset
    }

    /// Entering a function resets the per-function state: the stack bottom
    /// returns to the frame base and the slot table is cleared.
    pub fn enter_function(&mut self)
        ensures
            final(self).wf(),
            final(self)@ == (EmitSt {
                offsets: Map::<Seq<char>, int>::empty(),
                stack: 0,
                labels: old(self)@.labels,
            }),
    {
        self.var_offsets = Vec::new();
        self.stack_offset = 0;
        proof {
            assert(assoc_map(self.var_offsets@) =~= Map::<Seq<char>, int>::empty());
        }
    }

    /// Leaving a function returns the stack bottom to the frame base.
    pub fn exit_function(&mut self)
        requires
            old(self).wf(),
        ensures
            final(self).wf(),
            final(self)@ == (EmitSt {
                offsets: old(self)@.offsets,
                stack: 0,
                labels: old(self)@.labels,
            }),
    {
        self.stack_offset = 0;
    }

    /// The offset recorded for `name`, scanning the newest binding first.
    fn find_var(&self, name: &str) -> (r: Option<i128>)
        ensures
            match r {
                Some(o) => self@.offsets.contains_key(name@) && o as int == self@.offsets[name@],
                None => !self@.offsets.contains_key(name@),
            },
    {
        let ghost s = self.var_offsets@;
        let mut i: usize = self.var_offsets.len();
        while i > 0
            invariant
                0 <= i <= s.len(),
                s == self.var_offsets@,
                forall|m: int| i <= m < s.len() ==> #[trigger] s[m].0@ != name@,
            decreases i,
        {
            i = i - 1;
            let entry = &self.var_offsets[i];
            if str_eq(entry.0.as_str(), name) {
                proof {
                    lemma_assoc_map_found(s, name@, i as int);
                }
                return Some(entry.1);
            }
        }
        proof {
            lemma_assoc_map_missing(s, name@);
        }
        None
    }

    /// The offset of a bound variable.
    pub fn get_var_offset(&self, name: &str) -> (off: i128)
        requires
            self@.offsets.contains_key(name@),
        ensures
            off as int == self@.offsets[name@],
    {
        match self.find_var(name) {
            Some(o) => o,
            None => {
                proof {
                    assert(false);
                }
                0
            },
        }
    }

    /// `1` when `name` is bound, `0` otherwise.
    pub fn get_var_exist(&self, name: &str) -> (r: i32)
        ensures
            r == 1 || r == 0,
            (r == 1) == self@.offsets.contains_key(name@),
    {
        match self.find_var(name) {
            Some(o) => 1,
            None => 0,
        }
    }

    /// Mints a fresh label `.<base>_<n>` from the monotonically increasing
    /// counter.
    fn new_label(&mut self, base: &str) -> (s: String)
        requires
            old(self).wf(),
            old(self)@.labels < u64::MAX,
        ensures
            final(self).wf(),
            final(self)@ == (EmitSt {
                offsets: old(self)@.offsets,
                stack: old(self)@.stack,
                labels: old(self)@.labels + 1,
            }),
            s@ == "."@ + base@ + "_"@ + dec_digits(old(self)@.labels + 1),
    {
        self.label_counter = self.label_counter + 1;
        let mut s: String = ".".to_owned();
        s.append(base);
        s.append("_");
        let digits = u64_dec(self.label_counter);
        s.append(digits.as_str());
        proof {
            assert(s@ =~= "."@ + base@ + "_"@ + dec_digits((old(self)@.labels + 1) as nat));
        }
        s
    }
}

/// A reference to an unbound variable name during emission.
#[derive(Debug, Clone, PartialEq)]
pub struct EmitError {
    pub name: String,
}

impl View for EmitError {
    type V = Seq<char>;

    open spec fn view(&self) -> Seq<char> {
        self.name@
    }
}

/// The instruction text of a non-short-circuit binary operator.
fn op_str(op: BinaryOp) -> (r: &'static str)
    requires
        !(op is LogAnd),
        !(op is LogOr),
    ensures
        r@ == op_code(op),
{
    match op {
        BinaryOp::Addition => "addq %rcx, %rax\n",
        BinaryOp::Subtraction => "subq %rcx, %rax\n",
        BinaryOp::Multiplication => "imulq %rcx, %rax\n",
        BinaryOp::Division => "movq $0, %rdx\nidiv %rcx\n",
        BinaryOp::Equal => "cmpq %rcx, %rax\nsete %al\nmovzbq %al, %rax\n",
        BinaryOp::NotEq => "cmpq %rcx, %rax\nsetne %al\nmovzbq %al, %rax\n",
        BinaryOp::Less => "cmpq %rcx, %rax\nsetl %al\nmovzbq %al, %rax\n",
        BinaryOp::LessEq => "cmpq %rcx, %rax\nsetle %al\nmovzbq %al, %rax\n",
        BinaryOp::Greater => "cmpq %rcx, %rax\nsetg %al\nmovzbq %al, %rax\n",
        BinaryOp::GreaterEq => "cmpq %rcx, %rax\nsetge %al\nmovzbq %al, %rax\n",
        BinaryOp::LogAnd => "",
        BinaryOp::LogOr => "",
    }
}

/// The instruction text of a unary operator.
fn unop_str(op: UnaryOp) -> (r: &'static str)
    ensures
        r@ == unop_code(op),
{
    match op {
        UnaryOp::Negate => "neg %rax\n",
        UnaryOp::BitNot => "not %rax\n",
        UnaryOp::Not => "cmp $0, %rax\nsete %al\nmovzbq %al, %rax\n",
    }
}

/// Emits AT&T-syntax x86-64 assembly for `ast`, threading the context
/// through a single post-order walk. The result and the new context state
/// are exactly those of the specification emitter [`se`]; a reference to a
/// variable with no slot fails with that variable's name.
///
/// The label counter must have room for two fresh labels per
/// short-circuit node of the tree.
#[allow(non_snake_case)]
#[verifier::loop_isolation(false)]
#[verifier::rlimit(100)]
pub fn genASm(ast: &ASTNode, context: &mut CodeGenContext) -> (r: Result<String, EmitError>)
    requires
        old(context).wf(),
        old(context)@.labels + 2 * sc_count(ast@) <= u64::MAX,
    ensures
        match se(ast@, old(context)@) {
            ERes::Emitted(code, st) => r matches Ok(s) && s@ == code && final(context)@ == st
                && final(context).wf(),
            ERes::Unbound(v) => r matches Err(e) && e@ == v,
        },
    decreases ast,
{
    let ghost st0 = context@;
    match ast {
        ASTNode::Program(fns) => {
            let ghost views = ast_views(fns@);
            proof {
                crate::ast::lemma_ast_views_len(fns@);
                assert(views.skip(0) =~= views);
            }
            let mut result = String::new();
            let mut i: usize = 0;
            while i < fns.len()
                invariant
                    context.wf(),
                    0 <= i <= fns@.len(),
                    views == ast_views(fns@),
                    views.len() == fns@.len(),
                    context@.labels + 2 * sc_count_seq(views.skip(i as int)) <= u64::MAX,
                    match se_seq(views.skip(i as int), context@) {
                        ERes::Emitted(c2, st2) => se_seq(views, st0) == ERes::Emitted(
                            result@ + c2,
                            st2,
                        ),
                        ERes::Unbound(v) => se_seq(views, st0) == ERes::Unbound(v),
                    },
                decreases fns@.len() - i,
            {
                proof {
                    lemma_ast_views_index(fns@, i as int);
                    assert(views.skip(i as int)[0] == views[i as int]);
                    assert(views.skip(i as int).drop_first() =~= views.skip(i as int + 1));
                }
                let ghost stb = context@;
                let child = &fns[i];
                proof {
                    assert(decreases_to!(*fns => fns@));
                    assert(decreases_to!(fns@ => fns@[i as int]));
                }
                let sub = match genASm(child, context) {
                    Ok(s) => s,
                    Err(e) => {
                        return Err(e);
                    },
                };
                proof {
                    lemma_se_labels(views[i as int], stb);
                }
                let ghost r0 = result@;
                result.append(sub.as_str());
                proof {
                    match se_seq(views.skip(i as int + 1), context@) {
                        ERes::Emitted(c3, st3) => {
                            assert(r0 + (sub@ + c3) =~= result@ + c3);
                        },
                        ERes::Unbound(v) => {},
                    }
                }
                i = i + 1;
            }
            proof {
                assert(views.skip(views.len() as int) =~= Seq::<AstV>::empty());
                assert(result@ + Seq::<char>::empty() =~= result@);
            }
            Ok(result)
        },
        ASTNode::Function { name, body, return_type } => {
            let ghost views = ast_views(body@);
            context.enter_function();
            let ghost stf = context@;
            proof {
                crate::ast::lemma_ast_views_len(body@);
                assert(views.skip(0) =~= views);
            }
            let mut bodytext = String::new();
            let mut i: usize = 0;
            while i < body.len()
                invariant
                    context.wf(),
                    0 <= i <= body@.len(),
                    views == ast_views(body@),
                    views.len() == body@.len(),
                    context@.labels + 2 * sc_count_seq(views.skip(i as int)) <= u64::MAX,
                    match se_seq(views.skip(i as int), context@) {
                        ERes::Emitted(c2, st2) => se_seq(views, stf) == ERes::Emitted(
                            bodytext@ + c2,
                            st2,
                        ),
                        ERes::Unbound(v) => se_seq(views, stf) == ERes::Unbound(v),
                    },
                decreases body@.len() - i,
            {
                proof {
                    lemma_ast_views_index(body@, i as int);
                    assert(views.skip(i as int)[0] == views[i as int]);
                    assert(views.skip(i as int).drop_first() =~= views.skip(i as int + 1));
                }
                let ghost stb = context@;
                let child = &body[i];
                proof {
                    assert(decreases_to!(*body => body@));
                    assert(decreases_to!(body@ => body@[i as int]));
                }
                let sub = match genASm(child, context) {
                    Ok(s) => s,
                    Err(e) => {
                        return Err(e);
                    },
                };
                proof {
                    lemma_se_labels(views[i as int], stb);
                }
                let ghost r0 = bodytext@;
                bodytext.append(sub.as_str());
                proof {
                    match se_seq(views.skip(i as int + 1), context@) {
                        ERes::Emitted(c3, st3) => {
                            assert(r0 + (sub@ + c3) =~= bodytext@ + c3);
                        },
                        ERes::Unbound(v) => {},
                    }
                }
                i = i + 1;
            }
            proof {
                assert(views.skip(views.len() as int) =~= Seq::<AstV>::empty());
                assert(bodytext@ + Seq::<char>::empty() =~= bodytext@);
            }
            let mut result: String = ".global ".to_owned();
            result.append(name.as_str());
            result.append("\n");
            result.append(name.as_str());
            result.append(":\npushq %rbp\nmovq %rsp, %rbp\n");
            result.append(bodytext.as_str());
            result.append("movq %rbp, %rsp\npopq %rbp\nret\n");
            context.exit_function();
            proof {
                match se_seq(views, stf) {
                    ERes::Emitted(bc, st2) => {
                        assert(result@ =~= prologue(name@) + bc + epilogue());
                    },
                    ERes::Unbound(v) => {
                        assert(false);
                    },
                }
            }
            Ok(result)
        },
        ASTNode::Return(e) => {
            let mut s = match genASm(&**e, context) {
                Ok(x) => x,
                Err(er) => {
                    return Err(er);
                },
            };
            s.append("\n");
            Ok(s)
        },
        ASTNode::Declare(name, oe) => {
            let off = context.allocate_var(name.as_str());
            let mut s: String = "subq $8, %rsp  # Allocate space for ".to_owned();
            s.append(name.as_str());
            s.append("\n");
            proof {
                assert(s@ =~= alloc_code(name@));
            }
            match oe {
                Some(e) => {
                    let sub = match genASm(&**e, context) {
                        Ok(x) => x,
                        Err(er) => {
                            return Err(er);
                        },
                    };
                    s.append(sub.as_str());
                    s.append("\nmovq %rax, ");
                    let digits = i128_dec(off);
                    s.append(digits.as_str());
                    s.append("(%rbp)  # Store value in ");
                    s.append(name.as_str());
                    s.append("\n");
                    proof {
                        match se(ast@, st0) {
                            ERes::Emitted(code, st) => {
                                assert(s@ =~= code);
                            },
                            ERes::Unbound(v) => {
                                assert(false);
                            },
                        }
                    }
                    Ok(s)
                },
                None => Ok(s),
            }
        },
        ASTNode::Assign(name, e) => {
            let sub = match genASm(&**e, context) {
                Ok(x) => x,
                Err(er) => {
                    return Err(er);
                },
            };
            let mut s = sub;
            let bound = context.get_var_exist(name.as_str()) == 1;
            let off: i128 = if bound {
                let o = context.get_var_offset(name.as_str());
                s.append("\nmovq %rax, ");
                o
            } else {
                let o = context.allocate_var(name.as_str());
                s.append("\n");
                s.append("subq $8, %rsp  # Allocate space for ");
                s.append(name.as_str());
                s.append("\n");
                s.append("movq %rax, ");
                o
            };
            let digits = i128_dec(off);
            s.append(digits.as_str());
            s.append("(%rbp)  # Assign value to ");
            s.append(name.as_str());
            s.append("\n");
            proof {
                match se(ast@, st0) {
                    ERes::Emitted(code, st) => {
                        assert(s@ =~= code);
                    },
                    ERes::Unbound(v) => {
                        assert(false);
                    },
                }
            }
            Ok(s)
        },
        ASTNode::Exp(e) => genASm(&**e, context),
        ASTNode::Var(name) => {
            if context.get_var_exist(name.as_str()) == 1 {
                let off = context.get_var_offset(name.as_str());
                let mut s: String = "movq ".to_owned();
                let digits = i128_dec(off);
                s.append(digits.as_str());
                s.append("(%rbp), %rax  # Load variable ");
                s.append(name.as_str());
                s.append("\n");
                proof {
                    match se(ast@, st0) {
                        ERes::Emitted(code, st) => {
                            assert(s@ =~= code);
                        },
                        ERes::Unbound(v) => {
                            assert(false);
                        },
                    }
                }
                Ok(s)
            } else {
                Err(EmitError { name: name.clone() })
            }
        },
        ASTNode::Constant(v) => {
            let mut s: String = "movq $".to_owned();
            let digits = i64_dec(*v);
            s.append(digits.as_str());
            s.append(", %rax\n");
            proof {
                assert(s@ =~= "movq $"@ + dec_int(*v as int) + ", %rax\n"@);
            }
            Ok(s)
        },
        ASTNode::BinaryOp(l, op, r2) => {
            let ghost lv = ast_view(*(*l));
            let ghost rv = ast_view(*(*r2));
            let lc = match genASm(&**l, context) {
                Ok(x) => x,
                Err(er) => {
                    return Err(er);
                },
            };
            proof {
                lemma_se_labels(lv, st0);
            }
            let ghost st1 = context@;
            let rc = match genASm(&**r2, context) {
                Ok(x) => x,
                Err(er) => {
                    return Err(er);
                },
            };
            proof {
                lemma_se_labels(rv, st1);
            }
            let is_and = match op {
                BinaryOp::LogAnd => true,
                _ => false,
            };
            let is_short_circuit = match op {
                BinaryOp::LogAnd => true,
                BinaryOp::LogOr => true,
                _ => false,
            };
            if is_short_circuit {
                let ghost n1 = context@.labels + 1;
                let ghost n2 = context@.labels + 2;
                let label_short_circuit = context.new_label("short_circuit");
                let label_end = context.new_label("end");
                proof {
                    reveal_strlit(".");
                    reveal_strlit("short_circuit");
                    reveal_strlit("end");
                    reveal_strlit("_");
                    reveal_strlit(".short_circuit_");
                    reveal_strlit(".end_");
                    assert(label_short_circuit@ =~= sc_label(n1));
                    assert(label_end@ =~= end_label(n2));
                }
                let mut s = lc;
                if is_and {
                    s.append("\ntestq %rax, %rax\njz ");
                    s.append(label_short_circuit.as_str());
                    s.append("\n");
                    s.append(rc.as_str());
                    s.append("\ntestq %rax, %rax\njz ");
                    s.append(label_short_circuit.as_str());
                    s.append("\nmovq $1, %rax\njmp ");
                    s.append(label_end.as_str());
                    s.append("\n");
                    s.append(label_short_circuit.as_str());
                    s.append(":\nmovq $0, %rax\n");
                    s.append(label_end.as_str());
                    s.append(":\n");
                } else {
                    s.append("\ntestq %rax, %rax\njnz ");
                    s.append(label_short_circuit.as_str());
                    s.append("\n");
                    s.append(rc.as_str());
                    s.append("\ntestq %rax, %rax\njnz ");
                    s.append(label_short_circuit.as_str());
                    s.append("\nmovq $0, %rax\njmp ");
                    s.append(label_end.as_str());
                    s.append("\n");
                    s.append(label_short_circuit.as_str());
                    s.append(":\nmovq $1, %rax\n");
                    s.append(label_end.as_str());
                    s.append(":\n");
                }
                proof {
                    match se(ast@, st0) {
                        ERes::Emitted(code, st) => {
                            assert(s@ =~= code);
                        },
                        ERes::Unbound(v) => {
                            assert(false);
                        },
                    }
                }
                Ok(s)
            } else {
                let mut s = lc;
                s.append("\npushq %rax\n");
                s.append(rc.as_str());
                s.append("\npopq %rcx\n");
                s.append(op_str(*op));
                proof {
                    match se(ast@, st0) {
                        ERes::Emitted(code, st) => {
                            assert(s@ =~= code);
                        },
                        ERes::Unbound(v) => {
                            assert(false);
                        },
                    }
                }
                Ok(s)
            }
        },
        ASTNode::UnaryOp(op, e) => {
            let mut s = match genASm(&**e, context) {
                Ok(x) => x,
                Err(er) => {
                    return Err(er);
                },
            };
            s.append(unop_str(*op));
            Ok(s)
        },
    }
}


// ---------------------------------------------------------------------
// Laws of the emitter
// ---------------------------------------------------------------------

/// Emission is deterministic: the same tree under the same context state —
/// in particular the same label counter base — yields byte-identical
/// output and identical final state.
pub proof fn lemma_emission_deterministic(n: AstV, st1: EmitSt, st2: EmitSt)
    requires
        st1 == st2,
    ensures
        se(n, st1) == se(n, st2),
{
}


/// A subtree that can stand inside a function body: it holds no nested
/// `Program` or `Function` node.
pub open spec fn below_function_level(n: AstV) -> bool
    decreases n,
{
    match n {
        AstV::Program(fns) => false,
        AstV::Function { name, body, return_type } => false,
        AstV::Return(e) => below_function_level(*e),
        AstV::Declare(name, oe) => match oe {
            Some(e) => below_function_level(*e),
            None => true,
        },
        AstV::Assign(name, e) => below_function_level(*e),
        AstV::Exp(e) => below_function_level(*e),
        AstV::Var(name) => true,
        AstV::Constant(v) => true,
        AstV::BinaryOp(l, op, r) => below_function_level(*l) && below_function_level(*r),
        AstV::UnaryOp(op, e) => below_function_level(*e),
    }
}

/// Within any subtree below the function level, the stack bottom never
/// rises, and it moves only in whole slots of eight bytes.
pub proof fn lemma_stack_never_rises(n: AstV, st: EmitSt)
    requires
        below_function_level(n),
    ensures
        match se(n, st) {
            ERes::Emitted(c, st1) => st1.stack <= st.stack && (st.stack - st1.stack) % 8 == 0,
            ERes::Unbound(v) => true,
        },
    decreases n,
{
    match n {
        AstV::Program(fns) => {},
        AstV::Function { name, body, return_type } => {},
        AstV::Return(e) => {
            lemma_stack_never_rises(*e, st);
        },
        AstV::Declare(name, oe) => {
            let off = st.stack - 8;
            let st1 = EmitSt {
                offsets: st.offsets.insert(name, off),
                stack: off,
                labels: st.labels,
            };
            match oe {
                Some(e) => {
                    lemma_stack_never_rises(*e, st1);
                },
                None => {},
            }
        },
        AstV::Assign(name, e) => {
            lemma_stack_never_rises(*e, st);
        },
        AstV::Exp(e) => {
            lemma_stack_never_rises(*e, st);
        },
        AstV::Var(name) => {},
        AstV::Constant(v) => {},
        AstV::BinaryOp(l, op, r) => {
            lemma_stack_never_rises(*l, st);
            match se(*l, st) {
                ERes::Emitted(lc, st1) => {
                    lemma_stack_never_rises(*r, st1);
                },
                ERes::Unbound(v) => {},
            }
        },
        AstV::UnaryOp(op, e) => {
            lemma_stack_never_rises(*e, st);
        },
    }
}

/// The sequence form of [`lemma_stack_never_rises`]: over a function
/// body, the stack bottom only walks downward from its entry value, slot
/// by slot.
pub proof fn lemma_stack_never_rises_seq(ss: Seq<AstV>, st: EmitSt)
    requires
        forall|i: int| 0 <= i < ss.len() ==> below_function_level(#[trigger] ss[i]),
    ensures
        match se_seq(ss, st) {
            ERes::Emitted(c, st1) => st1.stack <= st.stack && (st.stack - st1.stack) % 8 == 0,
            ERes::Unbound(v) => true,
        },
    decreases ss,
{
    if ss.len() > 0 {
        lemma_stack_never_rises(ss[0], st);
        match se(ss[0], st) {
            ERes::Emitted(c, st1) => {
                assert(forall|i: int|
                    0 <= i < ss.drop_first().len() ==> ss.drop_first()[i] == ss[i + 1]);
                lemma_stack_never_rises_seq(ss.drop_first(), st1);
            },
            ERes::Unbound(v) => {},
        }
    }
}

// ---------------------------------------------------------------------
// When emission succeeds: the scope checker
// ---------------------------------------------------------------------

/// The outcome of scope checking: the set of bound names after the
/// subtree, or the first unbound variable reached.
pub enum VRes {
    Bound(Set<Seq<char>>),
    MissingVar(Seq<char>),
}

/// The scope checker: walks the tree exactly as the emitter does, but
/// tracks only which names have slots. Declarations bind before their
/// initializer runs; assignments bind after their right-hand side;
/// entering a function clears the scope.
pub open spec fn check_vars(n: AstV, env: Set<Seq<char>>) -> VRes
    decreases n,
{
    match n {
        AstV::Program(fns) => check_vars_seq(fns, env),
        AstV::Function { name, body, return_type } => match check_vars_seq(
            body,
            Set::empty(),
        ) {
            VRes::Bound(env1) => VRes::Bound(env1),
            VRes::MissingVar(v) => VRes::MissingVar(v),
        },
        AstV::Return(e) => check_vars(*e, env),
        AstV::Declare(name, oe) => {
            let env1 = env.insert(name);
            match oe {
                Some(e) => check_vars(*e, env1),
                None => VRes::Bound(env1),
            }
        },
        AstV::Assign(name, e) => match check_vars(*e, env) {
            VRes::Bound(env1) => VRes::Bound(env1.insert(name)),
            VRes::MissingVar(v) => VRes::MissingVar(v),
        },
        AstV::Exp(e) => check_vars(*e, env),
        AstV::Var(name) => if env.contains(name) {
            VRes::Bound(env)
        } else {
            VRes::MissingVar(name)
        },
        AstV::Constant(v) => VRes::Bound(env),
        AstV::BinaryOp(l, op, r) => match check_vars(*l, env) {
            VRes::Bound(env1) => check_vars(*r, env1),
            VRes::MissingVar(v) => VRes::MissingVar(v),
        },
        AstV::UnaryOp(op, e) => check_vars(*e, env),
    }
}

/// The sequence form of [`check_vars`].
pub open spec fn check_vars_seq(ss: Seq<AstV>, env: Set<Seq<char>>) -> VRes
    decreases ss,
{
    if ss.len() == 0 {
        VRes::Bound(env)
    } else {
        match check_vars(ss[0], env) {
            VRes::Bound(env1) => check_vars_seq(ss.drop_first(), env1),
            VRes::MissingVar(v) => VRes::MissingVar(v),
        }
    }
}

/// Emission succeeds exactly when every `Var` reached during the walk is
/// bound at that point, and otherwise fails naming the first unbound
/// variable. The outcome depends only on which names are bound, never on
/// their offsets, the stack, or the label counter.
pub proof fn lemma_emit_ok_iff_vars_bound(n: AstV, st: EmitSt)
    ensures
        match se(n, st) {
            ERes::Emitted(c, st1) => check_vars(n, st.offsets.dom()) == VRes::Bound(
                st1.offsets.dom(),
            ),
            ERes::Unbound(v) => check_vars(n, st.offsets.dom()) == VRes::MissingVar(v),
        },
    decreases n,
{
    match n {
        AstV::Program(fns) => {
            lemma_emit_ok_iff_vars_bound_seq(fns, st);
        },
        AstV::Function { name, body, return_type } => {
            let st1 = EmitSt { offsets: Map::empty(), stack: 0, labels: st.labels };
            assert(st1.offsets.dom() =~= Set::<Seq<char>>::empty());
            lemma_emit_ok_iff_vars_bound_seq(body, st1);
        },
        AstV::Return(e) => {
            lemma_emit_ok_iff_vars_bound(*e, st);
        },
        AstV::Declare(name, oe) => {
            let off = st.stack - 8;
            let st1 = EmitSt {
                offsets: st.offsets.insert(name, off),
                stack: off,
                labels: st.labels,
            };
            assert(st1.offsets.dom() =~= st.offsets.dom().insert(name));
            match oe {
                Some(e) => {
                    lemma_emit_ok_iff_vars_bound(*e, st1);
                },
                None => {},
            }
        },
        AstV::Assign(name, e) => {
            lemma_emit_ok_iff_vars_bound(*e, st);
            match se(*e, st) {
                ERes::Emitted(c, st1) => {
                    if st1.offsets.contains_key(name) {
                        assert(st1.offsets.dom().insert(name) =~= st1.offsets.dom());
                    } else {
                        let off = st1.stack - 8;
                        assert(st1.offsets.insert(name, off).dom() =~= st1.offsets.dom().insert(
                            name,
                        ));
                    }
                },
                ERes::Unbound(v) => {},
            }
        },
        AstV::Exp(e) => {
            lemma_emit_ok_iff_vars_bound(*e, st);
        },
        AstV::Var(name) => {},
        AstV::Constant(v) => {},
        AstV::BinaryOp(l, op, r) => {
            lemma_emit_ok_iff_vars_bound(*l, st);
            match se(*l, st) {
                ERes::Emitted(lc, st1) => {
                    lemma_emit_ok_iff_vars_bound(*r, st1);
                },
                ERes::Unbound(v) => {},
            }
        },
        AstV::UnaryOp(op, e) => {
            lemma_emit_ok_iff_vars_bound(*e, st);
        },
    }
}

/// The sequence form of [`lemma_emit_ok_iff_vars_bound`].
pub proof fn lemma_emit_ok_iff_vars_bound_seq(ss: Seq<AstV>, st: EmitSt)
    ensures
        match se_seq(ss, st) {
            ERes::Emitted(c, st1) => check_vars_seq(ss, st.offsets.dom()) == VRes::Bound(
                st1.offsets.dom(),
            ),
            ERes::Unbound(v) => check_vars_seq(ss, st.offsets.dom()) == VRes::MissingVar(v),
        },
    decreases ss,
{
    if ss.len() > 0 {
        lemma_emit_ok_iff_vars_bound(ss[0], st);
        match se(ss[0], st) {
            ERes::Emitted(c, st1) => {
                lemma_emit_ok_iff_vars_bound_seq(ss.drop_first(), st1);
            },
            ERes::Unbound(v) => {},
        }
    }
}


// ---------------------------------------------------------------------
// Uniqueness of short-circuit labels
// ---------------------------------------------------------------------

/// The label names minted while emitting `n` with the counter at `base`,
/// in minting order: each short-circuit node, after its operands, mints
/// its `.short_circuit_<n>` and `.end_<n>` pair from consecutive counter
/// values, exactly as the emitter advances the counter
/// (see [`lemma_se_labels`]).
pub open spec fn minted_labels(n: AstV, base: nat) -> Seq<Seq<char>>
    decreases n,
{
    match n {
        AstV::Program(fns) => minted_labels_seq(fns, base),
        AstV::Function { name, body, return_type } => minted_labels_seq(body, base),
        AstV::Return(e) => minted_labels(*e, base),
        AstV::Declare(name, oe) => match oe {
            Some(e) => minted_labels(*e, base),
            None => Seq::empty(),
        },
        AstV::Assign(name, e) => minted_labels(*e, base),
        AstV::Exp(e) => minted_labels(*e, base),
        AstV::Var(name) => Seq::empty(),
        AstV::Constant(v) => Seq::empty(),
        AstV::BinaryOp(l, op, r) => {
            let ml = minted_labels(*l, base);
            let mr = minted_labels(*r, base + 2 * sc_count(*l));
            let b2 = base + 2 * sc_count(*l) + 2 * sc_count(*r);
            ml + mr + if op is LogAnd || op is LogOr {
                seq![sc_label(b2 + 1), end_label(b2 + 2)]
            } else {
                Seq::empty()
            }
        },
        AstV::UnaryOp(op, e) => minted_labels(*e, base),
    }
}

/// The sequence form of [`minted_labels`].
pub open spec fn minted_labels_seq(ss: Seq<AstV>, base: nat) -> Seq<Seq<char>>
    decreases ss,
{
    if ss.len() == 0 {
        Seq::empty()
    } else {
        minted_labels(ss[0], base) + minted_labels_seq(
            ss.drop_first(),
            base + 2 * sc_count(ss[0]),
        )
    }
}

/// `l` is a short-circuit or end label whose number lies in `(lo, hi]`.
pub open spec fn is_label_in(l: Seq<char>, lo: int, hi: int) -> bool {
    exists|x: nat| lo < x <= hi && (l == sc_label(x) || l == end_label(x))
}

/// Label names determine their numbers, and the two label families never
/// collide.
proof fn lemma_label_names_injective(x: nat, y: nat)
    ensures
        sc_label(x) == sc_label(y) ==> x == y,
        end_label(x) == end_label(y) ==> x == y,
        sc_label(x) != end_label(y),
{
    reveal_strlit(".short_circuit_");
    reveal_strlit(".end_");
    if sc_label(x) == sc_label(y) {
        assert(sc_label(x).skip(15) =~= dec_digits(x));
        assert(sc_label(y).skip(15) =~= dec_digits(y));
        crate::decimal::lemma_dec_digits_injective(x, y);
    }
    if end_label(x) == end_label(y) {
        assert(end_label(x).skip(5) =~= dec_digits(x));
        assert(end_label(y).skip(5) =~= dec_digits(y));
        crate::decimal::lemma_dec_digits_injective(x, y);
    }
    assert(sc_label(x)[1] == 's');
    assert(end_label(y)[1] == 'e');
}

/// Labels from disjoint number ranges are distinct names.
proof fn lemma_label_ranges_distinct(a: Seq<char>, b: Seq<char>, lo1: int, hi1: int, lo2: int, hi2: int)
    requires
        is_label_in(a, lo1, hi1),
        is_label_in(b, lo2, hi2),
        hi1 <= lo2,
    ensures
        a != b,
{
    let x = choose|x: nat| lo1 < x <= hi1 && (a == sc_label(x) || a == end_label(x));
    let y = choose|y: nat| lo2 < y <= hi2 && (b == sc_label(y) || b == end_label(y));
    lemma_label_names_injective(x, y);
    lemma_label_names_injective(y, x);
}

/// Every minted label's number lies past `base` and within the two labels
/// per short-circuit node of the subtree.
proof fn lemma_minted_range(n: AstV, base: nat)
    ensures
        minted_labels(n, base).len() == 2 * sc_count(n),
        forall|k: int| 0 <= k < minted_labels(n, base).len() ==> is_label_in(
            #[trigger] minted_labels(n, base)[k],
            base as int,
            base + 2 * sc_count(n) as int,
        ),
    decreases n,
{
    match n {
        AstV::Program(fns) => {
            lemma_minted_range_seq(fns, base);
        },
        AstV::Function { name, body, return_type } => {
            lemma_minted_range_seq(body, base);
        },
        AstV::Return(e) => {
            lemma_minted_range(*e, base);
        },
        AstV::Declare(name, oe) => {
            match oe {
                Some(e) => {
                    lemma_minted_range(*e, base);
                },
                None => {},
            }
        },
        AstV::Assign(name, e) => {
            lemma_minted_range(*e, base);
        },
        AstV::Exp(e) => {
            lemma_minted_range(*e, base);
        },
        AstV::Var(name) => {},
        AstV::Constant(v) => {},
        AstV::BinaryOp(l, op, r) => {
            let ml = minted_labels(*l, base);
            let b1 = base + 2 * sc_count(*l);
            let mr = minted_labels(*r, b1);
            let b2 = b1 + 2 * sc_count(*r);
            lemma_minted_range(*l, base);
            lemma_minted_range(*r, b1);
            let m = minted_labels(n, base);
            assert forall|k: int| 0 <= k < m.len() implies is_label_in(
                #[trigger] m[k],
                base as int,
                base + 2 * sc_count(n) as int,
            ) by {
                if k < ml.len() {
                    assert(m[k] == ml[k]);
                } else if k < ml.len() + mr.len() {
                    assert(m[k] == mr[k - ml.len()]);
                } else {
                    if op is LogAnd || op is LogOr {
                        if k == ml.len() + mr.len() {
                            assert(m[k] == sc_label(b2 + 1));
                            assert(b2 < b2 + 1 <= base + 2 * sc_count(n));
                        } else {
                            assert(m[k] == end_label(b2 + 2));
                            assert(b2 < b2 + 2 <= base + 2 * sc_count(n));
                        }
                    }
                }
            }
        },
        AstV::UnaryOp(op, e) => {
            lemma_minted_range(*e, base);
        },
    }
}

/// The sequence form of [`lemma_minted_range`].
proof fn lemma_minted_range_seq(ss: Seq<AstV>, base: nat)
    ensures
        minted_labels_seq(ss, base).len() == 2 * sc_count_seq(ss),
        forall|k: int| 0 <= k < minted_labels_seq(ss, base).len() ==> is_label_in(
            #[trigger] minted_labels_seq(ss, base)[k],
            base as int,
            base + 2 * sc_count_seq(ss) as int,
        ),
    decreases ss,
{
    if ss.len() > 0 {
        let m0 = minted_labels(ss[0], base);
        let b1 = base + 2 * sc_count(ss[0]);
        lemma_minted_range(ss[0], base);
        lemma_minted_range_seq(ss.drop_first(), b1);
        let m = minted_labels_seq(ss, base);
        assert forall|k: int| 0 <= k < m.len() implies is_label_in(
            #[trigger] m[k],
            base as int,
            base + 2 * sc_count_seq(ss) as int,
        ) by {
            if k < m0.len() {
                assert(m[k] == m0[k]);
            } else {
                assert(m[k] == minted_labels_seq(ss.drop_first(), b1)[k - m0.len()]);
            }
        }
    }
}


/// Distinctness carries over between equal label sequences.
proof fn lemma_distinct_transfer(a: Seq<Seq<char>>, b: Seq<Seq<char>>)
    requires
        a == b,
        forall|i: int, j: int| 0 <= i < j < b.len() ==> #[trigger] b[i] != #[trigger] b[j],
    ensures
        forall|i: int, j: int| 0 <= i < j < a.len() ==> #[trigger] a[i] != #[trigger] a[j],
{
    assert forall|i: int, j: int| 0 <= i < j < a.len() implies a[i] != a[j] by {
        assert(a[i] == b[i]);
        assert(a[j] == b[j]);
    }
}

/// No two labels minted during one emission share a name: labels produced
/// by distinct short-circuit nodes are pairwise disjoint across the whole
/// output, and each node's own pair is disjoint too.
pub proof fn lemma_minted_labels_distinct(n: AstV, base: nat)
    ensures
        forall|i: int, j: int|
            0 <= i < j < minted_labels(n, base).len() ==> #[trigger] minted_labels(n, base)[i]
                != #[trigger] minted_labels(n, base)[j],
    decreases n,
{
    match n {
        AstV::Program(fns) => {
            lemma_minted_labels_distinct_seq(fns, base);
            lemma_distinct_transfer(minted_labels(n, base), minted_labels_seq(fns, base));
        },
        AstV::Function { name, body, return_type } => {
            lemma_minted_labels_distinct_seq(body, base);
            lemma_distinct_transfer(minted_labels(n, base), minted_labels_seq(body, base));
        },
        AstV::Return(e) => {
            lemma_minted_labels_distinct(*e, base);
            lemma_distinct_transfer(minted_labels(n, base), minted_labels(*e, base));
        },
        AstV::Declare(name, oe) => {
            match oe {
                Some(e) => {
                    lemma_minted_labels_distinct(*e, base);
                    lemma_distinct_transfer(minted_labels(n, base), minted_labels(*e, base));
                },
                None => {},
            }
        },
        AstV::Assign(name, e) => {
            lemma_minted_labels_distinct(*e, base);
            lemma_distinct_transfer(minted_labels(n, base), minted_labels(*e, base));
        },
        AstV::Exp(e) => {
            lemma_minted_labels_distinct(*e, base);
            lemma_distinct_transfer(minted_labels(n, base), minted_labels(*e, base));
        },
        AstV::Var(name) => {},
        AstV::Constant(v) => {},
        AstV::BinaryOp(l, op, r) => {
            let ml = minted_labels(*l, base);
            let b1 = base + 2 * sc_count(*l);
            let mr = minted_labels(*r, b1);
            let b2 = b1 + 2 * sc_count(*r);
            lemma_minted_labels_distinct(*l, base);
            lemma_minted_labels_distinct(*r, b1);
            lemma_minted_range(*l, base);
            lemma_minted_range(*r, b1);
            let m = minted_labels(n, base);
            assert forall|i: int, j: int| 0 <= i < j < m.len() implies m[i] != m[j] by {
                if j < ml.len() {
                    assert(m[i] == ml[i] && m[j] == ml[j]);
                } else if i < ml.len() && j < ml.len() + mr.len() {
                    assert(m[i] == ml[i] && m[j] == mr[j - ml.len()]);
                    lemma_label_ranges_distinct(
                        m[i],
                        m[j],
                        base as int,
                        b1 as int,
                        b1 as int,
                        b2 as int,
                    );
                } else if i >= ml.len() && j < ml.len() + mr.len() {
                    assert(m[i] == mr[i - ml.len()] && m[j] == mr[j - ml.len()]);
                } else if i < ml.len() {
                    assert(m[i] == ml[i]);
                    assert(is_label_in(m[i], base as int, b1 as int));
                    assert(is_label_in(m[j], b2 as int, b2 + 2int));
                    lemma_label_ranges_distinct(
                        m[i],
                        m[j],
                        base as int,
                        b1 as int,
                        b2 as int,
                        b2 + 2int,
                    );
                } else if i < ml.len() + mr.len() {
                    assert(m[i] == mr[i - ml.len()]);
                    assert(is_label_in(m[i], b1 as int, b2 as int));
                    assert(is_label_in(m[j], b2 as int, b2 + 2int));
                    lemma_label_ranges_distinct(
                        m[i],
                        m[j],
                        b1 as int,
                        b2 as int,
                        b2 as int,
                        b2 + 2int,
                    );
                } else {
                    assert(m[i] == sc_label(b2 + 1) && m[j] == end_label(b2 + 2));
                    lemma_label_names_injective(b2 + 1, b2 + 2);
                }
            }
        },
        AstV::UnaryOp(op, e) => {
            lemma_minted_labels_distinct(*e, base);
            lemma_distinct_transfer(minted_labels(n, base), minted_labels(*e, base));
        },
    }
}

/// The sequence form of [`lemma_minted_labels_distinct`].
pub proof fn lemma_minted_labels_distinct_seq(ss: Seq<AstV>, base: nat)
    ensures
        forall|i: int, j: int|
            0 <= i < j < minted_labels_seq(ss, base).len() ==> #[trigger] minted_labels_seq(
                ss,
                base,
            )[i] != #[trigger] minted_labels_seq(ss, base)[j],
    decreases ss,
{
    if ss.len() > 0 {
        let m0 = minted_labels(ss[0], base);
        let b1 = base + 2 * sc_count(ss[0]);
        let rest = minted_labels_seq(ss.drop_first(), b1);
        lemma_minted_labels_distinct(ss[0], base);
        lemma_minted_labels_distinct_seq(ss.drop_first(), b1);
        lemma_minted_range(ss[0], base);
        lemma_minted_range_seq(ss.drop_first(), b1);
        let m = minted_labels_seq(ss, base);
        assert forall|i: int, j: int| 0 <= i < j < m.len() implies m[i] != m[j] by {
            if j < m0.len() {
                assert(m[i] == m0[i] && m[j] == m0[j]);
            } else if i < m0.len() {
                assert(m[i] == m0[i] && m[j] == rest[j - m0.len()]);
                lemma_label_ranges_distinct(
                    m[i],
                    m[j],
                    base as int,
                    b1 as int,
                    b1 as int,
                    b1 + 2 * sc_count_seq(ss.drop_first()) as int,
                );
            } else {
                assert(m[i] == rest[i - m0.len()] && m[j] == rest[j - m0.len()]);
            }
        }
    }
}


/// Saturating addition, for counting without overflow.
fn sat_add(a: u64, b: u64) -> (r: u64)
    ensures
        a + b <= u64::MAX ==> r == a + b,
        a + b > u64::MAX ==> r == u64::MAX,
{
    if a > u64::MAX - b {
        u64::MAX
    } else {
        a + b
    }
}

/// The number of short-circuit nodes of the tree, saturating at the
/// largest counter value. Emission mints two labels per such node, so a
/// caller of [`genASm`] can check that the context's label counter has
/// room before calling.
pub fn count_short_circuits(ast: &ASTNode) -> (n: u64)
    ensures
        sc_count(ast@) <= u64::MAX ==> n == sc_count(ast@),
        sc_count(ast@) > u64::MAX ==> n == u64::MAX,
    decreases ast,
{
    match ast {
        ASTNode::Program(fns) => count_short_circuits_list(fns),
        ASTNode::Function { name, body, return_type } => count_short_circuits_list(body),
        ASTNode::Return(e) => count_short_circuits(&**e),
        ASTNode::Declare(name, oe) => match oe {
            Some(e) => count_short_circuits(&**e),
            None => 0,
        },
        ASTNode::Assign(name, e) => count_short_circuits(&**e),
        ASTNode::Exp(e) => count_short_circuits(&**e),
        ASTNode::Var(name) => 0,
        ASTNode::Constant(v) => 0,
        ASTNode::BinaryOp(l, op, r2) => {
            let a = count_short_circuits(&**l);
            let b = count_short_circuits(&**r2);
            let own: u64 = match op {
                BinaryOp::LogAnd => 1,
                BinaryOp::LogOr => 1,
                _ => 0,
            };
            sat_add(sat_add(a, b), own)
        },
        ASTNode::UnaryOp(op, e) => count_short_circuits(&**e),
    }
}

/// The short-circuit nodes of a list of subtrees, saturating.
fn count_short_circuits_list(items: &Vec<ASTNode>) -> (n: u64)
    ensures
        sc_count_seq(ast_views(items@)) <= u64::MAX ==> n == sc_count_seq(ast_views(items@)),
        sc_count_seq(ast_views(items@)) > u64::MAX ==> n == u64::MAX,
    decreases items,
{
    let ghost views = ast_views(items@);
    proof {
        crate::ast::lemma_ast_views_len(items@);
        assert(views.skip(0) =~= views);
    }
    let mut acc: u64 = 0;
    let ghost mut done: nat = 0nat;
    let mut i: usize = 0;
    while i < items.len()
        invariant
            0 <= i <= items@.len(),
            views == ast_views(items@),
            views.len() == items@.len(),
            done + sc_count_seq(views.skip(i as int)) == sc_count_seq(views),
            done <= u64::MAX ==> acc == done,
            done > u64::MAX ==> acc == u64::MAX,
        decreases items@.len() - i,
    {
        proof {
            lemma_ast_views_index(items@, i as int);
            assert(views.skip(i as int)[0] == views[i as int]);
            assert(views.skip(i as int).drop_first() =~= views.skip(i as int + 1));
        }
        let child = &items[i];
        proof {
            assert(decreases_to!(*items => items@));
            assert(decreases_to!(items@ => items@[i as int]));
        }
        let c = count_short_circuits(child);
        acc = sat_add(acc, c);
        proof {
            done = done + sc_count(views[i as int]);
        }
        i = i + 1;
    }
    proof {
        assert(views.skip(views.len() as int) =~= Seq::<AstV>::empty());
    }
    acc
}

} // verus!
