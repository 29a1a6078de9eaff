//! The shape of the emitted assembly text.
//!
//! Two facts about every successful emission are proved here over the
//! specification emitter [`se`]: the text of a program holds exactly one
//! `.global <name>` directive per function, and every function's text —
//! and so a non-empty program's — ends with `ret` as its last non-empty
//! line.
//!
//! The counting argument rests on a small algebra: occurrences of a
//! newline-free pattern distribute over concatenations of newline-
//! terminated pieces (no occurrence can straddle a boundary), and a text
//! in which no `.` is ever followed by `g` holds no `.global` at all.
//! Everything the emitter writes below the function level has that form,
//! because the only dots it emits start `.short_circuit_` and `.end_`
//! labels.

use vstd::prelude::*;
use crate::ast::{AstV, BinaryOp, UnaryOp};
use crate::decimal::{dec_digits, dec_int, lemma_dec_digits_chars};
use crate::lexer::{is_ident_char, is_ws_char, is_digit_char, is_ident_start_char, ident_run_end,
    spec_scan, scan_stream, spec_tokens, ScanResult, TokenStream, TokenV};
use crate::parser::{stream_at, StreamTok, PRes, past, sp_adv, sp_eat, spec_parse_factor,
    spec_parse_term, spec_parse_term_rest, spec_parse_additive, spec_parse_additive_rest,
    spec_parse_relational, spec_parse_relational_rest, spec_parse_equality,
    spec_parse_equality_rest, spec_parse_logical_and, spec_parse_logical_and_rest,
    spec_parse_logical_or, spec_parse_logical_or_rest, spec_parse_expression, spec_parse_declare,
    spec_parse_assignment, spec_parse_return, spec_parse_statement, spec_parse_stmt_list,
    spec_parse_type, spec_parse_function, spec_parse_program};
use crate::generation::{se, se_seq, ERes, EmitSt, sc_label, end_label, sc_code, op_code,
    unop_code, prologue, epilogue, alloc_code, below_function_level};

verus! {

// ---------------------------------------------------------------------
// Occurrence counting
// ---------------------------------------------------------------------

/// How many positions of `s` start an occurrence of `pat`.
pub open spec fn occ_count(s: Seq<char>, pat: Seq<char>) -> nat
    decreases s.len(),
{
    if s.len() < pat.len() || pat.len() == 0 {
        0
    } else {
        (if s.take(pat.len() as int) == pat {
            1nat
        } else {
            0nat
        }) + occ_count(s.drop_first(), pat)
    }
}

/// No character of `s` is a newline.
pub open spec fn has_no_nl(s: Seq<char>) -> bool {
    forall|i: int| 0 <= i < s.len() ==> s[i] != '\n'
}

/// `s` is empty or ends with a newline.
pub open spec fn nl_terminated(s: Seq<char>) -> bool {
    s.len() > 0 ==> s.last() == '\n'
}

/// No `.` of `s` is immediately followed by `g`.
pub open spec fn no_dot_g(s: Seq<char>) -> bool {
    forall|i: int| 0 <= i && i + 1 < s.len() ==> !((#[trigger] s[i]) == '.' && s[i + 1] == 'g')
}

/// A newline-free pattern cannot straddle a newline-terminated boundary:
/// occurrence counting distributes over such concatenations.
pub proof fn lemma_occ_concat(a: Seq<char>, b: Seq<char>, pat: Seq<char>)
    requires
        pat.len() > 0,
        has_no_nl(pat),
        nl_terminated(a),
    ensures
        occ_count(a + b, pat) == occ_count(a, pat) + occ_count(b, pat),
    decreases a.len(),
{
    let p = pat.len() as int;
    if a.len() == 0 {
        assert(a + b =~= b);
    } else {
        assert((a + b).drop_first() =~= a.drop_first() + b);
        assert(nl_terminated(a.drop_first())) by {
            if a.len() > 1 {
                assert(a.drop_first().last() == a.last());
            }
        }
        lemma_occ_concat(a.drop_first(), b, pat);
        if a.len() >= p {
            assert((a + b).take(p) =~= a.take(p));
        } else {
            if (a + b).len() >= p && (a + b).take(p) == pat {
                assert((a + b).take(p)[a.len() - 1] == a.last());
                assert(pat[a.len() - 1] == '\n');
                assert(false);
            }
        }
    }
}

/// A text in which no `.` is followed by `g` holds no `.global` at all.
pub proof fn lemma_ndg_occ_zero(s: Seq<char>)
    requires
        no_dot_g(s),
    ensures
        occ_count(s, ".global "@) == 0,
    decreases s.len(),
{
    reveal_strlit(".global ");
    let pat = ".global "@;
    if s.len() >= pat.len() {
        if s.take(pat.len() as int) == pat {
            assert(s.take(pat.len() as int)[0] == s[0]);
            assert(s.take(pat.len() as int)[1] == s[1]);
            assert(s[0] == '.' && s[1] == 'g');
            assert(false);
        }
        assert forall|i: int|
            0 <= i && i + 1 < s.drop_first().len() implies !((#[trigger] s.drop_first()[i])
            == '.' && s.drop_first()[i + 1] == 'g') by {
            assert(s.drop_first()[i] == s[i + 1]);
            assert(s.drop_first()[i + 1] == s[i + 2]);
        }
        lemma_ndg_occ_zero(s.drop_first());
    }
}

/// A text that starts with `.global ` and elsewhere never follows a `.`
/// with `g` holds exactly one `.global `.
pub proof fn lemma_occ_one(s: Seq<char>)
    requires
        s.len() >= 8,
        s.take(8) == ".global "@,
        no_dot_g(s.skip(1)),
    ensures
        occ_count(s, ".global "@) == 1,
{
    reveal_strlit(".global ");
    assert(s.drop_first() =~= s.skip(1));
    lemma_ndg_occ_zero(s.skip(1));
}

/// Joining pieces: if neither piece pairs a `.` with a `g`, and the
/// boundary cannot (the left piece does not end with `.`), neither does
/// the whole.
pub proof fn lemma_ndg_join(a: Seq<char>, b: Seq<char>)
    requires
        no_dot_g(a),
        no_dot_g(b),
        a.len() > 0 ==> a.last() != '.',
    ensures
        no_dot_g(a + b),
{
    let c = a + b;
    assert forall|i: int| 0 <= i && i + 1 < c.len() implies !((#[trigger] c[i]) == '.' && c[i
        + 1] == 'g') by {
        if i + 1 < a.len() {
            assert(c[i] == a[i] && c[i + 1] == a[i + 1]);
        } else if i == a.len() - 1 {
            assert(c[i] == a.last());
        } else {
            assert(c[i] == b[i - a.len()] && c[i + 1] == b[i + 1 - a.len()]);
        }
    }
}

/// A text without any dot never pairs one with a `g`.
pub open spec fn dot_free(s: Seq<char>) -> bool {
    forall|i: int| 0 <= i < s.len() ==> s[i] != '.'
}

// ---------------------------------------------------------------------
// Well-formed names
// ---------------------------------------------------------------------

/// A non-empty run of identifier characters.
pub open spec fn ident_seq(s: Seq<char>) -> bool {
    s.len() > 0 && forall|i: int| 0 <= i < s.len() ==> is_ident_char(#[trigger] s[i])
}

/// Every name in the tree — of functions, declarations, assignments and
/// variable uses — is a well-formed identifier.
pub open spec fn names_wf(n: AstV) -> bool
    decreases n,
{
    match n {
        AstV::Program(fns) => names_wf_seq(fns),
        AstV::Function { name, body, return_type } => ident_seq(name) && names_wf_seq(body),
        AstV::Return(e) => names_wf(*e),
        AstV::Declare(name, oe) => ident_seq(name) && (match oe {
            Some(e) => names_wf(*e),
            None => true,
        }),
        AstV::Assign(name, e) => ident_seq(name) && names_wf(*e),
        AstV::Exp(e) => names_wf(*e),
        AstV::Var(name) => ident_seq(name),
        AstV::Constant(v) => true,
        AstV::BinaryOp(l, op, r) => names_wf(*l) && names_wf(*r),
        AstV::UnaryOp(op, e) => names_wf(*e),
    }
}

/// The sequence form of [`names_wf`].
pub open spec fn names_wf_seq(ss: Seq<AstV>) -> bool
    decreases ss,
{
    if ss.len() == 0 {
        true
    } else {
        names_wf(ss[0]) && names_wf_seq(ss.drop_first())
    }
}

proof fn lemma_ident_clean(s: Seq<char>)
    requires
        ident_seq(s),
    ensures
        dot_free(s),
        has_no_nl(s),
        no_dot_g(s),
        s.last() != '.',
{
    assert forall|i: int| 0 <= i < s.len() implies s[i] != '.' && s[i] != '\n' by {
        assert(is_ident_char(s[i]));
    }
}

proof fn lemma_dec_clean(v: int)
    ensures
        dot_free(dec_int(v)),
        has_no_nl(dec_int(v)),
        no_dot_g(dec_int(v)),
        dec_int(v).len() > 0,
        dec_int(v).last() != '.',
{
    let s = dec_int(v);
    if v < 0 {
        let d = dec_digits((-v) as nat);
        lemma_dec_digits_chars((-v) as nat);
        assert forall|i: int| 0 <= i < s.len() implies (#[trigger] s[i]) != '.' && s[i]
            != '\n' by {
            if i == 0 {
                assert(s[0] == (seq!['-'] + d)[0]);
                assert(s[0] == '-');
            } else {
                assert(s[i] == d[i - 1]);
                assert(48 <= d[i - 1] as u32 <= 57);
            }
        }
        assert(s.last() == d.last());
        assert(48 <= d.last() as u32 <= 57);
    } else {
        let d = dec_digits(v as nat);
        lemma_dec_digits_chars(v as nat);
        assert forall|i: int| 0 <= i < s.len() implies (#[trigger] s[i]) != '.' && s[i]
            != '\n' by {
            assert(48 <= d[i] as u32 <= 57);
        }
        assert(48 <= d.last() as u32 <= 57);
    }
}

proof fn lemma_label_clean(x: nat)
    ensures
        no_dot_g(sc_label(x)),
        no_dot_g(end_label(x)),
        sc_label(x).last() != '.',
        end_label(x).last() != '.',
        has_no_nl(sc_label(x)),
        has_no_nl(end_label(x)),
{
    reveal_strlit(".short_circuit_");
    reveal_strlit(".end_");
    lemma_dec_digits_chars(x);
    let d = dec_digits(x);
    let p1 = ".short_circuit_"@;
    let p2 = ".end_"@;
    assert(p1.len() == 15);
    assert(p2.len() == 5);
    let s1 = sc_label(x);
    let s2 = end_label(x);
    assert(s1.last() == d.last() && s2.last() == d.last());
    assert(48 <= d.last() as u32 <= 57);
    assert forall|i: int| 0 <= i < s1.len() implies (#[trigger] s1[i]) != '\n' && !(s1[i] == '.'
        && i + 1 < s1.len() && s1[i + 1] == 'g') by {
        if i < 15 {
            assert(s1[i] == p1[i]);
        } else {
            assert(s1[i] == d[i - 15]);
            assert(48 <= d[i - 15] as u32 <= 57);
        }
        if i + 1 < s1.len() {
            if i + 1 < 15 {
                assert(s1[i + 1] == p1[i + 1]);
            } else {
                assert(s1[i + 1] == d[i + 1 - 15]);
                assert(48 <= d[i + 1 - 15] as u32 <= 57);
            }
        }
    }
    assert forall|i: int| 0 <= i < s2.len() implies (#[trigger] s2[i]) != '\n' && !(s2[i] == '.'
        && i + 1 < s2.len() && s2[i + 1] == 'g') by {
        if i < 5 {
            assert(s2[i] == p2[i]);
        } else {
            assert(s2[i] == d[i - 5]);
            assert(48 <= d[i - 5] as u32 <= 57);
        }
        if i + 1 < s2.len() {
            if i + 1 < 5 {
                assert(s2[i + 1] == p2[i + 1]);
            } else {
                assert(s2[i + 1] == d[i + 1 - 5]);
                assert(48 <= d[i + 1 - 5] as u32 <= 57);
            }
        }
    }
}


// ---------------------------------------------------------------------
// Everything below the function level is free of `.global`
// ---------------------------------------------------------------------

proof fn lemma_alloc_clean(name: Seq<char>)
    requires
        ident_seq(name),
    ensures
        no_dot_g(alloc_code(name)),
        alloc_code(name).len() > 0,
        alloc_code(name).last() == '\n',
{
    reveal_strlit("subq $8, %rsp  # Allocate space for ");
    reveal_strlit("\n");
    lemma_ident_clean(name);
    let a = "subq $8, %rsp  # Allocate space for "@;
    assert(no_dot_g(a));
    assert(a.last() == ' ');
    lemma_ndg_join(a, name);
    assert((a + name).last() == name.last());
    lemma_ndg_join(a + name, "\n"@);
    assert(alloc_code(name).last() == "\n"@.last());
    assert("\n"@.last() == '\n');
}

proof fn lemma_op_code_clean(op: BinaryOp)
    requires
        !(op is LogAnd),
        !(op is LogOr),
    ensures
        no_dot_g(op_code(op)),
        op_code(op).len() > 0,
        op_code(op).last() == '\n',
{
    reveal_strlit("addq %rcx, %rax\n");
    reveal_strlit("subq %rcx, %rax\n");
    reveal_strlit("imulq %rcx, %rax\n");
    reveal_strlit("movq $0, %rdx\nidiv %rcx\n");
    reveal_strlit("cmpq %rcx, %rax\nsete %al\nmovzbq %al, %rax\n");
    reveal_strlit("cmpq %rcx, %rax\nsetne %al\nmovzbq %al, %rax\n");
    reveal_strlit("cmpq %rcx, %rax\nsetl %al\nmovzbq %al, %rax\n");
    reveal_strlit("cmpq %rcx, %rax\nsetle %al\nmovzbq %al, %rax\n");
    reveal_strlit("cmpq %rcx, %rax\nsetg %al\nmovzbq %al, %rax\n");
    reveal_strlit("cmpq %rcx, %rax\nsetge %al\nmovzbq %al, %rax\n");
}

proof fn lemma_unop_code_clean(op: UnaryOp)
    ensures
        no_dot_g(unop_code(op)),
        unop_code(op).len() > 0,
        unop_code(op).last() == '\n',
{
    reveal_strlit("neg %rax\n");
    reveal_strlit("not %rax\n");
    reveal_strlit("cmp $0, %rax\nsete %al\nmovzbq %al, %rax\n");
}

proof fn lemma_sc_code_clean(op: BinaryOp, lc: Seq<char>, rc: Seq<char>, n1: nat, n2: nat)
    requires
        no_dot_g(lc),
        no_dot_g(rc),
        nl_terminated(lc),
        nl_terminated(rc),
    ensures
        no_dot_g(sc_code(op, lc, rc, n1, n2)),
        sc_code(op, lc, rc, n1, n2).len() > 0,
        sc_code(op, lc, rc, n1, n2).last() == '\n',
{
    reveal_strlit("\ntestq %rax, %rax\njz ");
    reveal_strlit("\ntestq %rax, %rax\njnz ");
    reveal_strlit("\nmovq $1, %rax\njmp ");
    reveal_strlit("\nmovq $0, %rax\njmp ");
    reveal_strlit(":\nmovq $0, %rax\n");
    reveal_strlit(":\nmovq $1, %rax\n");
    reveal_strlit(":\n");
    reveal_strlit("\n");
    lemma_label_clean(n1);
    lemma_label_clean(n2);
    let l1 = sc_label(n1);
    let l2 = end_label(n2);
    if op is LogAnd {
        let t = "\ntestq %rax, %rax\njz "@;
        let j = "\nmovq $1, %rax\njmp "@;
        let z = ":\nmovq $0, %rax\n"@;
        assert(no_dot_g(t) && t.last() == ' ');
        assert(no_dot_g(j) && j.last() == ' ');
        assert(no_dot_g(z) && z.last() == '\n');
        lemma_ndg_join(lc, t);
        assert((lc + t).last() == ' ');
        lemma_ndg_join(lc + t, l1);
        assert((lc + t + l1).last() == l1.last());
        lemma_ndg_join(lc + t + l1, "\n"@);
        assert((lc + t + l1 + "\n"@).last() == '\n');
        lemma_ndg_join(lc + t + l1 + "\n"@, rc);
        let q1 = lc + t + l1 + "\n"@ + rc;
        assert(q1.last() == if rc.len() > 0 { rc.last() } else { '\n' });
        lemma_ndg_join(q1, t);
        assert((q1 + t).last() == ' ');
        lemma_ndg_join(q1 + t, l1);
        assert((q1 + t + l1).last() == l1.last());
        lemma_ndg_join(q1 + t + l1, j);
        assert((q1 + t + l1 + j).last() == ' ');
        lemma_ndg_join(q1 + t + l1 + j, l2);
        let q2 = q1 + t + l1 + j + l2;
        assert(q2.last() == l2.last());
        lemma_ndg_join(q2, "\n"@);
        assert((q2 + "\n"@).last() == '\n');
        lemma_ndg_join(q2 + "\n"@, l1);
        assert((q2 + "\n"@ + l1).last() == l1.last());
        lemma_ndg_join(q2 + "\n"@ + l1, z);
        let q3 = q2 + "\n"@ + l1 + z;
        assert(q3.last() == '\n');
        lemma_ndg_join(q3, l2);
        assert((q3 + l2).last() == l2.last());
        lemma_ndg_join(q3 + l2, ":\n"@);
        assert((q3 + l2 + ":\n"@).last() == '\n');
        assert(sc_code(op, lc, rc, n1, n2) == q3 + l2 + ":\n"@);
    } else {
        let t = "\ntestq %rax, %rax\njnz "@;
        let j = "\nmovq $0, %rax\njmp "@;
        let z = ":\nmovq $1, %rax\n"@;
        assert(no_dot_g(t) && t.last() == ' ');
        assert(no_dot_g(j) && j.last() == ' ');
        assert(no_dot_g(z) && z.last() == '\n');
        lemma_ndg_join(lc, t);
        assert((lc + t).last() == ' ');
        lemma_ndg_join(lc + t, l1);
        assert((lc + t + l1).last() == l1.last());
        lemma_ndg_join(lc + t + l1, "\n"@);
        assert((lc + t + l1 + "\n"@).last() == '\n');
        lemma_ndg_join(lc + t + l1 + "\n"@, rc);
        let q1 = lc + t + l1 + "\n"@ + rc;
        assert(q1.last() == if rc.len() > 0 { rc.last() } else { '\n' });
        lemma_ndg_join(q1, t);
        assert((q1 + t).last() == ' ');
        lemma_ndg_join(q1 + t, l1);
        assert((q1 + t + l1).last() == l1.last());
        lemma_ndg_join(q1 + t + l1, j);
        assert((q1 + t + l1 + j).last() == ' ');
        lemma_ndg_join(q1 + t + l1 + j, l2);
        let q2 = q1 + t + l1 + j + l2;
        assert(q2.last() == l2.last());
        lemma_ndg_join(q2, "\n"@);
        assert((q2 + "\n"@).last() == '\n');
        lemma_ndg_join(q2 + "\n"@, l1);
        assert((q2 + "\n"@ + l1).last() == l1.last());
        lemma_ndg_join(q2 + "\n"@ + l1, z);
        let q3 = q2 + "\n"@ + l1 + z;
        assert(q3.last() == '\n');
        lemma_ndg_join(q3, l2);
        assert((q3 + l2).last() == l2.last());
        lemma_ndg_join(q3 + l2, ":\n"@);
        assert((q3 + l2 + ":\n"@).last() == '\n');
        assert(sc_code(op, lc, rc, n1, n2) == q3 + l2 + ":\n"@);
    }
}

/// Everything emitted below the function level is newline-terminated and
/// never writes `.g`, so it holds no `.global` directive.
#[verifier::rlimit(100)]
#[verifier::spinoff_prover]
pub proof fn lemma_emit_clean(n: AstV, st: EmitSt)
    requires
        below_function_level(n),
        names_wf(n),
    ensures
        match se(n, st) {
            ERes::Emitted(c, st1) => no_dot_g(c) && nl_terminated(c),
            ERes::Unbound(v) => true,
        },
    decreases n,
{
    reveal_strlit("\n");
    reveal_strlit("\nmovq %rax, ");
    reveal_strlit("(%rbp)  # Store value in ");
    reveal_strlit("(%rbp)  # Assign value to ");
    reveal_strlit("movq ");
    reveal_strlit("(%rbp), %rax  # Load variable ");
    reveal_strlit("movq $");
    reveal_strlit(", %rax\n");
    reveal_strlit("\npushq %rax\n");
    reveal_strlit("\npopq %rcx\n");
    match n {
        AstV::Program(fns) => {},
        AstV::Function { name, body, return_type } => {},
        AstV::Return(e) => {
            lemma_emit_clean(*e, st);
            match se(*e, st) {
                ERes::Emitted(c, st1) => {
                    lemma_ndg_join(c, "\n"@);
                    assert((c + "\n"@).last() == '\n');
                },
                ERes::Unbound(v) => {},
            }
        },
        AstV::Declare(name, oe) => {
            let off = st.stack - 8;
            let st1 = EmitSt {
                offsets: st.offsets.insert(name, off),
                stack: off,
                labels: st.labels,
            };
            lemma_alloc_clean(name);
            lemma_ident_clean(name);
            let al = alloc_code(name);
            match oe {
                Some(e) => {
                    lemma_emit_clean(*e, st1);
                    match se(*e, st1) {
                        ERes::Emitted(c, st2) => {
                            lemma_dec_clean(off);
                            let m = "\nmovq %rax, "@;
                            let t = "(%rbp)  # Store value in "@;
                            assert(no_dot_g(m) && m.last() == ' ');
                            assert(no_dot_g(t) && t.last() == ' ');
                            lemma_ndg_join(al, c);
                            let q1 = al + c;
                            assert(q1.last() == if c.len() > 0 { c.last() } else { '\n' });
                            lemma_ndg_join(q1, m);
                            assert((q1 + m).last() == ' ');
                            lemma_ndg_join(q1 + m, dec_int(off));
                            assert((q1 + m + dec_int(off)).last() == dec_int(off).last());
                            lemma_ndg_join(q1 + m + dec_int(off), t);
                            assert((q1 + m + dec_int(off) + t).last() == ' ');
                            lemma_ndg_join(q1 + m + dec_int(off) + t, name);
                            let q2 = q1 + m + dec_int(off) + t + name;
                            assert(q2.last() == name.last());
                            lemma_ndg_join(q2, "\n"@);
                            assert((q2 + "\n"@).last() == '\n');
                        },
                        ERes::Unbound(v) => {},
                    }
                },
                None => {},
            }
        },
        AstV::Assign(name, e) => {
            lemma_emit_clean(*e, st);
            lemma_ident_clean(name);
            match se(*e, st) {
                ERes::Emitted(c, st1) => {
                    let m = "\nmovq %rax, "@;
                    let t = "(%rbp)  # Assign value to "@;
                    assert(no_dot_g(m) && m.last() == ' ');
                    assert(no_dot_g(t) && t.last() == ' ');
                    if st1.offsets.contains_key(name) {
                        let off = st1.offsets[name];
                        lemma_dec_clean(off);
                        lemma_ndg_join(c, m);
                        assert((c + m).last() == ' ');
                        lemma_ndg_join(c + m, dec_int(off));
                        assert((c + m + dec_int(off)).last() == dec_int(off).last());
                        lemma_ndg_join(c + m + dec_int(off), t);
                        assert((c + m + dec_int(off) + t).last() == ' ');
                        lemma_ndg_join(c + m + dec_int(off) + t, name);
                        let q = c + m + dec_int(off) + t + name;
                        assert(q.last() == name.last());
                        lemma_ndg_join(q, "\n"@);
                        assert((q + "\n"@).last() == '\n');
                    } else {
                        let off = st1.stack - 8;
                        lemma_dec_clean(off);
                        lemma_alloc_clean(name);
                        let al = alloc_code(name);
                        let mv = "movq %rax, "@;
                        reveal_strlit("movq %rax, ");
                        assert(no_dot_g(mv) && mv.last() == ' ');
                        lemma_ndg_join(c, "\n"@);
                        assert((c + "\n"@).last() == '\n');
                        lemma_ndg_join(c + "\n"@, al);
                        let q1 = c + "\n"@ + al;
                        assert(q1.last() == '\n');
                        lemma_ndg_join(q1, mv);
                        assert((q1 + mv).last() == ' ');
                        lemma_ndg_join(q1 + mv, dec_int(off));
                        assert((q1 + mv + dec_int(off)).last() == dec_int(off).last());
                        lemma_ndg_join(q1 + mv + dec_int(off), t);
                        assert((q1 + mv + dec_int(off) + t).last() == ' ');
                        lemma_ndg_join(q1 + mv + dec_int(off) + t, name);
                        let q2 = q1 + mv + dec_int(off) + t + name;
                        assert(q2.last() == name.last());
                        lemma_ndg_join(q2, "\n"@);
                        assert((q2 + "\n"@).last() == '\n');
                    }
                },
                ERes::Unbound(v) => {},
            }
        },
        AstV::Exp(e) => {
            lemma_emit_clean(*e, st);
        },
        AstV::Var(name) => {
            if st.offsets.contains_key(name) {
                let off = st.offsets[name];
                lemma_dec_clean(off);
                lemma_ident_clean(name);
                let m = "movq "@;
                let t = "(%rbp), %rax  # Load variable "@;
                assert(no_dot_g(m) && m.last() == ' ');
                assert(no_dot_g(t) && t.last() == ' ');
                lemma_ndg_join(m, dec_int(off));
                assert((m + dec_int(off)).last() == dec_int(off).last());
                lemma_ndg_join(m + dec_int(off), t);
                assert((m + dec_int(off) + t).last() == ' ');
                lemma_ndg_join(m + dec_int(off) + t, name);
                let q = m + dec_int(off) + t + name;
                assert(q.last() == name.last());
                lemma_ndg_join(q, "\n"@);
                assert((q + "\n"@).last() == '\n');
            }
        },
        AstV::Constant(v) => {
            lemma_dec_clean(v);
            let m = "movq $"@;
            let t = ", %rax\n"@;
            assert(no_dot_g(m) && m.last() == '$');
            assert(no_dot_g(t) && t.last() == '\n');
            lemma_ndg_join(m, dec_int(v));
            assert((m + dec_int(v)).last() == dec_int(v).last());
            lemma_ndg_join(m + dec_int(v), t);
            assert((m + dec_int(v) + t).last() == '\n');
        },
        AstV::BinaryOp(l, op, r) => {
            lemma_emit_clean(*l, st);
            match se(*l, st) {
                ERes::Emitted(lc, st1) => {
                    lemma_emit_clean(*r, st1);
                    match se(*r, st1) {
                        ERes::Emitted(rc, st2) => {
                            if op is LogAnd || op is LogOr {
                                lemma_sc_code_clean(op, lc, rc, st2.labels + 1, st2.labels + 2);
                            } else {
                                lemma_op_code_clean(op);
                                let pu = "\npushq %rax\n"@;
                                let po = "\npopq %rcx\n"@;
                                assert(no_dot_g(pu) && pu.last() == '\n');
                                assert(no_dot_g(po) && po.last() == '\n');
                                lemma_ndg_join(lc, pu);
                                assert((lc + pu).last() == '\n');
                                lemma_ndg_join(lc + pu, rc);
                                let q1 = lc + pu + rc;
                                assert(q1.last() == if rc.len() > 0 { rc.last() } else { '\n' });
                                lemma_ndg_join(q1, po);
                                assert((q1 + po).last() == '\n');
                                lemma_ndg_join(q1 + po, op_code(op));
                                assert((q1 + po + op_code(op)).last() == op_code(op).last());
                            }
                        },
                        ERes::Unbound(v) => {},
                    }
                },
                ERes::Unbound(v) => {},
            }
        },
        AstV::UnaryOp(op, e) => {
            lemma_emit_clean(*e, st);
            match se(*e, st) {
                ERes::Emitted(c, st1) => {
                    lemma_unop_code_clean(op);
                    lemma_ndg_join(c, unop_code(op));
                    assert((c + unop_code(op)).last() == unop_code(op).last());
                },
                ERes::Unbound(v) => {},
            }
        },
    }
}

/// The sequence form of [`lemma_emit_clean`].
pub proof fn lemma_emit_clean_seq(ss: Seq<AstV>, st: EmitSt)
    requires
        forall|i: int| 0 <= i < ss.len() ==> below_function_level(#[trigger] ss[i]),
        names_wf_seq(ss),
    ensures
        match se_seq(ss, st) {
            ERes::Emitted(c, st1) => no_dot_g(c) && nl_terminated(c),
            ERes::Unbound(v) => true,
        },
    decreases ss,
{
    if ss.len() > 0 {
        lemma_emit_clean(ss[0], st);
        match se(ss[0], st) {
            ERes::Emitted(c, st1) => {
                assert(forall|i: int|
                    0 <= i < ss.drop_first().len() ==> ss.drop_first()[i] == ss[i + 1]);
                lemma_emit_clean_seq(ss.drop_first(), st1);
                match se_seq(ss.drop_first(), st1) {
                    ERes::Emitted(c2, st2) => {
                        lemma_ndg_join(c, c2);
                        if c2.len() > 0 {
                            assert((c + c2).last() == c2.last());
                        } else {
                            assert(c + c2 =~= c);
                        }
                    },
                    ERes::Unbound(v) => {},
                }
            },
            ERes::Unbound(v) => {},
        }
    }
}


// ---------------------------------------------------------------------
// The laws: one `.global` per function; every function ends in `ret`
// ---------------------------------------------------------------------

/// The statements of every function body stand below the function level.
pub open spec fn below_function_level_seq(ss: Seq<AstV>) -> bool {
    forall|i: int| 0 <= i < ss.len() ==> below_function_level(#[trigger] ss[i])
}

/// A program as the parser builds it: a sequence of functions whose
/// bodies are statements.
pub open spec fn program_shaped(fns: Seq<AstV>) -> bool {
    forall|i: int|
        0 <= i < fns.len() ==> ((#[trigger] fns[i]) matches AstV::Function {
            name,
            body,
            return_type,
        } && below_function_level_seq(body))
}

/// The text of one emitted function holds exactly one `.global `
/// directive.
pub proof fn lemma_one_global_per_function(
    name: Seq<char>,
    body: Seq<AstV>,
    rt: Seq<char>,
    st: EmitSt,
)
    requires
        ident_seq(name),
        names_wf(AstV::Function { name, body, return_type: rt }),
        below_function_level_seq(body),
    ensures
        match se(AstV::Function { name, body, return_type: rt }, st) {
            ERes::Emitted(c, st1) => occ_count(c, ".global "@) == 1,
            ERes::Unbound(v) => true,
        },
{
    reveal_strlit(".global ");
    reveal_strlit("\n");
    reveal_strlit(":\npushq %rbp\nmovq %rsp, %rbp\n");
    reveal_strlit("movq %rbp, %rsp\npopq %rbp\nret\n");
    let st1 = EmitSt { offsets: Map::empty(), stack: 0, labels: st.labels };
    lemma_emit_clean_seq(body, st1);
    match se_seq(body, st1) {
        ERes::Emitted(bc, st2) => {
            let pat = ".global "@;
            let c = prologue(name) + bc + epilogue();
            lemma_ident_clean(name);
            assert(c.take(8) =~= pat);
            let g = pat.skip(1);
            assert(no_dot_g(g) && g.last() == ' ') by {
                assert(forall|i: int| 0 <= i < g.len() ==> g[i] == pat[i + 1]);
            }
            let colon = ":\npushq %rbp\nmovq %rsp, %rbp\n"@;
            assert(no_dot_g(colon) && colon.last() == '\n');
            lemma_ndg_join(g, name);
            assert((g + name).last() == name.last());
            lemma_ndg_join(g + name, "\n"@);
            assert((g + name + "\n"@).last() == '\n');
            lemma_ndg_join(g + name + "\n"@, name);
            let q1 = g + name + "\n"@ + name;
            assert(q1.last() == name.last());
            lemma_ndg_join(q1, colon);
            let q2 = q1 + colon;
            assert(q2.last() == '\n');
            lemma_ndg_join(q2, bc);
            let q3 = q2 + bc;
            assert(q3.last() == if bc.len() > 0 { bc.last() } else { '\n' });
            let ep = epilogue();
            assert(no_dot_g(ep));
            lemma_ndg_join(q3, ep);
            assert(c.skip(1) =~= q3 + ep);
            lemma_occ_one(c);
        },
        ERes::Unbound(v) => {},
    }
}

/// Exactly one `.global <name>` directive is emitted per function of the
/// program: the directive count of the whole output equals the number of
/// functions.
pub proof fn lemma_one_global_per_program(fns: Seq<AstV>, st: EmitSt)
    requires
        program_shaped(fns),
        names_wf_seq(fns),
    ensures
        match se(AstV::Program(fns), st) {
            ERes::Emitted(c, st1) => occ_count(c, ".global "@) == fns.len(),
            ERes::Unbound(v) => true,
        },
    decreases fns.len(),
{
    reveal_strlit(".global ");
    let pat = ".global "@;
    if fns.len() == 0 {
        assert(se_seq(fns, st) == ERes::Emitted(Seq::<char>::empty(), st));
        assert(occ_count(Seq::<char>::empty(), pat) == 0);
    } else {
        assert(names_wf(fns[0]));
        match fns[0] {
            AstV::Function { name, body, return_type } => {
                assert(ident_seq(name));
                assert(below_function_level_seq(body));
                lemma_one_global_per_function(name, body, return_type, st);
                match se(fns[0], st) {
                    ERes::Emitted(c1, stm) => {
                        assert(c1.last() == '\n') by {
                            reveal_strlit("movq %rbp, %rsp\npopq %rbp\nret\n");
                            match se_seq(body, EmitSt {
                                offsets: Map::empty(),
                                stack: 0,
                                labels: st.labels,
                            }) {
                                ERes::Emitted(bc, st2) => {
                                    assert(c1 == prologue(name) + bc + epilogue());
                                    assert(c1.last() == epilogue().last());
                                },
                                ERes::Unbound(v) => {
                                    assert(false);
                                },
                            }
                        }
                        assert forall|i: int| 0 <= i < fns.drop_first().len() implies ((
                        #[trigger] fns.drop_first()[i]) matches AstV::Function {
                            name,
                            body,
                            return_type,
                        } && below_function_level_seq(body)) by {
                            assert(fns.drop_first()[i] == fns[i + 1]);
                        }
                        lemma_one_global_per_program(fns.drop_first(), stm);
                        match se_seq(fns.drop_first(), stm) {
                            ERes::Emitted(c2, st2) => {
                                assert(has_no_nl(pat));
                                lemma_occ_concat(c1, c2, pat);
                            },
                            ERes::Unbound(v) => {},
                        }
                    },
                    ERes::Unbound(v) => {},
                }
            },
            _ => {
                assert(false);
            },
        }
    }
}

/// Every emitted function ends with `ret` as its last, non-empty, line:
/// its text ends with the five characters of a newline, `ret`, and a
/// final newline.
pub proof fn lemma_function_ends_with_ret(
    name: Seq<char>,
    body: Seq<AstV>,
    rt: Seq<char>,
    st: EmitSt,
)
    ensures
        match se(AstV::Function { name, body, return_type: rt }, st) {
            ERes::Emitted(c, st1) => c.len() >= 5 && c.skip(c.len() - 5) == "\nret\n"@,
            ERes::Unbound(v) => true,
        },
{
    reveal_strlit("movq %rbp, %rsp\npopq %rbp\nret\n");
    reveal_strlit("\nret\n");
    let st1 = EmitSt { offsets: Map::empty(), stack: 0, labels: st.labels };
    match se_seq(body, st1) {
        ERes::Emitted(bc, st2) => {
            let c = prologue(name) + bc + epilogue();
            assert(epilogue().len() == 30);
            assert(c.skip(c.len() - 5) =~= epilogue().skip(25));
            assert(epilogue().skip(25) =~= "\nret\n"@);
        },
        ERes::Unbound(v) => {},
    }
}

/// A non-empty program's text ends with `ret` as its last non-empty
/// line: the fixed epilogue of its last function closes the output.
pub proof fn lemma_program_ends_with_ret(fns: Seq<AstV>, st: EmitSt)
    requires
        program_shaped(fns),
        fns.len() > 0,
    ensures
        match se(AstV::Program(fns), st) {
            ERes::Emitted(c, st1) => c.len() >= 5 && c.skip(c.len() - 5) == "\nret\n"@,
            ERes::Unbound(v) => true,
        },
    decreases fns.len(),
{
    assert(se(AstV::Program(fns), st) == se_seq(fns, st));
    match fns[0] {
        AstV::Function { name, body, return_type } => {
            assert(fns[0] == AstV::Function { name, body, return_type });
            lemma_function_ends_with_ret(name, body, return_type, st);
            match se(fns[0], st) {
                ERes::Emitted(c1, stm) => {
                    assert(c1.len() >= 5 && c1.skip(c1.len() - 5) == "\nret\n"@);
                    assert forall|i: int| 0 <= i < fns.drop_first().len() implies ((
                    #[trigger] fns.drop_first()[i]) matches AstV::Function {
                        name,
                        body,
                        return_type,
                    } && below_function_level_seq(body)) by {
                        assert(fns.drop_first()[i] == fns[i + 1]);
                    }
                    if fns.len() == 1 {
                        match se_seq(fns.drop_first(), stm) {
                            ERes::Emitted(c2, st2) => {
                                assert(se_seq(fns, st) == ERes::Emitted(c1 + c2, st2));
                                assert(c2 =~= Seq::<char>::empty());
                                assert(c1 + c2 =~= c1);
                            },
                            ERes::Unbound(v) => {},
                        }
                    } else {
                        lemma_program_ends_with_ret(fns.drop_first(), stm);
                        assert(se(AstV::Program(fns.drop_first()), stm) == se_seq(
                            fns.drop_first(),
                            stm,
                        ));
                        match se_seq(fns.drop_first(), stm) {
                            ERes::Emitted(c2, st2) => {
                                assert(se_seq(fns, st) == ERes::Emitted(c1 + c2, st2));
                                assert(c2.len() >= 5);
                                assert((c1 + c2).skip((c1 + c2).len() - 5) =~= c2.skip(
                                    c2.len() - 5,
                                ));
                            },
                            ERes::Unbound(v) => {},
                        }
                    }
                },
                ERes::Unbound(v) => {},
            }
        },
        _ => {
            assert(false);
        },
    }
}


// ---------------------------------------------------------------------
// The parser only builds well-formed trees
// ---------------------------------------------------------------------

/// The scanner never makes an identifier or keyword token out of anything
/// but identifier characters.
pub open spec fn token_names_wf(t: TokenV) -> bool {
    match t {
        TokenV::Ident(s) => ident_seq(s),
        TokenV::Keyword(s) => ident_seq(s),
        _ => true,
    }
}

/// Every token of the stream has a well-formed payload.
pub open spec fn stream_wf(ts: TokenStream) -> bool {
    forall|k: int| 0 <= k < ts.toks.len() ==> token_names_wf(#[trigger] ts.toks[k])
}

proof fn lemma_scan_token_wf(s: Seq<char>, pos: int)
    requires
        0 <= pos <= s.len(),
    ensures
        match spec_scan(s, pos) {
            ScanResult::Tok(t, p) => token_names_wf(t),
            ScanResult::Fail(e) => true,
        },
    decreases s.len() - pos,
{
    reveal_strlit("int");
    reveal_strlit("return");
    reveal_strlit("if");
    reveal_strlit("else");
    if pos < s.len() {
        let c = s[pos];
        if is_ws_char(c) {
            lemma_scan_token_wf(s, pos + 1);
        } else if is_ident_start_char(c) && !is_digit_char(c) && !(c == '+' || c == '-' || c
            == '*' || c == '/' || c == '(' || c == ')' || c == '{' || c == '}' || c == ';' || c
            == ':' || c == '?' || c == '~' || c == '&' || c == '|' || c == '!' || c == '=' || c
            == '<' || c == '>') {
            let end = ident_run_end(s, pos + 1);
            crate::lexer::lemma_ident_run_bounds(s, pos + 1);
            crate::lexer::lemma_ident_run_chars(s, pos + 1);
            let run = s.subrange(pos, end);
            assert forall|i: int| 0 <= i < run.len() implies is_ident_char(
                #[trigger] run[i],
            ) by {
                assert(run[i] == s[pos + i]);
            }
            assert(ident_seq(run));
        }
    }
}

/// The token stream of any text has well-formed payloads throughout.
pub proof fn lemma_stream_wf(s: Seq<char>, pos: int)
    requires
        0 <= pos <= s.len(),
    ensures
        stream_wf(scan_stream(s, pos)),
    decreases s.len() - pos,
{
    lemma_scan_token_wf(s, pos);
    match spec_scan(s, pos) {
        ScanResult::Tok(t, p) => {
            if !(t is EOF) {
                crate::lexer::lemma_scan_bounds(s, pos);
                lemma_stream_wf(s, p);
                let rest = scan_stream(s, p);
                let ts = scan_stream(s, pos);
                assert forall|k: int| 0 <= k < ts.toks.len() implies token_names_wf(
                    #[trigger] ts.toks[k],
                ) by {
                    if k == 0 {
                        assert(ts.toks[0] == t);
                    } else {
                        assert(ts.toks[k] == rest.toks[k - 1]);
                    }
                }
            }
        },
        ScanResult::Fail(e) => {},
    }
}

/// A name read off a token of a well-formed stream is an identifier.
proof fn lemma_stream_ident(ts: TokenStream, i: int, name: Seq<char>)
    requires
        stream_wf(ts),
        stream_at(ts, i) == StreamTok::Tk(TokenV::Ident(name)),
    ensures
        ident_seq(name),
{
    assert(0 <= i < ts.toks.len());
    assert(token_names_wf(ts.toks[i]));
}

/// What a well-formed parse of an expression or statement yields: every
/// name an identifier, nothing above the function level.
pub open spec fn wf_stmt_result(r: PRes<AstV>) -> bool {
    match r {
        PRes::Parsed(ast, j) => names_wf(ast) && below_function_level(ast),
        PRes::Failed(e) => true,
    }
}

#[verifier::rlimit(100)]
#[verifier::spinoff_prover]
proof fn lemma_parse_factor_wf(ts: TokenStream, i: int)
    requires
        stream_wf(ts),
    ensures
        wf_stmt_result(spec_parse_factor(ts, i)),
    decreases ts.toks.len() - i, 0int,
{
    match stream_at(ts, i) {
        StreamTok::Broken(e) => {},
        StreamTok::Tk(t) => match t {
            TokenV::Minus => {
                lemma_parse_factor_wf(ts, i + 1);
            },
            TokenV::Bitwise => {
                lemma_parse_factor_wf(ts, i + 1);
            },
            TokenV::LogicalNot => {
                lemma_parse_factor_wf(ts, i + 1);
            },
            TokenV::LParen => {
                lemma_parse_expression_wf(ts, i + 1);
            },
            TokenV::Ident(name) => {
                lemma_stream_ident(ts, i, name);
            },
            _ => {},
        },
    }
}

#[verifier::rlimit(100)]
#[verifier::spinoff_prover]
proof fn lemma_parse_term_wf(ts: TokenStream, i: int)
    requires
        stream_wf(ts),
    ensures
        wf_stmt_result(spec_parse_term(ts, i)),
    decreases ts.toks.len() - i, 3int,
{
    lemma_parse_factor_wf(ts, i);
    match spec_parse_factor(ts, i) {
        PRes::Parsed(l, j) => {
            if 0 <= i < ts.toks.len() {
                lemma_parse_term_rest_wf(ts, past(ts, i, j), l);
            }
        },
        PRes::Failed(e) => {},
    }
}

#[verifier::rlimit(100)]
#[verifier::spinoff_prover]
proof fn lemma_parse_term_rest_wf(ts: TokenStream, i: int, left: AstV)
    requires
        stream_wf(ts),
        names_wf(left),
        below_function_level(left),
    ensures
        wf_stmt_result(spec_parse_term_rest(ts, i, left)),
    decreases ts.toks.len() - i, 2int,
{
    match stream_at(ts, i) {
        StreamTok::Broken(e) => {},
        StreamTok::Tk(t) => {
            if t is Star || t is Slash {
                let op = if t is Star {
                    BinaryOp::Multiplication
                } else {
                    BinaryOp::Division
                };
                match sp_adv(ts, i) {
                    PRes::Failed(e) => {},
                    PRes::Parsed(u, x) => {
                        lemma_parse_factor_wf(ts, i + 1);
                        match spec_parse_factor(ts, i + 1) {
                            PRes::Failed(e) => {},
                            PRes::Parsed(r, k) => {
                                lemma_parse_term_rest_wf(
                                    ts,
                                    past(ts, i, k),
                                    AstV::BinaryOp(Box::new(left), op, Box::new(r)),
                                );
                            },
                        }
                    },
                }
            }
        },
    }
}

#[verifier::rlimit(100)]
#[verifier::spinoff_prover]
proof fn lemma_parse_additive_wf(ts: TokenStream, i: int)
    requires
        stream_wf(ts),
    ensures
        wf_stmt_result(spec_parse_additive(ts, i)),
    decreases ts.toks.len() - i, 5int,
{
    lemma_parse_term_wf(ts, i);
    match spec_parse_term(ts, i) {
        PRes::Parsed(l, j) => {
            if 0 <= i < ts.toks.len() {
                lemma_parse_additive_rest_wf(ts, past(ts, i, j), l);
            }
        },
        PRes::Failed(e) => {},
    }
}

#[verifier::rlimit(100)]
#[verifier::spinoff_prover]
proof fn lemma_parse_additive_rest_wf(ts: TokenStream, i: int, left: AstV)
    requires
        stream_wf(ts),
        names_wf(left),
        below_function_level(left),
    ensures
        wf_stmt_result(spec_parse_additive_rest(ts, i, left)),
    decreases ts.toks.len() - i, 4int,
{
    match stream_at(ts, i) {
        StreamTok::Broken(e) => {},
        StreamTok::Tk(t) => {
            if t is Plus || t is Minus {
                let op = if t is Plus {
                    BinaryOp::Addition
                } else {
                    BinaryOp::Subtraction
                };
                match sp_adv(ts, i) {
                    PRes::Failed(e) => {},
                    PRes::Parsed(u, x) => {
                        lemma_parse_term_wf(ts, i + 1);
                        match spec_parse_term(ts, i + 1) {
                            PRes::Failed(e) => {},
                            PRes::Parsed(r, k) => {
                                lemma_parse_additive_rest_wf(
                                    ts,
                                    past(ts, i, k),
                                    AstV::BinaryOp(Box::new(left), op, Box::new(r)),
                                );
                            },
                        }
                    },
                }
            }
        },
    }
}

#[verifier::rlimit(100)]
#[verifier::spinoff_prover]
proof fn lemma_parse_relational_wf(ts: TokenStream, i: int)
    requires
        stream_wf(ts),
    ensures
        wf_stmt_result(spec_parse_relational(ts, i)),
    decreases ts.toks.len() - i, 7int,
{
    lemma_parse_additive_wf(ts, i);
    match spec_parse_additive(ts, i) {
        PRes::Parsed(l, j) => {
            if 0 <= i < ts.toks.len() {
                lemma_parse_relational_rest_wf(ts, past(ts, i, j), l);
            }
        },
        PRes::Failed(e) => {},
    }
}

#[verifier::rlimit(100)]
#[verifier::spinoff_prover]
proof fn lemma_parse_relational_rest_wf(ts: TokenStream, i: int, left: AstV)
    requires
        stream_wf(ts),
        names_wf(left),
        below_function_level(left),
    ensures
        wf_stmt_result(spec_parse_relational_rest(ts, i, left)),
    decreases ts.toks.len() - i, 6int,
{
    match stream_at(ts, i) {
        StreamTok::Broken(e) => {},
        StreamTok::Tk(t) => {
            if t is Less || t is GreatTh || t is LessEq || t is GreatThEq {
                let op = if t is Less {
                    BinaryOp::Less
                } else if t is GreatTh {
                    BinaryOp::Greater
                } else if t is LessEq {
                    BinaryOp::LessEq
                } else {
                    BinaryOp::GreaterEq
                };
                match sp_adv(ts, i) {
                    PRes::Failed(e) => {},
                    PRes::Parsed(u, x) => {
                        lemma_parse_additive_wf(ts, i + 1);
                        match spec_parse_additive(ts, i + 1) {
                            PRes::Failed(e) => {},
                            PRes::Parsed(r, k) => {
                                lemma_parse_relational_rest_wf(
                                    ts,
                                    past(ts, i, k),
                                    AstV::BinaryOp(Box::new(left), op, Box::new(r)),
                                );
                            },
                        }
                    },
                }
            }
        },
    }
}

#[verifier::rlimit(100)]
#[verifier::spinoff_prover]
proof fn lemma_parse_equality_wf(ts: TokenStream, i: int)
    requires
        stream_wf(ts),
    ensures
        wf_stmt_result(spec_parse_equality(ts, i)),
    decreases ts.toks.len() - i, 9int,
{
    lemma_parse_relational_wf(ts, i);
    match spec_parse_relational(ts, i) {
        PRes::Parsed(l, j) => {
            if 0 <= i < ts.toks.len() {
                lemma_parse_equality_rest_wf(ts, past(ts, i, j), l);
            }
        },
        PRes::Failed(e) => {},
    }
}

#[verifier::rlimit(100)]
#[verifier::spinoff_prover]
proof fn lemma_parse_equality_rest_wf(ts: TokenStream, i: int, left: AstV)
    requires
        stream_wf(ts),
        names_wf(left),
        below_function_level(left),
    ensures
        wf_stmt_result(spec_parse_equality_rest(ts, i, left)),
    decreases ts.toks.len() - i, 8int,
{
    match stream_at(ts, i) {
        StreamTok::Broken(e) => {},
        StreamTok::Tk(t) => {
            if t is EqualTo || t is NEqualTo {
                let op = if t is EqualTo {
                    BinaryOp::Equal
                } else {
                    BinaryOp::NotEq
                };
                match sp_adv(ts, i) {
                    PRes::Failed(e) => {},
                    PRes::Parsed(u, x) => {
                        lemma_parse_relational_wf(ts, i + 1);
                        match spec_parse_relational(ts, i + 1) {
                            PRes::Failed(e) => {},
                            PRes::Parsed(r, k) => {
                                lemma_parse_equality_rest_wf(
                                    ts,
                                    past(ts, i, k),
                                    AstV::BinaryOp(Box::new(left), op, Box::new(r)),
                                );
                            },
                        }
                    },
                }
            }
        },
    }
}

#[verifier::rlimit(100)]
#[verifier::spinoff_prover]
proof fn lemma_parse_logical_and_wf(ts: TokenStream, i: int)
    requires
        stream_wf(ts),
    ensures
        wf_stmt_result(spec_parse_logical_and(ts, i)),
    decreases ts.toks.len() - i, 11int,
{
    lemma_parse_equality_wf(ts, i);
    match spec_parse_equality(ts, i) {
        PRes::Parsed(l, j) => {
            if 0 <= i < ts.toks.len() {
                lemma_parse_logical_and_rest_wf(ts, past(ts, i, j), l);
            }
        },
        PRes::Failed(e) => {},
    }
}

#[verifier::rlimit(100)]
#[verifier::spinoff_prover]
proof fn lemma_parse_logical_and_rest_wf(ts: TokenStream, i: int, left: AstV)
    requires
        stream_wf(ts),
        names_wf(left),
        below_function_level(left),
    ensures
        wf_stmt_result(spec_parse_logical_and_rest(ts, i, left)),
    decreases ts.toks.len() - i, 10int,
{
    match stream_at(ts, i) {
        StreamTok::Broken(e) => {},
        StreamTok::Tk(t) => {
            if t is LogAnd {
                match sp_adv(ts, i) {
                    PRes::Failed(e) => {},
                    PRes::Parsed(u, x) => {
                        lemma_parse_equality_wf(ts, i + 1);
                        match spec_parse_equality(ts, i + 1) {
                            PRes::Failed(e) => {},
                            PRes::Parsed(r, k) => {
                                lemma_parse_logical_and_rest_wf(
                                    ts,
                                    past(ts, i, k),
                                    AstV::BinaryOp(
                                        Box::new(left),
                                        BinaryOp::LogAnd,
                                        Box::new(r),
                                    ),
                                );
                            },
                        }
                    },
                }
            }
        },
    }
}

#[verifier::rlimit(100)]
#[verifier::spinoff_prover]
proof fn lemma_parse_logical_or_wf(ts: TokenStream, i: int)
    requires
        stream_wf(ts),
    ensures
        wf_stmt_result(spec_parse_logical_or(ts, i)),
    decreases ts.toks.len() - i, 13int,
{
    lemma_parse_logical_and_wf(ts, i);
    match spec_parse_logical_and(ts, i) {
        PRes::Parsed(l, j) => {
            if 0 <= i < ts.toks.len() {
                lemma_parse_logical_or_rest_wf(ts, past(ts, i, j), l);
            }
        },
        PRes::Failed(e) => {},
    }
}

#[verifier::rlimit(100)]
#[verifier::spinoff_prover]
proof fn lemma_parse_logical_or_rest_wf(ts: TokenStream, i: int, left: AstV)
    requires
        stream_wf(ts),
        names_wf(left),
        below_function_level(left),
    ensures
        wf_stmt_result(spec_parse_logical_or_rest(ts, i, left)),
    decreases ts.toks.len() - i, 12int,
{
    match stream_at(ts, i) {
        StreamTok::Broken(e) => {},
        StreamTok::Tk(t) => {
            if t is LogOr {
                match sp_adv(ts, i) {
                    PRes::Failed(e) => {},
                    PRes::Parsed(u, x) => {
                        lemma_parse_logical_and_wf(ts, i + 1);
                        match spec_parse_logical_and(ts, i + 1) {
                            PRes::Failed(e) => {},
                            PRes::Parsed(r, k) => {
                                lemma_parse_logical_or_rest_wf(
                                    ts,
                                    past(ts, i, k),
                                    AstV::BinaryOp(
                                        Box::new(left),
                                        BinaryOp::LogOr,
                                        Box::new(r),
                                    ),
                                );
                            },
                        }
                    },
                }
            }
        },
    }
}

#[verifier::rlimit(100)]
#[verifier::spinoff_prover]
proof fn lemma_parse_expression_wf(ts: TokenStream, i: int)
    requires
        stream_wf(ts),
    ensures
        wf_stmt_result(spec_parse_expression(ts, i)),
    decreases ts.toks.len() - i, 14int,
{
    lemma_parse_logical_or_wf(ts, i);
}

#[verifier::rlimit(100)]
#[verifier::spinoff_prover]
proof fn lemma_parse_declare_wf(ts: TokenStream, i: int)
    requires
        stream_wf(ts),
    ensures
        wf_stmt_result(spec_parse_declare(ts, i)),
    decreases ts.toks.len() - i, 1int,
{
    match sp_eat(ts, i, TokenV::Keyword("int"@)) {
        PRes::Failed(e) => {},
        PRes::Parsed(u0, x0) => {
            match stream_at(ts, i + 1) {
                StreamTok::Broken(e) => {},
                StreamTok::Tk(t) => match t {
                    TokenV::Ident(name) => {
                        lemma_stream_ident(ts, i + 1, name);
                        if stream_at(ts, i + 2) matches StreamTok::Tk(TokenV::Assign) {
                            lemma_parse_expression_wf(ts, i + 3);
                        }
                    },
                    _ => {},
                },
            }
        },
    }
}

#[verifier::rlimit(100)]
#[verifier::spinoff_prover]
proof fn lemma_parse_assignment_wf(ts: TokenStream, i: int)
    requires
        stream_wf(ts),
    ensures
        wf_stmt_result(spec_parse_assignment(ts, i)),
    decreases ts.toks.len() - i, 15int,
{
    match stream_at(ts, i) {
        StreamTok::Broken(e) => {},
        StreamTok::Tk(t) => match t {
            TokenV::Ident(name) => {
                lemma_stream_ident(ts, i, name);
                lemma_parse_expression_wf(ts, i + 2);
            },
            _ => {},
        },
    }
}

#[verifier::rlimit(100)]
#[verifier::spinoff_prover]
proof fn lemma_parse_return_wf(ts: TokenStream, i: int)
    requires
        stream_wf(ts),
    ensures
        wf_stmt_result(spec_parse_return(ts, i)),
    decreases ts.toks.len() - i, 15int,
{
    lemma_parse_expression_wf(ts, i + 1);
}

#[verifier::rlimit(100)]
#[verifier::spinoff_prover]
proof fn lemma_parse_statement_wf(ts: TokenStream, i: int)
    requires
        stream_wf(ts),
    ensures
        wf_stmt_result(spec_parse_statement(ts, i)),
    decreases ts.toks.len() - i, 16int,
{
    match stream_at(ts, i) {
        StreamTok::Broken(e) => {},
        StreamTok::Tk(t) => match t {
            TokenV::Keyword(k) => {
                if k == "return"@ {
                    lemma_parse_return_wf(ts, i);
                } else if k == "int"@ {
                    lemma_parse_declare_wf(ts, i);
                }
            },
            TokenV::Ident(name) => {
                lemma_parse_assignment_wf(ts, i);
            },
            _ => {},
        },
    }
}

#[verifier::rlimit(100)]
#[verifier::spinoff_prover]
proof fn lemma_parse_stmt_list_wf(ts: TokenStream, i: int)
    requires
        stream_wf(ts),
    ensures
        match spec_parse_stmt_list(ts, i) {
            PRes::Parsed(sts, j) => names_wf_seq(sts) && below_function_level_seq(sts),
            PRes::Failed(e) => true,
        },
    decreases ts.toks.len() - i, 17int,
{
    match stream_at(ts, i) {
        StreamTok::Broken(e) => {},
        StreamTok::Tk(t) => {
            if t is RBrace {
            } else {
                lemma_parse_statement_wf(ts, i);
                match spec_parse_statement(ts, i) {
                    PRes::Failed(e) => {},
                    PRes::Parsed(s0, j) => {
                        if 0 <= i < ts.toks.len() {
                            lemma_parse_stmt_list_wf(ts, past(ts, i, j));
                            match spec_parse_stmt_list(ts, past(ts, i, j)) {
                                PRes::Failed(e) => {},
                                PRes::Parsed(rest, k) => {
                                    let whole = seq![s0] + rest;
                                    assert(whole[0] == s0);
                                    assert(whole.drop_first() =~= rest);
                                    assert(names_wf_seq(whole));
                                    assert forall|m: int|
                                        0 <= m < whole.len() implies below_function_level(
                                        #[trigger] whole[m],
                                    ) by {
                                        if m > 0 {
                                            assert(whole[m] == rest[m - 1]);
                                        }
                                    }
                                },
                            }
                        }
                    },
                }
            }
        },
    }
}

#[verifier::rlimit(100)]
#[verifier::spinoff_prover]
proof fn lemma_parse_function_wf(ts: TokenStream, i: int)
    requires
        stream_wf(ts),
    ensures
        match spec_parse_function(ts, i) {
            PRes::Parsed(f, j) => names_wf(f) && (f matches AstV::Function {
                name,
                body,
                return_type,
            } && below_function_level_seq(body)),
            PRes::Failed(e) => true,
        },
    decreases ts.toks.len() - i, 18int,
{
    match spec_parse_type(ts, i) {
        PRes::Failed(e) => {},
        PRes::Parsed(rt, x0) => {
            match stream_at(ts, i + 1) {
                StreamTok::Broken(e) => {},
                StreamTok::Tk(t) => match t {
                    TokenV::Ident(name) => {
                        lemma_stream_ident(ts, i + 1, name);
                        lemma_parse_stmt_list_wf(ts, i + 5);
                    },
                    _ => {},
                },
            }
        },
    }
}

#[verifier::rlimit(100)]
#[verifier::spinoff_prover]
proof fn lemma_parse_program_wf(ts: TokenStream, i: int)
    requires
        stream_wf(ts),
    ensures
        match spec_parse_program(ts, i) {
            PRes::Parsed(fs, j) => names_wf_seq(fs) && program_shaped(fs),
            PRes::Failed(e) => true,
        },
    decreases ts.toks.len() - i, 19int,
{
    match stream_at(ts, i) {
        StreamTok::Broken(e) => {},
        StreamTok::Tk(t) => {
            if t is EOF {
            } else {
                lemma_parse_function_wf(ts, i);
                match spec_parse_function(ts, i) {
                    PRes::Failed(e) => {},
                    PRes::Parsed(f, j) => {
                        if 0 <= i < ts.toks.len() {
                            lemma_parse_program_wf(ts, past(ts, i, j));
                            match spec_parse_program(ts, past(ts, i, j)) {
                                PRes::Failed(e) => {},
                                PRes::Parsed(fs, k) => {
                                    let whole = seq![f] + fs;
                                    assert(whole[0] == f);
                                    assert(whole.drop_first() =~= fs);
                                    assert(names_wf_seq(whole));
                                    assert forall|m: int|
                                        0 <= m < whole.len() implies ((
                                        #[trigger] whole[m]) matches AstV::Function {
                                            name,
                                            body,
                                            return_type,
                                        } && below_function_level_seq(body)) by {
                                        if m > 0 {
                                            assert(whole[m] == fs[m - 1]);
                                        }
                                    }
                                },
                            }
                        }
                    },
                }
            }
        },
    }
}

/// Every program the parser accepts is well-formed: its names are
/// identifiers and its functions' bodies stay below the function level —
/// exactly the hypotheses of the emission laws above.
pub proof fn lemma_parsed_programs_are_wf(s: Seq<char>)
    ensures
        match spec_parse_program(spec_tokens(s), 0) {
            PRes::Parsed(fs, j) => names_wf_seq(fs) && program_shaped(fs),
            PRes::Failed(e) => true,
        },
{
    lemma_stream_wf(s, 0);
    lemma_parse_program_wf(spec_tokens(s), 0);
}

} // verus!
