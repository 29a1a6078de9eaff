//! The parser: hand-written recursive descent with one token of lookahead.
//!
//! [`Parser`] pulls tokens from the scanner on demand through a one-token
//! lookahead buffer and produces a single tree rooted in
//! [`ASTNode::Program`]. One parsing function per precedence level; all
//! binary operators are left-associative, unary operators bind tighter and
//! associate to the right.
//!
//! The behaviour is pinned to the specification parser (`spec_parse_*`),
//! a family of functions over the token stream of the input. Because the
//! parser is streaming, consuming a token also scans the next one; a
//! scanning error therefore surfaces at the moment the parser passes the
//! last healthy token, which the specification mirrors through [`sp_adv`].

use vstd::prelude::*;
use crate::lexer::{Lexer, LexError, Token, TokenV, TokenStream, ScanResult, spec_scan, scan_stream,
    spec_tokens, str_eq, token_eq};
use crate::ast::{ASTNode, AstV, UnaryOp, BinaryOp, ParseError, ParseErrorV, CompileError,
    CompileErrorV, ast_view, ast_views, lemma_ast_views_push};

verus! {

// ---------------------------------------------------------------------
// Reading the token stream
// ---------------------------------------------------------------------

/// What stands at a position of the token stream: a token (`EOF` beyond the
/// end), or the scanning error that cut the stream short.
pub enum StreamTok {
    Tk(TokenV),
    Broken(LexError),
}

/// The token at position `i` of the stream. Past the last token the stream
/// yields `EOF` forever, or the terminal scanning error if there is one.
pub open spec fn stream_at(ts: TokenStream, i: int) -> StreamTok {
    if 0 <= i < ts.toks.len() {
        StreamTok::Tk(ts.toks[i])
    } else {
        match ts.terminal {
            Some(e) => StreamTok::Broken(e),
            None => StreamTok::Tk(TokenV::EOF),
        }
    }
}

/// The outcome of a specification parse: a value and the position after it,
/// or the error that stops the pipeline.
pub enum PRes<T> {
    Parsed(T, int),
    Failed(CompileErrorV),
}

/// The position after a sub-parse that started at `i` and reported ending
/// at `j`. Every successful parse consumes at least one token and never
/// passes the end of the stream, so in every reachable case
/// `past(ts, i, j) == j`; the floor at `i + 1` and the ceiling at the
/// stream's length keep the recursion below well-founded.
pub open spec fn past(ts: TokenStream, i: int, j: int) -> int {
    let p = if j > i {
        j
    } else {
        i + 1
    };
    if p > ts.toks.len() {
        ts.toks.len() as int
    } else {
        p
    }
}

/// Consuming the (real) token at `i`: the parser refills its lookahead
/// from the scanner, so a scanning error at `i + 1` surfaces here.
pub open spec fn sp_adv(ts: TokenStream, i: int) -> PRes<()> {
    match stream_at(ts, i + 1) {
        StreamTok::Tk(t) => PRes::Parsed((), i + 1),
        StreamTok::Broken(e) => PRes::Failed(CompileErrorV::Lex(e)),
    }
}

/// `eat`: the current token must match `expected` structurally; then the
/// parser advances. Consuming the end of the stream leaves it at the end.
pub open spec fn sp_eat(ts: TokenStream, i: int, expected: TokenV) -> PRes<()> {
    match stream_at(ts, i) {
        StreamTok::Broken(e) => PRes::Failed(CompileErrorV::Lex(e)),
        StreamTok::Tk(t) => if t == expected {
            if t is EOF {
                PRes::Parsed((), i)
            } else {
                sp_adv(ts, i)
            }
        } else {
            PRes::Failed(
                CompileErrorV::Parse(ParseErrorV::UnexpectedToken { found: t, expected }),
            )
        },
    }
}

// ---------------------------------------------------------------------
// The grammar, as specification functions
// ---------------------------------------------------------------------

/// `factor := NUMBER | IDENT | '(' expression ')' | ('-'|'~'|'!') factor`
pub open spec fn spec_parse_factor(ts: TokenStream, i: int) -> PRes<AstV>
    decreases ts.toks.len() - i, 0int,
{
    match stream_at(ts, i) {
        StreamTok::Broken(e) => PRes::Failed(CompileErrorV::Lex(e)),
        StreamTok::Tk(t) => match t {
            TokenV::Number(v) => match sp_adv(ts, i) {
                PRes::Failed(e) => PRes::Failed(e),
                PRes::Parsed(u, j) => PRes::Parsed(AstV::Constant(v), j),
            },
            TokenV::Minus => match sp_adv(ts, i) {
                PRes::Failed(e) => PRes::Failed(e),
                PRes::Parsed(u, x) => match spec_parse_factor(ts, i + 1) {
                    PRes::Failed(e) => PRes::Failed(e),
                    PRes::Parsed(e0, j) => PRes::Parsed(
                        AstV::UnaryOp(UnaryOp::Negate, Box::new(e0)),
                        j,
                    ),
                },
            },
            TokenV::Bitwise => match sp_adv(ts, i) {
                PRes::Failed(e) => PRes::Failed(e),
                PRes::Parsed(u, x) => match spec_parse_factor(ts, i + 1) {
                    PRes::Failed(e) => PRes::Failed(e),
                    PRes::Parsed(e0, j) => PRes::Parsed(
                        AstV::UnaryOp(UnaryOp::BitNot, Box::new(e0)),
                        j,
                    ),
                },
            },
            TokenV::LogicalNot => match sp_adv(ts, i) {
                PRes::Failed(e) => PRes::Failed(e),
                PRes::Parsed(u, x) => match spec_parse_factor(ts, i + 1) {
                    PRes::Failed(e) => PRes::Failed(e),
                    PRes::Parsed(e0, j) => PRes::Parsed(
                        AstV::UnaryOp(UnaryOp::Not, Box::new(e0)),
                        j,
                    ),
                },
            },
            TokenV::LParen => match sp_adv(ts, i) {
                PRes::Failed(e) => PRes::Failed(e),
                PRes::Parsed(u, x) => match spec_parse_expression(ts, i + 1) {
                    PRes::Failed(e) => PRes::Failed(e),
                    PRes::Parsed(e0, j) => match sp_eat(ts, j, TokenV::RParen) {
                        PRes::Failed(er) => PRes::Failed(er),
                        PRes::Parsed(u2, j1) => PRes::Parsed(e0, j1),
                    },
                },
            },
            TokenV::Ident(name) => match sp_adv(ts, i) {
                PRes::Failed(e) => PRes::Failed(e),
                PRes::Parsed(u, j) => PRes::Parsed(AstV::Var(name), j),
            },
            _ => PRes::Failed(CompileErrorV::Parse(ParseErrorV::UnexpectedTokenInFactor(t))),
        },
    }
}

/// `term := factor (('*'|'/') factor)*`
pub open spec fn spec_parse_term(ts: TokenStream, i: int) -> PRes<AstV>
    decreases ts.toks.len() - i, 3int,
{
    match spec_parse_factor(ts, i) {
        PRes::Failed(e) => PRes::Failed(e),
        PRes::Parsed(l, j) => if 0 <= i < ts.toks.len() {
            spec_parse_term_rest(ts, past(ts, i, j), l)
        } else {
            PRes::Parsed(l, j)
        },
    }
}

pub open spec fn spec_parse_term_rest(ts: TokenStream, i: int, left: AstV) -> PRes<AstV>
    decreases ts.toks.len() - i, 2int,
{
    match stream_at(ts, i) {
        StreamTok::Broken(e) => PRes::Failed(CompileErrorV::Lex(e)),
        StreamTok::Tk(t) => if t is Star || t is Slash {
            let op = if t is Star {
                BinaryOp::Multiplication
            } else {
                BinaryOp::Division
            };
            match sp_adv(ts, i) {
                PRes::Failed(e) => PRes::Failed(e),
                PRes::Parsed(u, x) => match spec_parse_factor(ts, i + 1) {
                    PRes::Failed(e) => PRes::Failed(e),
                    PRes::Parsed(r, k) => spec_parse_term_rest(
                        ts,
                        past(ts, i, k),
                        AstV::BinaryOp(Box::new(left), op, Box::new(r)),
                    ),
                },
            }
        } else {
            PRes::Parsed(left, i)
        },
    }
}

/// `additive := term (('+'|'-') term)*`
pub open spec fn spec_parse_additive(ts: TokenStream, i: int) -> PRes<AstV>
    decreases ts.toks.len() - i, 5int,
{
    match spec_parse_term(ts, i) {
        PRes::Failed(e) => PRes::Failed(e),
        PRes::Parsed(l, j) => if 0 <= i < ts.toks.len() {
            spec_parse_additive_rest(ts, past(ts, i, j), l)
        } else {
            PRes::Parsed(l, j)
        },
    }
}

pub open spec fn spec_parse_additive_rest(ts: TokenStream, i: int, left: AstV) -> PRes<AstV>
    decreases ts.toks.len() - i, 4int,
{
    match stream_at(ts, i) {
        StreamTok::Broken(e) => PRes::Failed(CompileErrorV::Lex(e)),
        StreamTok::Tk(t) => if t is Plus || t is Minus {
            let op = if t is Plus {
                BinaryOp::Addition
            } else {
                BinaryOp::Subtraction
            };
            match sp_adv(ts, i) {
                PRes::Failed(e) => PRes::Failed(e),
                PRes::Parsed(u, x) => match spec_parse_term(ts, i + 1) {
                    PRes::Failed(e) => PRes::Failed(e),
                    PRes::Parsed(r, k) => spec_parse_additive_rest(
                        ts,
                        past(ts, i, k),
                        AstV::BinaryOp(Box::new(left), op, Box::new(r)),
                    ),
                },
            }
        } else {
            PRes::Parsed(left, i)
        },
    }
}

/// `relational := additive (('<'|'>'|'<='|'>=') additive)*`
pub open spec fn spec_parse_relational(ts: TokenStream, i: int) -> PRes<AstV>
    decreases ts.toks.len() - i, 7int,
{
    match spec_parse_additive(ts, i) {
        PRes::Failed(e) => PRes::Failed(e),
        PRes::Parsed(l, j) => if 0 <= i < ts.toks.len() {
            spec_parse_relational_rest(ts, past(ts, i, j), l)
        } else {
            PRes::Parsed(l, j)
        },
    }
}

pub open spec fn spec_parse_relational_rest(ts: TokenStream, i: int, left: AstV) -> PRes<AstV>
    decreases ts.toks.len() - i, 6int,
{
    match stream_at(ts, i) {
        StreamTok::Broken(e) => PRes::Failed(CompileErrorV::Lex(e)),
        StreamTok::Tk(t) => if t is Less || t is GreatTh || t is LessEq || t is GreatThEq {
            let op = if t is Less {
                BinaryOp::Less
            } else if t is GreatTh {
                BinaryOp::Greater
            } else if t is LessEq {
                BinaryOp::LessEq
            } else {
                BinaryOp::GreaterEq
            };
            match sp_adv(ts, i) {
                PRes::Failed(e) => PRes::Failed(e),
                PRes::Parsed(u, x) => match spec_parse_additive(ts, i + 1) {
                    PRes::Failed(e) => PRes::Failed(e),
                    PRes::Parsed(r, k) => spec_parse_relational_rest(
                        ts,
                        past(ts, i, k),
                        AstV::BinaryOp(Box::new(left), op, Box::new(r)),
                    ),
                },
            }
        } else {
            PRes::Parsed(left, i)
        },
    }
}

/// `equality := relational (('=='|'!=') relational)*`
pub open spec fn spec_parse_equality(ts: TokenStream, i: int) -> PRes<AstV>
    decreases ts.toks.len() - i, 9int,
{
    match spec_parse_relational(ts, i) {
        PRes::Failed(e) => PRes::Failed(e),
        PRes::Parsed(l, j) => if 0 <= i < ts.toks.len() {
            spec_parse_equality_rest(ts, past(ts, i, j), l)
        } else {
            PRes::Parsed(l, j)
        },
    }
}

pub open spec fn spec_parse_equality_rest(ts: TokenStream, i: int, left: AstV) -> PRes<AstV>
    decreases ts.toks.len() - i, 8int,
{
    match stream_at(ts, i) {
        StreamTok::Broken(e) => PRes::Failed(CompileErrorV::Lex(e)),
        StreamTok::Tk(t) => if t is EqualTo || t is NEqualTo {
            let op = if t is EqualTo {
                BinaryOp::Equal
            } else {
                BinaryOp::NotEq
            };
            match sp_adv(ts, i) {
                PRes::Failed(e) => PRes::Failed(e),
                PRes::Parsed(u, x) => match spec_parse_relational(ts, i + 1) {
                    PRes::Failed(e) => PRes::Failed(e),
                    PRes::Parsed(r, k) => spec_parse_equality_rest(
                        ts,
                        past(ts, i, k),
                        AstV::BinaryOp(Box::new(left), op, Box::new(r)),
                    ),
                },
            }
        } else {
            PRes::Parsed(left, i)
        },
    }
}

/// `logical_and := equality ('&&' equality)*`
pub open spec fn spec_parse_logical_and(ts: TokenStream, i: int) -> PRes<AstV>
    decreases ts.toks.len() - i, 11int,
{
    match spec_parse_equality(ts, i) {
        PRes::Failed(e) => PRes::Failed(e),
        PRes::Parsed(l, j) => if 0 <= i < ts.toks.len() {
            spec_parse_logical_and_rest(ts, past(ts, i, j), l)
        } else {
            PRes::Parsed(l, j)
        },
    }
}

pub open spec fn spec_parse_logical_and_rest(ts: TokenStream, i: int, left: AstV) -> PRes<AstV>
    decreases ts.toks.len() - i, 10int,
{
    match stream_at(ts, i) {
        StreamTok::Broken(e) => PRes::Failed(CompileErrorV::Lex(e)),
        StreamTok::Tk(t) => if t is LogAnd {
            match sp_adv(ts, i) {
                PRes::Failed(e) => PRes::Failed(e),
                PRes::Parsed(u, x) => match spec_parse_equality(ts, i + 1) {
                    PRes::Failed(e) => PRes::Failed(e),
                    PRes::Parsed(r, k) => spec_parse_logical_and_rest(
                        ts,
                        past(ts, i, k),
                        AstV::BinaryOp(Box::new(left), BinaryOp::LogAnd, Box::new(r)),
                    ),
                },
            }
        } else {
            PRes::Parsed(left, i)
        },
    }
}

/// `logical_or := logical_and ('||' logical_and)*`
pub open spec fn spec_parse_logical_or(ts: TokenStream, i: int) -> PRes<AstV>
    decreases ts.toks.len() - i, 13int,
{
    match spec_parse_logical_and(ts, i) {
        PRes::Failed(e) => PRes::Failed(e),
        PRes::Parsed(l, j) => if 0 <= i < ts.toks.len() {
            spec_parse_logical_or_rest(ts, past(ts, i, j), l)
        } else {
            PRes::Parsed(l, j)
        },
    }
}

pub open spec fn spec_parse_logical_or_rest(ts: TokenStream, i: int, left: AstV) -> PRes<AstV>
    decreases ts.toks.len() - i, 12int,
{
    match stream_at(ts, i) {
        StreamTok::Broken(e) => PRes::Failed(CompileErrorV::Lex(e)),
        StreamTok::Tk(t) => if t is LogOr {
            match sp_adv(ts, i) {
                PRes::Failed(e) => PRes::Failed(e),
                PRes::Parsed(u, x) => match spec_parse_logical_and(ts, i + 1) {
                    PRes::Failed(e) => PRes::Failed(e),
                    PRes::Parsed(r, k) => spec_parse_logical_or_rest(
                        ts,
                        past(ts, i, k),
                        AstV::BinaryOp(Box::new(left), BinaryOp::LogOr, Box::new(r)),
                    ),
                },
            }
        } else {
            PRes::Parsed(left, i)
        },
    }
}

/// `expression := logical_or`. Assignment is handled at the statement
/// level only: an `=` after an expression is left for the caller's next
/// `eat` to reject.
pub open spec fn spec_parse_expression(ts: TokenStream, i: int) -> PRes<AstV>
    decreases ts.toks.len() - i, 14int,
{
    spec_parse_logical_or(ts, i)
}

/// `'int' IDENT ('=' expression)? ';'` — a declaration, with or without an
/// initializer.
pub open spec fn spec_parse_declare(ts: TokenStream, i: int) -> PRes<AstV>
    decreases ts.toks.len() - i, 1int,
{
    match sp_eat(ts, i, TokenV::Keyword("int"@)) {
        PRes::Failed(e) => PRes::Failed(e),
        PRes::Parsed(u0, x0) => match stream_at(ts, i + 1) {
            StreamTok::Broken(e) => PRes::Failed(CompileErrorV::Lex(e)),
            StreamTok::Tk(t) => match t {
                TokenV::Ident(name) => match sp_adv(ts, i + 1) {
                    PRes::Failed(e) => PRes::Failed(e),
                    PRes::Parsed(u1, x1) => if stream_at(ts, i + 2) matches StreamTok::Tk(
                        TokenV::Assign,
                    ) {
                        match sp_adv(ts, i + 2) {
                            PRes::Failed(e) => PRes::Failed(e),
                            PRes::Parsed(u2, x2) => match spec_parse_expression(ts, i + 3) {
                                PRes::Failed(e) => PRes::Failed(e),
                                PRes::Parsed(e0, j) => match sp_eat(ts, j, TokenV::Semi) {
                                    PRes::Failed(er) => PRes::Failed(er),
                                    PRes::Parsed(u3, j1) => PRes::Parsed(
                                        AstV::Declare(name, Some(Box::new(e0))),
                                        j1,
                                    ),
                                },
                            },
                        }
                    } else {
                        match sp_eat(ts, i + 2, TokenV::Semi) {
                            PRes::Failed(er) => PRes::Failed(er),
                            PRes::Parsed(u2, j1) => PRes::Parsed(AstV::Declare(name, None), j1),
                        }
                    },
                },
                _ => PRes::Failed(
                    CompileErrorV::Parse(ParseErrorV::ExpectedIdentifierAfterInt(t)),
                ),
            },
        },
    }
}

/// `IDENT '=' expression ';'` — an assignment statement.
pub open spec fn spec_parse_assignment(ts: TokenStream, i: int) -> PRes<AstV>
    decreases ts.toks.len() - i, 15int,
{
    match stream_at(ts, i) {
        StreamTok::Broken(e) => PRes::Failed(CompileErrorV::Lex(e)),
        StreamTok::Tk(t) => match t {
            TokenV::Ident(name) => match sp_adv(ts, i) {
                PRes::Failed(e) => PRes::Failed(e),
                PRes::Parsed(u0, x0) => if stream_at(ts, i + 1) matches StreamTok::Tk(
                    TokenV::Assign,
                ) {
                    match sp_adv(ts, i + 1) {
                        PRes::Failed(e) => PRes::Failed(e),
                        PRes::Parsed(u1, x1) => match spec_parse_expression(ts, i + 2) {
                            PRes::Failed(e) => PRes::Failed(e),
                            PRes::Parsed(e0, j) => match sp_eat(ts, j, TokenV::Semi) {
                                PRes::Failed(er) => PRes::Failed(er),
                                PRes::Parsed(u2, j1) => PRes::Parsed(
                                    AstV::Assign(name, Box::new(e0)),
                                    j1,
                                ),
                            },
                        },
                    }
                } else {
                    match stream_at(ts, i + 1) {
                        StreamTok::Tk(t2) => PRes::Failed(
                            CompileErrorV::Parse(
                                ParseErrorV::UnexpectedToken {
                                    found: t2,
                                    expected: TokenV::Assign,
                                },
                            ),
                        ),
                        StreamTok::Broken(e) => PRes::Failed(CompileErrorV::Lex(e)),
                    }
                },
            },
            _ => PRes::Failed(CompileErrorV::Parse(ParseErrorV::UnexpectedStatement(t))),
        },
    }
}

/// `'return' expression ';'`
pub open spec fn spec_parse_return(ts: TokenStream, i: int) -> PRes<AstV>
    decreases ts.toks.len() - i, 15int,
{
    match sp_eat(ts, i, TokenV::Keyword("return"@)) {
        PRes::Failed(e) => PRes::Failed(e),
        PRes::Parsed(u0, x0) => match spec_parse_expression(ts, i + 1) {
            PRes::Failed(e) => PRes::Failed(e),
            PRes::Parsed(e0, j) => match sp_eat(ts, j, TokenV::Semi) {
                PRes::Failed(er) => PRes::Failed(er),
                PRes::Parsed(u1, j1) => PRes::Parsed(AstV::Return(Box::new(e0)), j1),
            },
        },
    }
}

/// One statement: `return`, a declaration, or an assignment.
pub open spec fn spec_parse_statement(ts: TokenStream, i: int) -> PRes<AstV>
    decreases ts.toks.len() - i, 16int,
{
    match stream_at(ts, i) {
        StreamTok::Broken(e) => PRes::Failed(CompileErrorV::Lex(e)),
        StreamTok::Tk(t) => match t {
            TokenV::Keyword(k) => if k == "return"@ {
                spec_parse_return(ts, i)
            } else if k == "int"@ {
                spec_parse_declare(ts, i)
            } else {
                PRes::Failed(
                    CompileErrorV::Parse(ParseErrorV::UnexpectedStatement(TokenV::Keyword(k))),
                )
            },
            TokenV::Ident(name) => spec_parse_assignment(ts, i),
            _ => PRes::Failed(CompileErrorV::Parse(ParseErrorV::UnexpectedStatement(t))),
        },
    }
}

/// The statements of a function body, up to (but not including) the
/// closing brace.
pub open spec fn spec_parse_stmt_list(ts: TokenStream, i: int) -> PRes<Seq<AstV>>
    decreases ts.toks.len() - i, 17int,
{
    match stream_at(ts, i) {
        StreamTok::Broken(e) => PRes::Failed(CompileErrorV::Lex(e)),
        StreamTok::Tk(t) => if t is RBrace {
            PRes::Parsed(Seq::empty(), i)
        } else {
            match spec_parse_statement(ts, i) {
                PRes::Failed(e) => PRes::Failed(e),
                PRes::Parsed(s0, j) => if 0 <= i < ts.toks.len() {
                    match spec_parse_stmt_list(ts, past(ts, i, j)) {
                        PRes::Failed(e) => PRes::Failed(e),
                        PRes::Parsed(rest, k) => PRes::Parsed(seq![s0] + rest, k),
                    }
                } else {
                    PRes::Parsed(seq![s0], j)
                },
            }
        },
    }
}

/// `type := 'int' | 'void'`
pub open spec fn spec_parse_type(ts: TokenStream, i: int) -> PRes<Seq<char>>
    decreases ts.toks.len() - i, 0int,
{
    match stream_at(ts, i) {
        StreamTok::Broken(e) => PRes::Failed(CompileErrorV::Lex(e)),
        StreamTok::Tk(t) => match t {
            TokenV::Keyword(k) => if k == "int"@ || k == "void"@ {
                match sp_adv(ts, i) {
                    PRes::Failed(e) => PRes::Failed(e),
                    PRes::Parsed(u, x) => PRes::Parsed(k, i + 1),
                }
            } else {
                PRes::Failed(
                    CompileErrorV::Parse(ParseErrorV::ExpectedTypeKeyword(TokenV::Keyword(k))),
                )
            },
            _ => PRes::Failed(CompileErrorV::Parse(ParseErrorV::ExpectedTypeKeyword(t))),
        },
    }
}

/// `function := type IDENT '(' ')' '{' statement* '}'`
pub open spec fn spec_parse_function(ts: TokenStream, i: int) -> PRes<AstV>
    decreases ts.toks.len() - i, 18int,
{
    match spec_parse_type(ts, i) {
        PRes::Failed(e) => PRes::Failed(e),
        PRes::Parsed(rt, x0) => match stream_at(ts, i + 1) {
            StreamTok::Broken(e) => PRes::Failed(CompileErrorV::Lex(e)),
            StreamTok::Tk(t) => match t {
                TokenV::Ident(name) => match sp_adv(ts, i + 1) {
                    PRes::Failed(e) => PRes::Failed(e),
                    PRes::Parsed(u0, x1) => match sp_eat(ts, i + 2, TokenV::LParen) {
                        PRes::Failed(er) => PRes::Failed(er),
                        PRes::Parsed(u1, x2) => match sp_eat(ts, i + 3, TokenV::RParen) {
                            PRes::Failed(er) => PRes::Failed(er),
                            PRes::Parsed(u2, x3) => match sp_eat(ts, i + 4, TokenV::LBrace) {
                                PRes::Failed(er) => PRes::Failed(er),
                                PRes::Parsed(u3, x4) => match spec_parse_stmt_list(ts, i + 5) {
                                    PRes::Failed(e) => PRes::Failed(e),
                                    PRes::Parsed(body, k) => match sp_eat(
                                        ts,
                                        k,
                                        TokenV::RBrace,
                                    ) {
                                        PRes::Failed(er) => PRes::Failed(er),
                                        PRes::Parsed(u4, k1) => PRes::Parsed(
                                            AstV::Function { name, body, return_type: rt },
                                            k1,
                                        ),
                                    },
                                },
                            },
                        },
                    },
                },
                _ => PRes::Failed(
                    CompileErrorV::Parse(ParseErrorV::UnexpectedFunctionName(t)),
                ),
            },
        },
    }
}

/// `program := function+` — functions until the end of the input.
pub open spec fn spec_parse_program(ts: TokenStream, i: int) -> PRes<Seq<AstV>>
    decreases ts.toks.len() - i, 19int,
{
    match stream_at(ts, i) {
        StreamTok::Broken(e) => PRes::Failed(CompileErrorV::Lex(e)),
        StreamTok::Tk(t) => if t is EOF {
            PRes::Parsed(Seq::empty(), i)
        } else {
            match spec_parse_function(ts, i) {
                PRes::Failed(e) => PRes::Failed(e),
                PRes::Parsed(f, j) => if 0 <= i < ts.toks.len() {
                    match spec_parse_program(ts, past(ts, i, j)) {
                        PRes::Failed(e) => PRes::Failed(e),
                        PRes::Parsed(fs, k) => PRes::Parsed(seq![f] + fs, k),
                    }
                } else {
                    PRes::Parsed(seq![f], j)
                },
            }
        },
    }
}

/// Parsing is a function of the token sequence only: equal token streams
/// parse to identical abstract syntax trees.
pub proof fn lemma_parsing_deterministic(ts1: TokenStream, ts2: TokenStream)
    requires
        ts1 == ts2,
    ensures
        spec_parse_program(ts1, 0) == spec_parse_program(ts2, 0),
{
}


// ---------------------------------------------------------------------
// The parser
// ---------------------------------------------------------------------

/// The streaming parser: a scanner and one token of lookahead.
pub struct Parser {
    lexer: Lexer,
    current_token: Token,
    idx: Ghost<int>,
}

impl Parser {
    /// The source text being parsed.
    pub closed spec fn chars(&self) -> Seq<char> {
        self.lexer@.text
    }

    /// The token stream of the source text.
    pub open spec fn stream(&self) -> TokenStream {
        spec_tokens(self.chars())
    }

    /// The position of the lookahead token in the stream.
    pub closed spec fn idx(&self) -> int {
        self.idx@
    }

    /// The lookahead token.
    pub closed spec fn cur(&self) -> TokenV {
        self.current_token@
    }

    /// Well-formedness: the lookahead is the `idx`-th element of the token
    /// stream, and the scanner stands right after it, so that the stream
    /// from the scanner's position is the suffix after the lookahead.
    pub closed spec fn wf(&self) -> bool {
        &&& self.lexer.wf()
        &&& stream_at(self.stream(), self.idx@) == StreamTok::Tk(self.current_token@)
        &&& if self.current_token@ is EOF {
            &&& self.idx@ == self.stream().toks.len()
            &&& self.stream().terminal is None
        } else {
            &&& 0 <= self.idx@ < self.stream().toks.len()
            &&& scan_stream(self.chars(), self.lexer@.pos) == (TokenStream {
                toks: self.stream().toks.skip(self.idx@ + 1),
                terminal: self.stream().terminal,
            })
        }
    }

    /// A parser over the given scanner, which must stand at the start of
    /// its text. The first token is pulled into the lookahead buffer, so a
    /// scanning error at the very first token surfaces here.
    pub fn new(lexer: Lexer) -> (r: Result<Parser, LexError>)
        requires
            lexer.wf(),
            lexer@.pos == 0,
        ensures
            match stream_at(spec_tokens(lexer@.text), 0) {
                StreamTok::Tk(t) => r matches Ok(p) && p.wf() && p.chars() == lexer@.text
                    && p.idx() == 0 && p.cur() == t,
                StreamTok::Broken(e) => r matches Err(e2) && e2 == e,
            },
    {
        let mut lx = lexer;
        let ghost chars = lx@.text;
        let ghost ts = spec_tokens(chars);
        let first = lx.next_token();
        proof {
            assert(ts == scan_stream(chars, 0));
        }
        match first {
            Ok(t) => {
                let p = Parser { lexer: lx, current_token: t, idx: Ghost(0) };
                proof {
                    match spec_scan(chars, 0) {
                        ScanResult::Tok(t0, q) => {
                            if t0 is EOF {
                                assert(ts.toks =~= Seq::<TokenV>::empty());
                            } else {
                                let rest = scan_stream(chars, q);
                                assert(ts.toks == seq![t0] + rest.toks);
                                assert(ts.toks[0] == t0);
                                assert(ts.toks.skip(1) =~= rest.toks);
                            }
                        },
                        ScanResult::Fail(e) => {
                            assert(false);
                        },
                    }
                }
                Ok(p)
            },
            Err(e) => Err(e),
        }
    }

    /// Pulls the next token from the scanner into the lookahead buffer.
    fn advance(&mut self) -> (r: Result<(), LexError>)
        requires
            old(self).wf(),
            !(old(self).cur() is EOF),
        ensures
            final(self).chars() == old(self).chars(),
            match stream_at(old(self).stream(), old(self).idx() + 1) {
                StreamTok::Tk(t) => r is Ok && final(self).wf() && final(self).idx() == old(
                    self,
                ).idx() + 1 && final(self).cur() == t,
                StreamTok::Broken(e) => r matches Err(e2) && e2 == e,
            },
    {
        let ghost chars = self.chars();
        let ghost ts = self.stream();
        let ghost i = self.idx@;
        let ghost p0 = self.lexer@.pos;
        let res = self.lexer.next_token();
        proof {
            assert(scan_stream(chars, p0) == TokenStream {
                toks: ts.toks.skip(i + 1),
                terminal: ts.terminal,
            });
            assert(ts.toks.skip(i + 1).len() == ts.toks.len() - (i + 1));
        }
        match res {
            Ok(t) => {
                self.current_token = t;
                self.idx = Ghost(i + 1);
                proof {
                    match spec_scan(chars, p0) {
                        ScanResult::Tok(t0, q) => {
                            if t0 is EOF {
                                assert(ts.toks.skip(i + 1).len() == 0);
                                assert(i + 1 == ts.toks.len());
                                assert(ts.terminal is None);
                            } else {
                                let rest = scan_stream(chars, q);
                                assert(ts.toks.skip(i + 1) == seq![t0] + rest.toks);
                                assert(ts.toks.skip(i + 1)[0] == ts.toks[i + 1]);
                                assert(ts.toks[i + 1] == t0);
                                assert(ts.toks.skip(i + 1).drop_first() =~= ts.toks.skip(i + 2));
                                assert(rest.toks =~= ts.toks.skip(i + 2));
                                assert(rest == TokenStream {
                                    toks: ts.toks.skip(i + 2),
                                    terminal: ts.terminal,
                                });
                            }
                        },
                        ScanResult::Fail(e) => {
                            assert(false);
                        },
                    }
                }
                Ok(())
            },
            Err(e) => {
                proof {
                    assert(ts.toks.skip(i + 1).len() == 0);
                    assert(i + 1 == ts.toks.len());
                }
                Err(e)
            },
        }
    }

    /// Does the lookahead token match `t` structurally?
    fn cur_is(&self, t: &Token) -> (b: bool)
        ensures
            b == (self.cur() == t@),
    {
        token_eq(&self.current_token, t)
    }

    /// Asserts structural equality of the lookahead with `expected` and
    /// advances past it; a mismatch is a fatal parse error.
    pub fn eat(&mut self, expected: Token) -> (r: Result<(), CompileError>)
        requires
            old(self).wf(),
        ensures
            final(self).chars() == old(self).chars(),
            match sp_eat(old(self).stream(), old(self).idx(), expected@) {
                PRes::Parsed(u, j) => r is Ok && final(self).wf() && final(self).idx() == j
                    && stream_at(old(self).stream(), j) == StreamTok::Tk(final(self).cur()),
                PRes::Failed(e) => r matches Err(e2) && e2@ == e,
            },
    {
        if token_eq(&self.current_token, &expected) {
            if token_eq(&self.current_token, &Token::EOF) {
                Ok(())
            } else {
                match self.advance() {
                    Ok(u) => Ok(()),
                    Err(e) => Err(CompileError::Lex(e)),
                }
            }
        } else {
            Err(
                CompileError::Parse(
                    ParseError::UnexpectedToken { found: self.current_token.dup(), expected },
                ),
            )
        }
    }

    /// `factor := NUMBER | IDENT | '(' expression ')' | ('-'|'~'|'!') factor`
    fn parse_factor(&mut self) -> (r: Result<ASTNode, CompileError>)
        requires
            old(self).wf(),
        ensures
            final(self).chars() == old(self).chars(),
            match spec_parse_factor(old(self).stream(), old(self).idx()) {
                PRes::Parsed(ast, j) => r matches Ok(n) && n@ == ast && final(self).wf()
                    && final(self).idx() == j && old(self).idx() < j && j
                    <= final(self).stream().toks.len() && 0 <= old(self).idx()
                    && old(self).idx() < old(self).stream().toks.len(),
                PRes::Failed(e) => r matches Err(e2) && e2@ == e,
            },
        decreases self.stream().toks.len() - self.idx@, 0int,
    {
        let cur = self.current_token.dup();
        match cur {
            Token::Number(v) => {
                match self.advance() {
                    Ok(u) => Ok(ASTNode::Constant(v)),
                    Err(e) => Err(CompileError::Lex(e)),
                }
            },
            Token::Minus => {
                match self.advance() {
                    Err(e) => Err(CompileError::Lex(e)),
                    Ok(u) => match self.parse_factor() {
                        Ok(n) => Ok(ASTNode::UnaryOp(UnaryOp::Negate, Box::new(n))),
                        Err(e) => Err(e),
                    },
                }
            },
            Token::Bitwise => {
                match self.advance() {
                    Err(e) => Err(CompileError::Lex(e)),
                    Ok(u) => match self.parse_factor() {
                        Ok(n) => Ok(ASTNode::UnaryOp(UnaryOp::BitNot, Box::new(n))),
                        Err(e) => Err(e),
                    },
                }
            },
            Token::LogicalNot => {
                match self.advance() {
                    Err(e) => Err(CompileError::Lex(e)),
                    Ok(u) => match self.parse_factor() {
                        Ok(n) => Ok(ASTNode::UnaryOp(UnaryOp::Not, Box::new(n))),
                        Err(e) => Err(e),
                    },
                }
            },
            Token::LParen => {
                match self.advance() {
                    Err(e) => Err(CompileError::Lex(e)),
                    Ok(u) => match self.parse_expression() {
                        Err(e) => Err(e),
                        Ok(e0) => match self.eat(Token::RParen) {
                            Ok(u2) => Ok(e0),
                            Err(e) => Err(e),
                        },
                    },
                }
            },
            Token::Ident(name) => {
                match self.advance() {
                    Ok(u) => Ok(ASTNode::Var(name)),
                    Err(e) => Err(CompileError::Lex(e)),
                }
            },
            other => Err(CompileError::Parse(ParseError::UnexpectedTokenInFactor(other))),
        }
    }

    /// `term := factor (('*'|'/') factor)*`, left-associative.
    fn parse_term(&mut self) -> (r: Result<ASTNode, CompileError>)
        requires
            old(self).wf(),
        ensures
            final(self).chars() == old(self).chars(),
            match spec_parse_term(old(self).stream(), old(self).idx()) {
                PRes::Parsed(ast, j) => r matches Ok(n) && n@ == ast && final(self).wf()
                    && final(self).idx() == j && old(self).idx() < j && j
                    <= final(self).stream().toks.len() && 0 <= old(self).idx()
                    && old(self).idx() < old(self).stream().toks.len(),
                PRes::Failed(e) => r matches Err(e2) && e2@ == e,
            },
        decreases self.stream().toks.len() - self.idx(), 2int,
    {
        let ghost ts = self.stream();
        let ghost i0 = self.idx@;
        let left = match self.parse_factor() {
            Ok(n) => n,
            Err(e) => return Err(e),
        };
        proof {
            assert(past(ts, i0, self.idx@) == self.idx@);
        }
        self.parse_term_rest(left)
    }

    /// The left-associative fold of the operators at this level.
    fn parse_term_rest(&mut self, left: ASTNode) -> (r: Result<ASTNode, CompileError>)
        requires
            old(self).wf(),
        ensures
            final(self).chars() == old(self).chars(),
            match spec_parse_term_rest(old(self).stream(), old(self).idx(), left@) {
                PRes::Parsed(ast, j) => r matches Ok(n) && n@ == ast && final(self).wf()
                    && final(self).idx() == j && old(self).idx() <= j && j
                    <= final(self).stream().toks.len(),
                PRes::Failed(e) => r matches Err(e2) && e2@ == e,
            },
        decreases self.stream().toks.len() - self.idx(), 1int,
    {
        let ghost ts = self.stream();
        let ghost i0 = self.idx@;
        let at_op = self.cur_is(&Token::Star) || self.cur_is(&Token::Slash);
        if !at_op {
            return Ok(left);
        }
        let op = if self.cur_is(&Token::Star) {
            BinaryOp::Multiplication
        } else {
            BinaryOp::Division
        };
        match self.advance() {
            Err(e) => return Err(CompileError::Lex(e)),
            Ok(u) => {},
        }
        let right = match self.parse_factor() {
            Ok(n) => n,
            Err(e) => return Err(e),
        };
        proof {
            assert(past(ts, i0, self.idx@) == self.idx@);
        }
        let folded = ASTNode::BinaryOp(Box::new(left), op, Box::new(right));
        self.parse_term_rest(folded)
    }

    /// `additive := term (('+'|'-') term)*`, left-associative.
    fn parse_add_expression(&mut self) -> (r: Result<ASTNode, CompileError>)
        requires
            old(self).wf(),
        ensures
            final(self).chars() == old(self).chars(),
            match spec_parse_additive(old(self).stream(), old(self).idx()) {
                PRes::Parsed(ast, j) => r matches Ok(n) && n@ == ast && final(self).wf()
                    && final(self).idx() == j && old(self).idx() < j && j
                    <= final(self).stream().toks.len() && 0 <= old(self).idx()
                    && old(self).idx() < old(self).stream().toks.len(),
                PRes::Failed(e) => r matches Err(e2) && e2@ == e,
            },
        decreases self.stream().toks.len() - self.idx(), 4int,
    {
        let ghost ts = self.stream();
        let ghost i0 = self.idx@;
        let left = match self.parse_term() {
            Ok(n) => n,
            Err(e) => return Err(e),
        };
        proof {
            assert(past(ts, i0, self.idx@) == self.idx@);
        }
        self.parse_add_rest(left)
    }

    /// The left-associative fold of the operators at this level.
    fn parse_add_rest(&mut self, left: ASTNode) -> (r: Result<ASTNode, CompileError>)
        requires
            old(self).wf(),
        ensures
            final(self).chars() == old(self).chars(),
            match spec_parse_additive_rest(old(self).stream(), old(self).idx(), left@) {
                PRes::Parsed(ast, j) => r matches Ok(n) && n@ == ast && final(self).wf()
                    && final(self).idx() == j && old(self).idx() <= j && j
                    <= final(self).stream().toks.len(),
                PRes::Failed(e) => r matches Err(e2) && e2@ == e,
            },
        decreases self.stream().toks.len() - self.idx(), 3int,
    {
        let ghost ts = self.stream();
        let ghost i0 = self.idx@;
        let at_op = self.cur_is(&Token::Plus) || self.cur_is(&Token::Minus);
        if !at_op {
            return Ok(left);
        }
        let op = if self.cur_is(&Token::Plus) {
            BinaryOp::Addition
        } else {
            BinaryOp::Subtraction
        };
        match self.advance() {
            Err(e) => return Err(CompileError::Lex(e)),
            Ok(u) => {},
        }
        let right = match self.parse_term() {
            Ok(n) => n,
            Err(e) => return Err(e),
        };
        proof {
            assert(past(ts, i0, self.idx@) == self.idx@);
        }
        let folded = ASTNode::BinaryOp(Box::new(left), op, Box::new(right));
        self.parse_add_rest(folded)
    }

    /// `relational := additive (('<'|'>'|'<='|'>=') additive)*`, left-associative.
    fn parse_relational_expression(&mut self) -> (r: Result<ASTNode, CompileError>)
        requires
            old(self).wf(),
        ensures
            final(self).chars() == old(self).chars(),
            match spec_parse_relational(old(self).stream(), old(self).idx()) {
                PRes::Parsed(ast, j) => r matches Ok(n) && n@ == ast && final(self).wf()
                    && final(self).idx() == j && old(self).idx() < j && j
                    <= final(self).stream().toks.len() && 0 <= old(self).idx()
                    && old(self).idx() < old(self).stream().toks.len(),
                PRes::Failed(e) => r matches Err(e2) && e2@ == e,
            },
        decreases self.stream().toks.len() - self.idx(), 6int,
    {
        let ghost ts = self.stream();
        let ghost i0 = self.idx@;
        let left = match self.parse_add_expression() {
            Ok(n) => n,
            Err(e) => return Err(e),
        };
        proof {
            assert(past(ts, i0, self.idx@) == self.idx@);
        }
        self.parse_relational_rest(left)
    }

    /// The left-associative fold of the operators at this level.
    #[verifier::rlimit(100)]
    #[verifier::spinoff_prover]
    fn parse_relational_rest(&mut self, left: ASTNode) -> (r: Result<ASTNode, CompileError>)
        requires
            old(self).wf(),
        ensures
            final(self).chars() == old(self).chars(),
            match spec_parse_relational_rest(old(self).stream(), old(self).idx(), left@) {
                PRes::Parsed(ast, j) => r matches Ok(n) && n@ == ast && final(self).wf()
                    && final(self).idx() == j && old(self).idx() <= j && j
                    <= final(self).stream().toks.len(),
                PRes::Failed(e) => r matches Err(e2) && e2@ == e,
            },
        decreases self.stream().toks.len() - self.idx(), 5int,
    {
        let ghost ts = self.stream();
        let ghost i0 = self.idx@;
        let at_op = self.cur_is(&Token::Less) || self.cur_is(&Token::GreatTh) || self.cur_is(
            &Token::LessEq,
        ) || self.cur_is(&Token::GreatThEq);
        if !at_op {
            return Ok(left);
        }
        let op = if self.cur_is(&Token::Less) {
            BinaryOp::Less
        } else if self.cur_is(&Token::GreatTh) {
            BinaryOp::Greater
        } else if self.cur_is(&Token::LessEq) {
            BinaryOp::LessEq
        } else {
            BinaryOp::GreaterEq
        };
        match self.advance() {
            Err(e) => return Err(CompileError::Lex(e)),
            Ok(u) => {},
        }
        let right = match self.parse_add_expression() {
            Ok(n) => n,
            Err(e) => return Err(e),
        };
        proof {
            assert(past(ts, i0, self.idx@) == self.idx@);
        }
        let folded = ASTNode::BinaryOp(Box::new(left), op, Box::new(right));
        self.parse_relational_rest(folded)
    }

    /// `equality := relational (('=='|'!=') relational)*`, left-associative.
    fn parse_equality_expression(&mut self) -> (r: Result<ASTNode, CompileError>)
        requires
            old(self).wf(),
        ensures
            final(self).chars() == old(self).chars(),
            match spec_parse_equality(old(self).stream(), old(self).idx()) {
                PRes::Parsed(ast, j) => r matches Ok(n) && n@ == ast && final(self).wf()
                    && final(self).idx() == j && old(self).idx() < j && j
                    <= final(self).stream().toks.len() && 0 <= old(self).idx()
                    && old(self).idx() < old(self).stream().toks.len(),
                PRes::Failed(e) => r matches Err(e2) && e2@ == e,
            },
        decreases self.stream().toks.len() - self.idx(), 8int,
    {
        let ghost ts = self.stream();
        let ghost i0 = self.idx@;
        let left = match self.parse_relational_expression() {
            Ok(n) => n,
            Err(e) => return Err(e),
        };
        proof {
            assert(past(ts, i0, self.idx@) == self.idx@);
        }
        self.parse_equality_rest(left)
    }

    /// The left-associative fold of the operators at this level.
    fn parse_equality_rest(&mut self, left: ASTNode) -> (r: Result<ASTNode, CompileError>)
        requires
            old(self).wf(),
        ensures
            final(self).chars() == old(self).chars(),
            match spec_parse_equality_rest(old(self).stream(), old(self).idx(), left@) {
                PRes::Parsed(ast, j) => r matches Ok(n) && n@ == ast && final(self).wf()
                    && final(self).idx() == j && old(self).idx() <= j && j
                    <= final(self).stream().toks.len(),
                PRes::Failed(e) => r matches Err(e2) && e2@ == e,
            },
        decreases self.stream().toks.len() - self.idx(), 7int,
    {
        let ghost ts = self.stream();
        let ghost i0 = self.idx@;
        let at_op = self.cur_is(&Token::EqualTo) || self.cur_is(&Token::NEqualTo);
        if !at_op {
            return Ok(left);
        }
        let op = if self.cur_is(&Token::EqualTo) {
            BinaryOp::Equal
        } else {
            BinaryOp::NotEq
        };
        match self.advance() {
            Err(e) => return Err(CompileError::Lex(e)),
            Ok(u) => {},
        }
        let right = match self.parse_relational_expression() {
            Ok(n) => n,
            Err(e) => return Err(e),
        };
        proof {
            assert(past(ts, i0, self.idx@) == self.idx@);
        }
        let folded = ASTNode::BinaryOp(Box::new(left), op, Box::new(right));
        self.parse_equality_rest(folded)
    }

    /// `logical_and := equality ('&&' equality)*`, left-associative.
    fn parse_logical_and_expression(&mut self) -> (r: Result<ASTNode, CompileError>)
        requires
            old(self).wf(),
        ensures
            final(self).chars() == old(self).chars(),
            match spec_parse_logical_and(old(self).stream(), old(self).idx()) {
                PRes::Parsed(ast, j) => r matches Ok(n) && n@ == ast && final(self).wf()
                    && final(self).idx() == j && old(self).idx() < j && j
                    <= final(self).stream().toks.len() && 0 <= old(self).idx()
                    && old(self).idx() < old(self).stream().toks.len(),
                PRes::Failed(e) => r matches Err(e2) && e2@ == e,
            },
        decreases self.stream().toks.len() - self.idx(), 10int,
    {
        let ghost ts = self.stream();
        let ghost i0 = self.idx@;
        let left = match self.parse_equality_expression() {
            Ok(n) => n,
            Err(e) => return Err(e),
        };
        proof {
            assert(past(ts, i0, self.idx@) == self.idx@);
        }
        self.parse_logical_and_rest(left)
    }

    /// The left-associative fold of the operators at this level.
    fn parse_logical_and_rest(&mut self, left: ASTNode) -> (r: Result<ASTNode, CompileError>)
        requires
            old(self).wf(),
        ensures
            final(self).chars() == old(self).chars(),
            match spec_parse_logical_and_rest(old(self).stream(), old(self).idx(), left@) {
                PRes::Parsed(ast, j) => r matches Ok(n) && n@ == ast && final(self).wf()
                    && final(self).idx() == j && old(self).idx() <= j && j
                    <= final(self).stream().toks.len(),
                PRes::Failed(e) => r matches Err(e2) && e2@ == e,
            },
        decreases self.stream().toks.len() - self.idx(), 9int,
    {
        let ghost ts = self.stream();
        let ghost i0 = self.idx@;
        let at_op = self.cur_is(&Token::LogAnd);
        if !at_op {
            return Ok(left);
        }
        let op = BinaryOp::LogAnd;
        match self.advance() {
            Err(e) => return Err(CompileError::Lex(e)),
            Ok(u) => {},
        }
        let right = match self.parse_equality_expression() {
            Ok(n) => n,
            Err(e) => return Err(e),
        };
        proof {
            assert(past(ts, i0, self.idx@) == self.idx@);
        }
        let folded = ASTNode::BinaryOp(Box::new(left), op, Box::new(right));
        self.parse_logical_and_rest(folded)
    }

    /// `logical_or := logical_and ('||' logical_and)*`, left-associative.
    fn parse_logical_or_expression(&mut self) -> (r: Result<ASTNode, CompileError>)
        requires
            old(self).wf(),
        ensures
            final(self).chars() == old(self).chars(),
            match spec_parse_logical_or(old(self).stream(), old(self).idx()) {
                PRes::Parsed(ast, j) => r matches Ok(n) && n@ == ast && final(self).wf()
                    && final(self).idx() == j && old(self).idx() < j && j
                    <= final(self).stream().toks.len() && 0 <= old(self).idx()
                    && old(self).idx() < old(self).stream().toks.len(),
                PRes::Failed(e) => r matches Err(e2) && e2@ == e,
            },
        decreases self.stream().toks.len() - self.idx(), 12int,
    {
        let ghost ts = self.stream();
        let ghost i0 = self.idx@;
        let left = match self.parse_logical_and_expression() {
            Ok(n) => n,
            Err(e) => return Err(e),
        };
        proof {
            assert(past(ts, i0, self.idx@) == self.idx@);
        }
        self.parse_logical_or_rest(left)
    }

    /// The left-associative fold of the operators at this level.
    fn parse_logical_or_rest(&mut self, left: ASTNode) -> (r: Result<ASTNode, CompileError>)
        requires
            old(self).wf(),
        ensures
            final(self).chars() == old(self).chars(),
            match spec_parse_logical_or_rest(old(self).stream(), old(self).idx(), left@) {
                PRes::Parsed(ast, j) => r matches Ok(n) && n@ == ast && final(self).wf()
                    && final(self).idx() == j && old(self).idx() <= j && j
                    <= final(self).stream().toks.len(),
                PRes::Failed(e) => r matches Err(e2) && e2@ == e,
            },
        decreases self.stream().toks.len() - self.idx(), 11int,
    {
        let ghost ts = self.stream();
        let ghost i0 = self.idx@;
        let at_op = self.cur_is(&Token::LogOr);
        if !at_op {
            return Ok(left);
        }
        let op = BinaryOp::LogOr;
        match self.advance() {
            Err(e) => return Err(CompileError::Lex(e)),
            Ok(u) => {},
        }
        let right = match self.parse_logical_and_expression() {
            Ok(n) => n,
            Err(e) => return Err(e),
        };
        proof {
            assert(past(ts, i0, self.idx@) == self.idx@);
        }
        let folded = ASTNode::BinaryOp(Box::new(left), op, Box::new(right));
        self.parse_logical_or_rest(folded)
    }

    /// `expression := logical_or`. Assignment is handled at the statement
    /// level only: an `=` after an expression is left in the lookahead for
    /// the caller's next `eat` to reject.
    fn parse_expression(&mut self) -> (r: Result<ASTNode, CompileError>)
        requires
            old(self).wf(),
        ensures
            final(self).chars() == old(self).chars(),
            match spec_parse_expression(old(self).stream(), old(self).idx()) {
                PRes::Parsed(ast, j) => r matches Ok(n) && n@ == ast && final(self).wf()
                    && final(self).idx() == j && old(self).idx() < j && j
                    <= final(self).stream().toks.len() && 0 <= old(self).idx()
                    && old(self).idx() < old(self).stream().toks.len(),
                PRes::Failed(e) => r matches Err(e2) && e2@ == e,
            },
        decreases self.stream().toks.len() - self.idx@, 14int,
    {
        self.parse_logical_or_expression()
    }

    /// `'int' IDENT ('=' expression)? ';'` — a declaration, with or
    /// without an initializer.
    #[verifier::rlimit(100)]
    #[verifier::spinoff_prover]
    fn parse_declare(&mut self) -> (r: Result<ASTNode, CompileError>)
        requires
            old(self).wf(),
        ensures
            final(self).chars() == old(self).chars(),
            match spec_parse_declare(old(self).stream(), old(self).idx()) {
                PRes::Parsed(ast, j) => r matches Ok(n) && n@ == ast && final(self).wf()
                    && final(self).idx() == j && old(self).idx() < j && j
                    <= final(self).stream().toks.len() && 0 <= old(self).idx()
                    && old(self).idx() < old(self).stream().toks.len(),
                PRes::Failed(e) => r matches Err(e2) && e2@ == e,
            },
        decreases self.stream().toks.len() - self.idx@, 13int,
    {
        match self.eat(Token::Keyword("int".to_owned())) {
            Err(e) => return Err(e),
            Ok(u) => {},
        }
        let cur = self.current_token.dup();
        match cur {
            Token::Ident(name) => {
                match self.advance() {
                    Err(e) => return Err(CompileError::Lex(e)),
                    Ok(u) => {},
                }
                if self.cur_is(&Token::Assign) {
                    match self.advance() {
                        Err(e) => return Err(CompileError::Lex(e)),
                        Ok(u) => {},
                    }
                    let e0 = match self.parse_expression() {
                        Ok(n) => n,
                        Err(e) => return Err(e),
                    };
                    match self.eat(Token::Semi) {
                        Ok(u) => Ok(ASTNode::Declare(name, Some(Box::new(e0)))),
                        Err(e) => Err(e),
                    }
                } else {
                    match self.eat(Token::Semi) {
                        Ok(u) => Ok(ASTNode::Declare(name, None)),
                        Err(e) => Err(e),
                    }
                }
            },
            other => Err(CompileError::Parse(ParseError::ExpectedIdentifierAfterInt(other))),
        }
    }

    /// `IDENT '=' expression ';'` — an assignment statement.
    #[verifier::rlimit(100)]
    #[verifier::spinoff_prover]
    fn parse_assignment_or_expression(&mut self) -> (r: Result<ASTNode, CompileError>)
        requires
            old(self).wf(),
        ensures
            final(self).chars() == old(self).chars(),
            match spec_parse_assignment(old(self).stream(), old(self).idx()) {
                PRes::Parsed(ast, j) => r matches Ok(n) && n@ == ast && final(self).wf()
                    && final(self).idx() == j && old(self).idx() < j && j
                    <= final(self).stream().toks.len() && 0 <= old(self).idx()
                    && old(self).idx() < old(self).stream().toks.len(),
                PRes::Failed(e) => r matches Err(e2) && e2@ == e,
            },
        decreases self.stream().toks.len() - self.idx@, 15int,
    {
        let cur = self.current_token.dup();
        match cur {
            Token::Ident(name) => {
                match self.advance() {
                    Err(e) => return Err(CompileError::Lex(e)),
                    Ok(u) => {},
                }
                if self.cur_is(&Token::Assign) {
                    match self.advance() {
                        Err(e) => return Err(CompileError::Lex(e)),
                        Ok(u) => {},
                    }
                    let e0 = match self.parse_expression() {
                        Ok(n) => n,
                        Err(e) => return Err(e),
                    };
                    match self.eat(Token::Semi) {
                        Ok(u) => Ok(ASTNode::Assign(name, Box::new(e0))),
                        Err(e) => Err(e),
                    }
                } else {
                    Err(
                        CompileError::Parse(
                            ParseError::UnexpectedToken {
                                found: self.current_token.dup(),
                                expected: Token::Assign,
                            },
                        ),
                    )
                }
            },
            other => Err(CompileError::Parse(ParseError::UnexpectedStatement(other))),
        }
    }

    /// `'return' expression ';'`
    #[verifier::rlimit(100)]
    #[verifier::spinoff_prover]
    fn parse_return(&mut self) -> (r: Result<ASTNode, CompileError>)
        requires
            old(self).wf(),
        ensures
            final(self).chars() == old(self).chars(),
            match spec_parse_return(old(self).stream(), old(self).idx()) {
                PRes::Parsed(ast, j) => r matches Ok(n) && n@ == ast && final(self).wf()
                    && final(self).idx() == j && old(self).idx() < j && j
                    <= final(self).stream().toks.len() && 0 <= old(self).idx()
                    && old(self).idx() < old(self).stream().toks.len(),
                PRes::Failed(e) => r matches Err(e2) && e2@ == e,
            },
        decreases self.stream().toks.len() - self.idx@, 15int,
    {
        match self.eat(Token::Keyword("return".to_owned())) {
            Err(e) => return Err(e),
            Ok(u) => {},
        }
        let e0 = match self.parse_expression() {
            Ok(n) => n,
            Err(e) => return Err(e),
        };
        match self.eat(Token::Semi) {
            Ok(u) => Ok(ASTNode::Return(Box::new(e0))),
            Err(e) => Err(e),
        }
    }

    /// One statement: `return`, a declaration, or an assignment.
    fn parse_statement(&mut self) -> (r: Result<ASTNode, CompileError>)
        requires
            old(self).wf(),
        ensures
            final(self).chars() == old(self).chars(),
            match spec_parse_statement(old(self).stream(), old(self).idx()) {
                PRes::Parsed(ast, j) => r matches Ok(n) && n@ == ast && final(self).wf()
                    && final(self).idx() == j && old(self).idx() < j && j
                    <= final(self).stream().toks.len() && 0 <= old(self).idx()
                    && old(self).idx() < old(self).stream().toks.len(),
                PRes::Failed(e) => r matches Err(e2) && e2@ == e,
            },
        decreases self.stream().toks.len() - self.idx@, 16int,
    {
        let cur = self.current_token.dup();
        match cur {
            Token::Keyword(s) => {
                if str_eq(s.as_str(), "return") {
                    self.parse_return()
                } else if str_eq(s.as_str(), "int") {
                    self.parse_declare()
                } else {
                    Err(
                        CompileError::Parse(
                            ParseError::UnexpectedStatement(Token::Keyword(s)),
                        ),
                    )
                }
            },
            Token::Ident(name) => self.parse_assignment_or_expression(),
            other => Err(CompileError::Parse(ParseError::UnexpectedStatement(other))),
        }
    }

    /// `type := 'int' | 'void'`
    fn parse_type(&mut self) -> (r: Result<String, CompileError>)
        requires
            old(self).wf(),
        ensures
            final(self).chars() == old(self).chars(),
            match spec_parse_type(old(self).stream(), old(self).idx()) {
                PRes::Parsed(t, j) => r matches Ok(s) && s@ == t && final(self).wf()
                    && final(self).idx() == j && old(self).idx() < j && j
                    <= final(self).stream().toks.len() && 0 <= old(self).idx()
                    && old(self).idx() < old(self).stream().toks.len(),
                PRes::Failed(e) => r matches Err(e2) && e2@ == e,
            },
    {
        let cur = self.current_token.dup();
        match cur {
            Token::Keyword(s) => {
                if str_eq(s.as_str(), "int") || str_eq(s.as_str(), "void") {
                    match self.advance() {
                        Err(e) => Err(CompileError::Lex(e)),
                        Ok(u) => Ok(s),
                    }
                } else {
                    Err(
                        CompileError::Parse(
                            ParseError::ExpectedTypeKeyword(Token::Keyword(s)),
                        ),
                    )
                }
            },
            other => Err(CompileError::Parse(ParseError::ExpectedTypeKeyword(other))),
        }
    }

    /// `function := type IDENT '(' ')' '{' statement* '}'`
    #[verifier::loop_isolation(false)]
    #[verifier::rlimit(80)]
    fn parse_function(&mut self) -> (r: Result<ASTNode, CompileError>)
        requires
            old(self).wf(),
        ensures
            final(self).chars() == old(self).chars(),
            match spec_parse_function(old(self).stream(), old(self).idx()) {
                PRes::Parsed(ast, j) => r matches Ok(n) && n@ == ast && final(self).wf()
                    && final(self).idx() == j && old(self).idx() < j && j
                    <= final(self).stream().toks.len() && 0 <= old(self).idx()
                    && old(self).idx() < old(self).stream().toks.len(),
                PRes::Failed(e) => r matches Err(e2) && e2@ == e,
            },
        decreases self.stream().toks.len() - self.idx@, 17int,
    {
        let ghost ts = self.stream();
        let ghost i0 = self.idx@;
        let rt = match self.parse_type() {
            Ok(s) => s,
            Err(e) => return Err(e),
        };
        let cur = self.current_token.dup();
        let name = match cur {
            Token::Ident(n) => n,
            other => return Err(CompileError::Parse(ParseError::UnexpectedFunctionName(other))),
        };
        match self.advance() {
            Err(e) => return Err(CompileError::Lex(e)),
            Ok(u) => {},
        }
        match self.eat(Token::LParen) {
            Err(e) => return Err(e),
            Ok(u) => {},
        }
        match self.eat(Token::RParen) {
            Err(e) => return Err(e),
            Ok(u) => {},
        }
        match self.eat(Token::LBrace) {
            Err(e) => return Err(e),
            Ok(u) => {},
        }
        let ghost bstart = self.idx@;
        let mut body: Vec<ASTNode> = Vec::new();
        proof {
            assert(ast_views(body@) =~= Seq::<AstV>::empty());
        }
        while !self.cur_is(&Token::RBrace)
            invariant
                self.wf(),
                self.chars() == old(self).chars(),
                ts == self.stream(),
                bstart <= self.idx@,
                self.idx@ <= ts.toks.len(),
                match spec_parse_stmt_list(ts, self.idx@) {
                    PRes::Parsed(rest, k) => spec_parse_stmt_list(ts, bstart) == PRes::Parsed(
                        ast_views(body@) + rest,
                        k,
                    ),
                    PRes::Failed(e) => spec_parse_stmt_list(ts, bstart) == PRes::<Seq<AstV>>::Failed(e),
                },
            decreases ts.toks.len() - self.idx@,
        {
            let ghost ip = self.idx@;
            let ghost bv = body@;
            let s = match self.parse_statement() {
                Ok(n) => n,
                Err(e) => {
                    proof {
                        assert(spec_parse_stmt_list(ts, ip) == PRes::<Seq<AstV>>::Failed(e@));
                    }
                    return Err(e);
                },
            };
            proof {
                lemma_ast_views_push(bv, s);
                assert(0 <= ip < ts.toks.len());
                assert(past(ts, ip, self.idx@) == self.idx@);
            }
            body.push(s);
            proof {
                match spec_parse_stmt_list(ts, self.idx@) {
                    PRes::Parsed(rest, k) => {
                        assert(spec_parse_stmt_list(ts, ip) == PRes::Parsed(
                            seq![ast_views(bv).push(ast_view(s)).last()] + rest,
                            k,
                        ));
                        assert(ast_views(bv) + (seq![ast_view(s)] + rest) =~= ast_views(body@)
                            + rest);
                    },
                    PRes::Failed(e) => {},
                }
            }
        }
        match self.eat(Token::RBrace) {
            Err(e) => return Err(e),
            Ok(u) => {},
        }
        Ok(ASTNode::Function { name, body, return_type: rt })
    }

    /// `program := function+` — parses the whole token stream into a
    /// single [`ASTNode::Program`].
    #[verifier::loop_isolation(false)]
    #[verifier::rlimit(80)]
    pub fn parse(&mut self) -> (r: Result<ASTNode, CompileError>)
        requires
            old(self).wf(),
        ensures
            final(self).chars() == old(self).chars(),
            match spec_parse_program(old(self).stream(), old(self).idx()) {
                PRes::Parsed(fs, j) => r matches Ok(n) && n@ == AstV::Program(fs)
                    && final(self).wf() && final(self).idx() == j,
                PRes::Failed(e) => r matches Err(e2) && e2@ == e,
            },
        decreases self.stream().toks.len() - self.idx(), 18int,
    {
        let ghost ts = self.stream();
        let ghost i0 = self.idx@;
        let mut functions: Vec<ASTNode> = Vec::new();
        proof {
            assert(ast_views(functions@) =~= Seq::<AstV>::empty());
        }
        while !self.cur_is(&Token::EOF)
            invariant
                self.wf(),
                self.chars() == old(self).chars(),
                ts == self.stream(),
                i0 <= self.idx@,
                self.idx@ <= ts.toks.len(),
                match spec_parse_program(ts, self.idx@) {
                    PRes::Parsed(fs, k) => spec_parse_program(ts, i0) == PRes::Parsed(
                        ast_views(functions@) + fs,
                        k,
                    ),
                    PRes::Failed(e) => spec_parse_program(ts, i0) == PRes::<Seq<AstV>>::Failed(e),
                },
            decreases ts.toks.len() - self.idx@,
        {
            let ghost ip = self.idx@;
            let ghost fv = functions@;
            let f = match self.parse_function() {
                Ok(n) => n,
                Err(e) => {
                    proof {
                        assert(spec_parse_program(ts, ip) == PRes::<Seq<AstV>>::Failed(e@));
                    }
                    return Err(e);
                },
            };
            proof {
                lemma_ast_views_push(fv, f);
                assert(0 <= ip < ts.toks.len());
                assert(past(ts, ip, self.idx@) == self.idx@);
            }
            functions.push(f);
            proof {
                match spec_parse_program(ts, self.idx@) {
                    PRes::Parsed(fs, k) => {
                        assert(ast_views(fv) + (seq![ast_views(fv).push(ast_view(f)).last()]
                            + fs) =~= ast_views(functions@) + fs);
                    },
                    PRes::Failed(e) => {},
                }
            }
        }
        Ok(ASTNode::Program(functions))
    }
}

} // verus!
