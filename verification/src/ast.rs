//! The abstract syntax tree and the compiler's error values.
//!
//! The parser is the sole constructor of [`ASTNode`] trees; the emitter only
//! reads them. Each node exclusively owns its children, so the tree is
//! acyclic. The mathematical model of a tree is [`AstV`], with string
//! payloads abstracted to character sequences.

use vstd::prelude::*;
use crate::lexer::{LexError, Token, TokenV};

verus! {

/// A unary operator.
#[derive(Debug, Clone, Copy, PartialEq, Eq, Structural)]
pub enum UnaryOp {
    /// `!`
    Not,
    /// `~`
    BitNot,
    /// `-`
    Negate,
}

/// A binary operator.
#[derive(Debug, Clone, Copy, PartialEq, Eq, Structural)]
pub enum BinaryOp {
    Addition,
    Subtraction,
    Multiplication,
    Division,
    Less,
    Greater,
    LessEq,
    GreaterEq,
    NotEq,
    Equal,
    LogAnd,
    LogOr,
}

/// A node of the abstract syntax tree.
#[derive(Debug, PartialEq)]
pub enum ASTNode {
    /// The root: an ordered sequence of functions.
    Program(Vec<ASTNode>),
    /// A function definition.
    Function { name: String, body: Vec<ASTNode>, return_type: String },
    /// `return <expr>;`
    Return(Box<ASTNode>),
    /// A variable declaration, with an optional initializer.
    Declare(String, Option<Box<ASTNode>>),
    /// An assignment to a variable.
    Assign(String, Box<ASTNode>),
    /// An expression used as a statement (reserved; the current grammar
    /// does not produce it).
    Exp(Box<ASTNode>),
    /// A variable access.
    Var(String),
    /// A binary operation.
    BinaryOp(Box<ASTNode>, BinaryOp, Box<ASTNode>),
    /// A unary operation.
    UnaryOp(UnaryOp, Box<ASTNode>),
    /// An integer constant.
    Constant(i64),
}

/// The mathematical model of an [`ASTNode`].
pub enum AstV {
    Program(Seq<AstV>),
    Function { name: Seq<char>, body: Seq<AstV>, return_type: Seq<char> },
    Return(Box<AstV>),
    Declare(Seq<char>, Option<Box<AstV>>),
    Assign(Seq<char>, Box<AstV>),
    Exp(Box<AstV>),
    Var(Seq<char>),
    BinaryOp(Box<AstV>, BinaryOp, Box<AstV>),
    UnaryOp(UnaryOp, Box<AstV>),
    Constant(int),
}

/// The model of one node.
pub open spec fn ast_view(n: ASTNode) -> AstV
    decreases n,
{
    match n {
        ASTNode::Program(fns) => AstV::Program(ast_views(fns@)),
        ASTNode::Function { name, body, return_type } => AstV::Function {
            name: name@,
            body: ast_views(body@),
            return_type: return_type@,
        },
        ASTNode::Return(e) => AstV::Return(Box::new(ast_view(*e))),
        ASTNode::Declare(s, oe) => AstV::Declare(
            s@,
            match oe {
                Some(e) => Some(Box::new(ast_view(*e))),
                None => None,
            },
        ),
        ASTNode::Assign(s, e) => AstV::Assign(s@, Box::new(ast_view(*e))),
        ASTNode::Exp(e) => AstV::Exp(Box::new(ast_view(*e))),
        ASTNode::Var(s) => AstV::Var(s@),
        ASTNode::BinaryOp(l, op, r) => AstV::BinaryOp(
            Box::new(ast_view(*l)),
            op,
            Box::new(ast_view(*r)),
        ),
        ASTNode::UnaryOp(op, e) => AstV::UnaryOp(op, Box::new(ast_view(*e))),
        ASTNode::Constant(v) => AstV::Constant(v as int),
    }
}

/// The models of a sequence of nodes, in order.
pub open spec fn ast_views(s: Seq<ASTNode>) -> Seq<AstV>
    decreases s,
{
    if s.len() == 0 {
        Seq::empty()
    } else {
        seq![ast_view(s[0])] + ast_views(s.drop_first())
    }
}

impl View for ASTNode {
    type V = AstV;

    open spec fn view(&self) -> AstV {
        ast_view(*self)
    }
}

/// `ast_views` maps the sequence pointwise.
pub proof fn lemma_ast_views_len(s: Seq<ASTNode>)
    ensures
        ast_views(s).len() == s.len(),
    decreases s.len(),
{
    if s.len() > 0 {
        lemma_ast_views_len(s.drop_first());
    }
}

/// The model of the `i`-th node is the `i`-th model.
pub proof fn lemma_ast_views_index(s: Seq<ASTNode>, i: int)
    requires
        0 <= i < s.len(),
    ensures
        ast_views(s).len() == s.len(),
        ast_views(s)[i] == ast_view(s[i]),
    decreases i,
{
    lemma_ast_views_len(s);
    if i > 0 {
        lemma_ast_views_index(s.drop_first(), i - 1);
    }
}

/// Appending a node appends its model.
pub proof fn lemma_ast_views_push(s: Seq<ASTNode>, x: ASTNode)
    ensures
        ast_views(s.push(x)) == ast_views(s).push(ast_view(x)),
    decreases s.len(),
{
    if s.len() == 0 {
        assert(s =~= Seq::<ASTNode>::empty());
        assert(s.push(x).drop_first() =~= Seq::<ASTNode>::empty());
        assert(s.push(x)[0] == x);
        assert(ast_views(Seq::<ASTNode>::empty()) == Seq::<AstV>::empty());
        assert(ast_views(s.push(x)) == seq![ast_view(x)] + Seq::<AstV>::empty());
        assert(ast_views(s.push(x)) =~= ast_views(s).push(ast_view(x)));
    } else {
        lemma_ast_views_push(s.drop_first(), x);
        assert(s.push(x).drop_first() =~= s.drop_first().push(x));
        assert(s.push(x)[0] == s[0]);
        assert(ast_views(s.push(x)) == seq![ast_view(s[0])] + ast_views(s.drop_first()).push(
            ast_view(x),
        ));
        assert(seq![ast_view(s[0])] + ast_views(s.drop_first()).push(ast_view(x)) =~= (
        seq![ast_view(s[0])] + ast_views(s.drop_first())).push(ast_view(x)));
        assert(ast_views(s.push(x)) =~= ast_views(s).push(ast_view(x)));
    }
}

impl ASTNode {
    /// The name of a function node, and `None` for every other node.
    pub fn get_name(&self) -> (r: Option<&String>)
        ensures
            match r {
                Some(s) => self@ matches AstV::Function { name, body, return_type } && s@ == name,
                None => !(self@ is Function),
            },
    {
        if let ASTNode::Function { name, .. } = self {
            Some(name)
        } else {
            None
        }
    }

    /// The body of a function node, and `None` for every other node.
    pub fn get_body(&self) -> (r: Option<&Vec<ASTNode>>)
        ensures
            match r {
                Some(b) => self@ matches AstV::Function { name, body, return_type } && ast_views(
                    b@,
                ) == body,
                None => !(self@ is Function),
            },
    {
        if let ASTNode::Function { body, .. } = self {
            Some(body)
        } else {
            None
        }
    }
}

/// A fatal parsing error. Each case carries the offending token.
#[derive(Debug, Clone, PartialEq)]
pub enum ParseError {
    /// `eat` met a token other than the one the grammar expects.
    UnexpectedToken { found: Token, expected: Token },
    /// A function's name position held something other than an identifier.
    UnexpectedFunctionName(Token),
    /// A function did not start with a type keyword.
    ExpectedTypeKeyword(Token),
    /// A statement started with a token that starts no statement.
    UnexpectedStatement(Token),
    /// A factor started with a token that starts no factor.
    UnexpectedTokenInFactor(Token),
    /// `int` was not followed by an identifier.
    ExpectedIdentifierAfterInt(Token),
}

/// The mathematical model of a [`ParseError`].
pub enum ParseErrorV {
    UnexpectedToken { found: TokenV, expected: TokenV },
    UnexpectedFunctionName(TokenV),
    ExpectedTypeKeyword(TokenV),
    UnexpectedStatement(TokenV),
    UnexpectedTokenInFactor(TokenV),
    ExpectedIdentifierAfterInt(TokenV),
}

impl View for ParseError {
    type V = ParseErrorV;

    open spec fn view(&self) -> ParseErrorV {
        match self {
            ParseError::UnexpectedToken { found, expected } => ParseErrorV::UnexpectedToken {
                found: found@,
                expected: expected@,
            },
            ParseError::UnexpectedFunctionName(t) => ParseErrorV::UnexpectedFunctionName(t@),
            ParseError::ExpectedTypeKeyword(t) => ParseErrorV::ExpectedTypeKeyword(t@),
            ParseError::UnexpectedStatement(t) => ParseErrorV::UnexpectedStatement(t@),
            ParseError::UnexpectedTokenInFactor(t) => ParseErrorV::UnexpectedTokenInFactor(t@),
            ParseError::ExpectedIdentifierAfterInt(t) => ParseErrorV::ExpectedIdentifierAfterInt(
                t@,
            ),
        }
    }
}

/// A fatal error of the parsing stage: either the scanner failed while the
/// parser pulled a token, or the token stream does not follow the grammar.
#[derive(Debug, Clone, PartialEq)]
pub enum CompileError {
    Lex(LexError),
    Parse(ParseError),
}

/// The mathematical model of a [`CompileError`].
pub enum CompileErrorV {
    Lex(LexError),
    Parse(ParseErrorV),
}

impl View for CompileError {
    type V = CompileErrorV;

    open spec fn view(&self) -> CompileErrorV {
        match self {
            CompileError::Lex(e) => CompileErrorV::Lex(*e),
            CompileError::Parse(e) => CompileErrorV::Parse(e@),
        }
    }
}

} // verus!
