use minicc::ast::{ASTNode, BinaryOp, CompileError, ParseError, UnaryOp};
use minicc::lexer::{LexError, Lexer, Token};
use minicc::parser::Parser;

fn parse_src(src: &str) -> Result<ASTNode, CompileError> {
    let lexer = Lexer::new(src);
    let mut parser = match Parser::new(lexer) {
        Ok(p) => p,
        Err(e) => return Err(CompileError::Lex(e)),
    };
    parser.parse()
}

#[test]
fn empty_source_is_an_empty_program() {
    match parse_src("") {
        Ok(ASTNode::Program(fns)) => assert_eq!(fns.len(), 0),
        other => panic!("expected an empty program, got {:?}", other),
    }
}

#[test]
fn minimal_function() {
    match parse_src("int main() { return 2; }") {
        Ok(ASTNode::Program(fns)) => {
            assert_eq!(fns.len(), 1);
            match &fns[0] {
                ASTNode::Function { name, body, return_type } => {
                    assert_eq!(name, "main");
                    assert_eq!(return_type, "int");
                    assert_eq!(body.len(), 1);
                    match &body[0] {
                        ASTNode::Return(e) => match &**e {
                            ASTNode::Constant(2) => {}
                            other => panic!("expected the constant two, got {:?}", other),
                        },
                        other => panic!("expected a return, got {:?}", other),
                    }
                }
                other => panic!("expected a function, got {:?}", other),
            }
        }
        other => panic!("expected a program, got {:?}", other),
    }
}

fn first_return_expr(src: &str) -> ASTNode {
    match parse_src(src) {
        Ok(ASTNode::Program(mut fns)) => match fns.remove(0) {
            ASTNode::Function { mut body, .. } => match body.remove(0) {
                ASTNode::Return(e) => *e,
                other => panic!("expected a return, got {:?}", other),
            },
            other => panic!("expected a function, got {:?}", other),
        },
        other => panic!("expected a program, got {:?}", other),
    }
}

#[test]
fn multiplication_binds_tighter_than_addition() {
    let e = first_return_expr("int main() { return 1 + 2 * 3; }");
    match e {
        ASTNode::BinaryOp(l, BinaryOp::Addition, r) => {
            assert!(matches!(*l, ASTNode::Constant(1)));
            match *r {
                ASTNode::BinaryOp(rl, BinaryOp::Multiplication, rr) => {
                    assert!(matches!(*rl, ASTNode::Constant(2)));
                    assert!(matches!(*rr, ASTNode::Constant(3)));
                }
                other => panic!("expected a multiplication, got {:?}", other),
            }
        }
        other => panic!("expected an addition, got {:?}", other),
    }
}

#[test]
fn subtraction_is_left_associative() {
    let e = first_return_expr("int main() { return 1 - 2 - 3; }");
    match e {
        ASTNode::BinaryOp(l, BinaryOp::Subtraction, r) => {
            assert!(matches!(*r, ASTNode::Constant(3)));
            match *l {
                ASTNode::BinaryOp(ll, BinaryOp::Subtraction, lr) => {
                    assert!(matches!(*ll, ASTNode::Constant(1)));
                    assert!(matches!(*lr, ASTNode::Constant(2)));
                }
                other => panic!("expected a nested subtraction, got {:?}", other),
            }
        }
        other => panic!("expected a subtraction, got {:?}", other),
    }
}

#[test]
fn comparison_binds_looser_than_additive() {
    let e = first_return_expr("int main() { return 1 + 2 < 4; }");
    assert!(matches!(e, ASTNode::BinaryOp(_, BinaryOp::Less, _)));
}

#[test]
fn logical_tower() {
    let e = first_return_expr("int main() { return 1 || 0 && 1; }");
    match e {
        ASTNode::BinaryOp(_, BinaryOp::LogOr, r) => {
            assert!(matches!(*r, ASTNode::BinaryOp(_, BinaryOp::LogAnd, _)));
        }
        other => panic!("expected a logical or at the root, got {:?}", other),
    }
}

#[test]
fn unary_operators_are_right_associative() {
    let e = first_return_expr("int main() { return -(~3); }");
    match e {
        ASTNode::UnaryOp(UnaryOp::Negate, inner) => match *inner {
            ASTNode::UnaryOp(UnaryOp::BitNot, inner2) => {
                assert!(matches!(*inner2, ASTNode::Constant(3)));
            }
            other => panic!("expected a bitwise not, got {:?}", other),
        },
        other => panic!("expected a negation, got {:?}", other),
    }
}

#[test]
fn parentheses_override_precedence() {
    let e = first_return_expr("int main() { return (1 + 2) * 3; }");
    match e {
        ASTNode::BinaryOp(l, BinaryOp::Multiplication, _) => {
            assert!(matches!(*l, ASTNode::BinaryOp(_, BinaryOp::Addition, _)));
        }
        other => panic!("expected a multiplication at the root, got {:?}", other),
    }
}

#[test]
fn declaration_with_initializer_keeps_the_declare_shape() {
    match parse_src("int main() { int a = 5; return a; }") {
        Ok(ASTNode::Program(mut fns)) => match fns.remove(0) {
            ASTNode::Function { body, .. } => {
                match &body[0] {
                    ASTNode::Declare(name, Some(init)) => {
                        assert_eq!(name, "a");
                        assert!(matches!(&**init, ASTNode::Constant(5)));
                    }
                    other => panic!("expected an initialized declaration, got {:?}", other),
                }
                match &body[1] {
                    ASTNode::Return(e) => match &**e {
                        ASTNode::Var(n) => assert_eq!(n, "a"),
                        other => panic!("expected a variable, got {:?}", other),
                    },
                    other => panic!("expected a return, got {:?}", other),
                }
            }
            other => panic!("expected a function, got {:?}", other),
        },
        other => panic!("expected a program, got {:?}", other),
    }
}

#[test]
fn bare_declaration_has_no_initializer() {
    match parse_src("int main() { int a; a = 3; return a; }") {
        Ok(ASTNode::Program(mut fns)) => match fns.remove(0) {
            ASTNode::Function { body, .. } => {
                assert!(matches!(&body[0], ASTNode::Declare(_, None)));
                assert!(matches!(&body[1], ASTNode::Assign(_, _)));
            }
            other => panic!("expected a function, got {:?}", other),
        },
        other => panic!("expected a program, got {:?}", other),
    }
}

#[test]
fn two_functions_in_source_order() {
    match parse_src("int one() { return 1; } int two() { return 2; }") {
        Ok(ASTNode::Program(fns)) => {
            assert_eq!(fns.len(), 2);
            assert_eq!(fns[0].get_name().unwrap(), "one");
            assert_eq!(fns[1].get_name().unwrap(), "two");
            assert_eq!(fns[0].get_body().unwrap().len(), 1);
        }
        other => panic!("expected a program, got {:?}", other),
    }
}

#[test]
fn get_name_is_none_off_functions() {
    let n = ASTNode::Constant(1);
    assert!(n.get_name().is_none());
    assert!(n.get_body().is_none());
}

#[test]
fn missing_type_keyword() {
    match parse_src("main() { return 0; }") {
        Err(CompileError::Parse(ParseError::ExpectedTypeKeyword(Token::Ident(s)))) => {
            assert_eq!(s, "main");
        }
        other => panic!("expected a type-keyword error, got {:?}", other),
    }
}

#[test]
fn void_reads_as_identifier_so_type_check_fails() {
    assert!(matches!(
        parse_src("void main() { return 0; }"),
        Err(CompileError::Parse(ParseError::ExpectedTypeKeyword(Token::Ident(_))))
    ));
}

#[test]
fn missing_function_name() {
    assert!(matches!(
        parse_src("int () { return 0; }"),
        Err(CompileError::Parse(ParseError::UnexpectedFunctionName(Token::LParen)))
    ));
}

#[test]
fn missing_semicolon_is_an_eat_mismatch() {
    match parse_src("int main() { return 5 }") {
        Err(CompileError::Parse(ParseError::UnexpectedToken { found, expected })) => {
            assert_eq!(found, Token::RBrace);
            assert_eq!(expected, Token::Semi);
        }
        other => panic!("expected an eat mismatch, got {:?}", other),
    }
}

#[test]
fn statement_must_start_with_a_statement_token() {
    assert!(matches!(
        parse_src("int main() { 5; }"),
        Err(CompileError::Parse(ParseError::UnexpectedStatement(Token::Number(5))))
    ));
}

#[test]
fn int_needs_an_identifier() {
    assert!(matches!(
        parse_src("int main() { int; }"),
        Err(CompileError::Parse(ParseError::ExpectedIdentifierAfterInt(Token::Semi)))
    ));
}

#[test]
fn factor_rejects_stray_tokens() {
    assert!(matches!(
        parse_src("int main() { return *; }"),
        Err(CompileError::Parse(ParseError::UnexpectedTokenInFactor(Token::Star)))
    ));
}

#[test]
fn scanner_errors_surface_through_the_parser() {
    assert_eq!(
        parse_src("int main() { return $; }"),
        Err(CompileError::Lex(LexError::UnknownChar('$')))
    );
}

#[test]
fn parsing_is_deterministic() {
    let src = "int main() { int a = 1; a = a + 2; return a * 3 && 4; }";
    let first = format!("{:?}", parse_src(src));
    let second = format!("{:?}", parse_src(src));
    assert_eq!(first, second);
}

#[test]
fn eat_advances_on_a_match_and_rejects_a_mismatch() {
    let mut parser = Parser::new(Lexer::new("int x")).unwrap();
    assert_eq!(parser.eat(Token::Keyword("int".to_owned())), Ok(()));
    match parser.eat(Token::Semi) {
        Err(CompileError::Parse(ParseError::UnexpectedToken { found, expected })) => {
            assert_eq!(found, Token::Ident("x".to_owned()));
            assert_eq!(expected, Token::Semi);
        }
        other => panic!("expected an eat mismatch, got {:?}", other),
    }
}

#[test]
fn assignment_is_rejected_inside_parentheses() {
    match parse_src("int main() { return (a = 2) + 1; }") {
        Err(CompileError::Parse(ParseError::UnexpectedToken { found, expected })) => {
            assert_eq!(found, Token::Assign);
            assert_eq!(expected, Token::RParen);
        }
        other => panic!("expected a mismatch at the right parenthesis, got {:?}", other),
    }
}

#[test]
fn assignment_is_rejected_at_expression_position() {
    match parse_src("int main() { return a = 2; }") {
        Err(CompileError::Parse(ParseError::UnexpectedToken { found, expected })) => {
            assert_eq!(found, Token::Assign);
            assert_eq!(expected, Token::Semi);
        }
        other => panic!("expected a mismatch at the semicolon, got {:?}", other),
    }
}

#[test]
fn declaration_is_rejected_at_expression_position() {
    match parse_src("int main() { return int x = 5; }") {
        Err(CompileError::Parse(ParseError::UnexpectedTokenInFactor(Token::Keyword(k)))) => {
            assert_eq!(k, "int");
        }
        other => panic!("expected a factor error on the keyword, got {:?}", other),
    }
}
