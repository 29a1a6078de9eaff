use minicc::lexer::{LexError, Lexer, Token, token_eq, str_eq};

fn lex_all(src: &str) -> Result<Vec<Token>, LexError> {
    let mut lx = Lexer::new(src);
    let mut out = Vec::new();
    loop {
        let t = lx.next_token()?;
        if t == Token::EOF {
            return Ok(out);
        }
        out.push(t);
    }
}

#[test]
fn empty_input_is_eof() {
    let mut lx = Lexer::new("");
    assert_eq!(lx.next_token(), Ok(Token::EOF));
    assert_eq!(lx.next_token(), Ok(Token::EOF));
}

#[test]
fn whitespace_only_is_eof() {
    assert_eq!(lex_all(" \t\r\n  \n"), Ok(vec![]));
}

#[test]
fn single_character_tokens() {
    assert_eq!(
        lex_all("+ - * / ( ) { } ; : ? ~"),
        Ok(vec![
            Token::Plus,
            Token::Minus,
            Token::Star,
            Token::Slash,
            Token::LParen,
            Token::RParen,
            Token::LBrace,
            Token::RBrace,
            Token::Semi,
            Token::Colon,
            Token::Question,
            Token::Bitwise,
        ])
    );
}

#[test]
fn two_character_operators() {
    assert_eq!(
        lex_all("== != <= >= < > = ! && ||"),
        Ok(vec![
            Token::EqualTo,
            Token::NEqualTo,
            Token::LessEq,
            Token::GreatThEq,
            Token::Less,
            Token::GreatTh,
            Token::Assign,
            Token::LogicalNot,
            Token::LogAnd,
            Token::LogOr,
        ])
    );
}

#[test]
fn logical_operators_bind_without_spaces() {
    assert_eq!(
        lex_all("a&&b"),
        Ok(vec![
            Token::Ident("a".to_owned()),
            Token::LogAnd,
            Token::Ident("b".to_owned()),
        ])
    );
}

#[test]
fn keywords_and_identifiers() {
    assert_eq!(
        lex_all("int return if else integer _x x9"),
        Ok(vec![
            Token::Keyword("int".to_owned()),
            Token::Keyword("return".to_owned()),
            Token::Keyword("if".to_owned()),
            Token::Keyword("else".to_owned()),
            Token::Ident("integer".to_owned()),
            Token::Ident("_x".to_owned()),
            Token::Ident("x9".to_owned()),
        ])
    );
}

#[test]
fn void_is_an_identifier_not_a_keyword() {
    assert_eq!(lex_all("void"), Ok(vec![Token::Ident("void".to_owned())]));
}

#[test]
fn numbers_scan_to_signed_integers() {
    assert_eq!(
        lex_all("0 7 123 9223372036854775807"),
        Ok(vec![
            Token::Number(0),
            Token::Number(7),
            Token::Number(123),
            Token::Number(i64::MAX),
        ])
    );
}

#[test]
fn decimal_point_is_a_malformed_number() {
    assert_eq!(lex_all("1.5"), Err(LexError::MalformedNumber('.')));
}

#[test]
fn too_large_literal_is_a_malformed_number() {
    assert_eq!(
        lex_all("9223372036854775808"),
        Err(LexError::MalformedNumber('9'))
    );
}

#[test]
fn unknown_character_is_fatal() {
    assert_eq!(lex_all("@"), Err(LexError::UnknownChar('@')));
}

#[test]
fn lone_ampersand_is_unterminated() {
    assert_eq!(lex_all("&"), Err(LexError::UnterminatedOp('&')));
    assert_eq!(lex_all("a & b"), Err(LexError::UnterminatedOp('&')));
    assert_eq!(lex_all("|"), Err(LexError::UnterminatedOp('|')));
}

#[test]
fn next_char_walks_the_text() {
    let mut lx = Lexer::new("ab");
    assert_eq!(lx.next_char(), Some('a'));
    assert_eq!(lx.peek_char(), Some('b'));
    assert_eq!(lx.next_char(), Some('b'));
    assert_eq!(lx.next_char(), None);
}

#[test]
fn lexing_is_deterministic() {
    let src = "int main() { return 1 && 2 || x_3 <= 41; }";
    let first = lex_all(src);
    let second = lex_all(src);
    assert_eq!(first, second);
}

#[test]
fn token_eq_compares_structurally() {
    assert!(token_eq(&Token::Ident("a".to_owned()), &Token::Ident("a".to_owned())));
    assert!(!token_eq(&Token::Ident("a".to_owned()), &Token::Ident("b".to_owned())));
    assert!(!token_eq(&Token::Ident("a".to_owned()), &Token::Keyword("a".to_owned())));
    assert!(token_eq(&Token::Number(3), &Token::Number(3)));
    assert!(!token_eq(&Token::Number(3), &Token::Number(4)));
}

#[test]
fn dup_copies_the_payload() {
    let t = Token::Ident("abc".to_owned());
    assert_eq!(t.dup(), t);
}

#[test]
fn str_eq_compares_contents() {
    assert!(str_eq("abc", "abc"));
    assert!(!str_eq("abc", "abd"));
    assert!(!str_eq("abc", "ab"));
    assert!(str_eq("", ""));
}
