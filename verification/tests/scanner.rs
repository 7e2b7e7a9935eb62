use rlox::scanner::{ScanError, Scanner, Token};

fn scan(code: &str) -> Result<Vec<Token>, Vec<ScanError>> {
    Scanner::new(code).emit_all()
}

fn tokens(code: &str) -> Vec<Token> {
    scan(code).unwrap()
}

fn errors(code: &str) -> Vec<(usize, String)> {
    scan(code)
        .unwrap_err()
        .iter()
        .map(|error| (error.line(), String::from(error.message())))
        .collect()
}

fn identifier(name: &str) -> Token {
    Token::Identifier(String::from(name))
}

fn number(text: &str) -> Token {
    Token::LiteralNumber(String::from(text))
}

fn string(text: &str) -> Token {
    Token::LiteralString(String::from(text))
}

#[test]
fn empty_source_has_no_token() {
    assert_eq!(scan(""), Ok(vec![]));
}

#[test]
fn single_character_tokens() {
    assert_eq!(
        tokens("(){},.-+;*"),
        vec![
            Token::LParen,
            Token::RParen,
            Token::LBrace,
            Token::RBrace,
            Token::Comma,
            Token::Dot,
            Token::Minus,
            Token::Plus,
            Token::Semicolon,
            Token::Star,
            Token::Eof,
        ]
    );
}

#[test]
fn operators_look_one_character_ahead() {
    assert_eq!(
        tokens("! != = == < <= > >= /"),
        vec![
            Token::Bang,
            Token::BangEqual,
            Token::Equal,
            Token::EqualEqual,
            Token::Less,
            Token::LessEqual,
            Token::Greater,
            Token::GreaterEqual,
            Token::Slash,
            Token::Eof,
        ]
    );
    assert_eq!(tokens("==="), vec![Token::EqualEqual, Token::Equal, Token::Eof]);
    assert_eq!(tokens("!"), vec![Token::Bang, Token::Eof]);
    assert_eq!(tokens("<=="), vec![Token::LessEqual, Token::Equal, Token::Eof]);
}

#[test]
fn white_space_is_left_out() {
    assert_eq!(tokens(" \t\r\n+ \n"), vec![Token::Plus, Token::Eof]);
    assert_eq!(tokens("   "), vec![Token::Eof]);
    assert_eq!(tokens("+ "), vec![Token::Plus, Token::Eof]);
    assert_eq!(tokens(" +"), vec![Token::Plus, Token::Eof]);
}

#[test]
fn comments_run_to_the_end_of_the_line_and_are_left_out() {
    assert_eq!(tokens("+ // a comment ( with tokens\n-"), vec![Token::Plus, Token::Minus, Token::Eof]);
    assert_eq!(tokens("// only a comment"), vec![Token::Eof]);
    assert_eq!(tokens("/ /"), vec![Token::Slash, Token::Slash, Token::Eof]);
    assert_eq!(tokens("///"), vec![Token::Eof]);
}

#[test]
fn string_literals_lose_their_quotes() {
    assert_eq!(tokens("\"hello\""), vec![string("hello"), Token::Eof]);
    assert_eq!(tokens("\"\""), vec![string(""), Token::Eof]);
    assert_eq!(tokens("\"a\" \"b\""), vec![string("a"), string("b"), Token::Eof]);
    assert_eq!(tokens("\"// no comment\""), vec![string("// no comment"), Token::Eof]);
    assert_eq!(tokens("\"two\nlines\""), vec![string("two\nlines"), Token::Eof]);
    assert_eq!(tokens("\"žluťoučký 日本\";"), vec![string("žluťoučký 日本"), Token::Semicolon, Token::Eof]);
}

#[test]
fn unterminated_string_is_an_error() {
    assert_eq!(errors("\"abc"), vec![(1, String::from("Unterminated string literal \"abc"))]);
    assert_eq!(errors("\""), vec![(1, String::from("Unterminated string literal \""))]);
    assert_eq!(
        errors("x\n\"abc\ndef\n"),
        vec![(4, String::from("Unterminated string literal \"abc\ndef\n"))]
    );
}

#[test]
fn number_literals_keep_their_text() {
    assert_eq!(tokens("0"), vec![number("0"), Token::Eof]);
    assert_eq!(tokens("123"), vec![number("123"), Token::Eof]);
    assert_eq!(tokens("3.14"), vec![number("3.14"), Token::Eof]);
    assert_eq!(tokens("7."), vec![number("7."), Token::Eof]);
    assert_eq!(tokens("1.2.3"), vec![number("1.2"), Token::Dot, number("3"), Token::Eof]);
    assert_eq!(tokens("1..2"), vec![number("1."), Token::Dot, number("2"), Token::Eof]);
    assert_eq!(tokens(".5"), vec![Token::Dot, number("5"), Token::Eof]);
    assert_eq!(tokens("12ab"), vec![number("12"), identifier("ab"), Token::Eof]);
    assert_eq!(tokens("1+2"), vec![number("1"), Token::Plus, number("2"), Token::Eof]);
}

#[test]
fn number_texts_are_numbers() {
    for token in tokens("0 123 3.14 7. 00.50") {
        if let Token::LiteralNumber(text) = token {
            assert!(text.parse::<f64>().is_ok());
        }
    }
    assert_eq!(
        tokens("3.14 7."),
        vec![number("3.14"), number("7."), Token::Eof]
    );
    assert_eq!("7.".parse::<f64>(), Ok(7.0));
}

#[test]
fn keywords_are_told_from_identifiers() {
    assert_eq!(
        tokens("and class else false fun for if nil or print return super this true var while"),
        vec![
            Token::KeywordAnd,
            Token::KeywordClass,
            Token::KeywordElse,
            Token::KeywordFalse,
            Token::KeywordFun,
            Token::KeywordFor,
            Token::KeywordIf,
            Token::KeywordNil,
            Token::KeywordOr,
            Token::KeywordPrint,
            Token::KeywordReturn,
            Token::KeywordSuper,
            Token::KeywordThis,
            Token::KeywordTrue,
            Token::KeywordVar,
            Token::KeywordWhile,
            Token::Eof,
        ]
    );
    assert_eq!(
        tokens("And classes _if or_ x1 _ whileTrue"),
        vec![
            identifier("And"),
            identifier("classes"),
            identifier("_if"),
            identifier("or_"),
            identifier("x1"),
            identifier("_"),
            identifier("whileTrue"),
            Token::Eof,
        ]
    );
}

#[test]
fn a_small_program() {
    assert_eq!(
        tokens("var answer = (40 + 2) * 1.5; // done\nprint \"ok\";\n"),
        vec![
            Token::KeywordVar,
            identifier("answer"),
            Token::Equal,
            Token::LParen,
            number("40"),
            Token::Plus,
            number("2"),
            Token::RParen,
            Token::Star,
            number("1.5"),
            Token::Semicolon,
            Token::KeywordPrint,
            string("ok"),
            Token::Semicolon,
            Token::Eof,
        ]
    );
}

#[test]
fn unexpected_characters_are_errors() {
    assert_eq!(errors("@"), vec![(1, String::from("Unexpected character '@'"))]);
    assert_eq!(
        errors("a # b\n$"),
        vec![
            (1, String::from("Unexpected character '#'")),
            (2, String::from("Unexpected character '$'")),
        ]
    );
}

#[test]
fn bytes_of_other_characters_are_reported_one_by_one() {
    assert_eq!(
        errors("é"),
        vec![
            (1, String::from("Unexpected character 'Ã'")),
            (1, String::from("Unexpected character '©'")),
        ]
    );
}

#[test]
fn all_errors_are_collected_with_their_lines() {
    assert_eq!(
        errors("var x = 1;\n?\n\n  ^ \"open\n"),
        vec![
            (2, String::from("Unexpected character '?'")),
            (4, String::from("Unexpected character '^'")),
            (5, String::from("Unterminated string literal \"open\n")),
        ]
    );
}

#[test]
fn lines_inside_strings_are_counted() {
    assert_eq!(
        errors("\"one\ntwo\nthree\" %"),
        vec![(3, String::from("Unexpected character '%'"))]
    );
}

#[test]
fn error_report_names_the_line() {
    let found = scan("\n\n~").unwrap_err();
    assert_eq!(found.len(), 1);
    assert_eq!(found[0].to_string(), "[line 3] Error: Unexpected character '~'");
}

#[test]
fn scanner_at_the_end_finds_nothing_more() {
    let mut scanner = Scanner::new("1 + 2");
    assert_eq!(
        scanner.emit_all(),
        Ok(vec![number("1"), Token::Plus, number("2"), Token::Eof])
    );
    assert_eq!(scanner.emit_all(), Ok(vec![]));
}
