use stacklang::error::Error;
use stacklang::lexer::{lex, File, Lexer, Token, TYPES};

fn parse(text: &str) -> Result<Vec<Token>, Error> {
    lex(&String::from("test"), String::from(text))
}

fn kinds(tokens: &[Token]) -> Vec<&TYPES> {
    tokens.iter().map(|t| &t.token).collect()
}

#[test]
fn lex_group_of_numbers_and_operator() {
    let tokens = parse("(2 3 +)").unwrap();
    assert_eq!(tokens.len(), 1);
    assert_eq!(tokens[0].start, 0);
    assert_eq!(tokens[0].stop, 7);
    match &tokens[0].token {
        TYPES::BODY(items) => {
            assert_eq!(kinds(items), vec![&TYPES::INT(2), &TYPES::INT(3), &TYPES::ADD]);
            assert_eq!((items[1].start, items[1].stop), (3, 4));
        },
        other => panic!("unexpected {:?}", other),
    }
}

#[test]
fn lex_operators() {
    let tokens = parse("+ - * / = < > !").unwrap();
    assert_eq!(
        kinds(&tokens),
        vec![
            &TYPES::ADD,
            &TYPES::SUB,
            &TYPES::MUL,
            &TYPES::DIV,
            &TYPES::EQ,
            &TYPES::LT,
            &TYPES::GT,
            &TYPES::NOT
        ]
    );
}

#[test]
fn lex_minus_before_digits_is_subtraction() {
    let tokens = parse("-7").unwrap();
    assert_eq!(kinds(&tokens), vec![&TYPES::SUB, &TYPES::INT(7)]);
}

#[test]
fn lex_names_binds_and_specials() {
    let tokens = parse("\tfoo_1 @bar STACK LENGTH print else\n").unwrap();
    assert_eq!(
        kinds(&tokens),
        vec![
            &TYPES::ID(String::from("foo_1")),
            &TYPES::SET(String::from("bar")),
            &TYPES::VAR(String::from("STACK")),
            &TYPES::VAR(String::from("LENGTH")),
            &TYPES::PRINT,
            &TYPES::ID(String::from("else")),
        ]
    );
}

#[test]
fn lex_if_without_else() {
    let tokens = parse("if(99) 5").unwrap();
    assert_eq!(tokens.len(), 2);
    match &tokens[0].token {
        TYPES::IF(then_t, else_t) => {
            assert!(matches!(then_t.token, TYPES::BODY(_)));
            assert_eq!(else_t.token, TYPES::NONE);
        },
        other => panic!("unexpected {:?}", other),
    }
    assert_eq!(tokens[1].token, TYPES::INT(5));
}

#[test]
fn lex_if_with_else() {
    let tokens = parse("if 1 else 2").unwrap();
    assert_eq!(tokens.len(), 1);
    match &tokens[0].token {
        TYPES::IF(then_t, else_t) => {
            assert_eq!(then_t.token, TYPES::INT(1));
            assert_eq!(else_t.token, TYPES::INT(2));
        },
        other => panic!("unexpected {:?}", other),
    }
    assert_eq!(tokens[0].stop, 11);
}

#[test]
fn lex_repeat_and_while_take_one_node() {
    let tokens = parse("repeat(1) while 2 3").unwrap();
    assert_eq!(tokens.len(), 3);
    assert!(matches!(tokens[0].token, TYPES::REPEAT(_)));
    match &tokens[1].token {
        TYPES::WHILE(b) => assert_eq!(b.token, TYPES::INT(2)),
        other => panic!("unexpected {:?}", other),
    }
    assert_eq!(tokens[2].token, TYPES::INT(3));
}

#[test]
fn lex_macro_with_size() {
    let tokens = parse("macro[2] add2 (+ +)").unwrap();
    assert_eq!(tokens.len(), 1);
    match &tokens[0].token {
        TYPES::MACRO(name, size, body) => {
            assert_eq!(name, "add2");
            match &size.token {
                TYPES::SIZE(inner) => assert_eq!(inner.token, TYPES::INT(2)),
                other => panic!("unexpected {:?}", other),
            }
            assert!(matches!(body.token, TYPES::BODY(_)));
        },
        other => panic!("unexpected {:?}", other),
    }
}

#[test]
fn lex_macro_without_size() {
    let tokens = parse("macro f 1").unwrap();
    match &tokens[0].token {
        TYPES::MACRO(name, size, body) => {
            assert_eq!(name, "f");
            assert_eq!(size.token, TYPES::NONE);
            assert_eq!(body.token, TYPES::INT(1));
        },
        other => panic!("unexpected {:?}", other),
    }
}

#[test]
fn lex_mapping_pattern() {
    let tokens = parse("{a bc d1}").unwrap();
    assert_eq!(
        tokens[0].token,
        TYPES::MAP(vec![String::from("a"), String::from("bc"), String::from("d1")])
    );
}

#[test]
fn lex_empty_text_and_empty_group() {
    assert_eq!(parse("").unwrap().len(), 0);
    assert_eq!(parse("  \n ").unwrap().len(), 0);
    assert_eq!(parse("()").unwrap()[0].token, TYPES::BODY(vec![]));
    assert_eq!(parse("( )").unwrap()[0].token, TYPES::BODY(vec![]));
}

#[test]
fn lex_char_error() {
    assert_eq!(parse("1 # 2").unwrap_err(), Error::Char(2, '#'));
    assert_eq!(parse("(1 ]").unwrap_err(), Error::Char(3, ']'));
}

#[test]
fn lex_syntax_errors() {
    assert_eq!(parse("@if").unwrap_err(), Error::Syntax(1));
    assert_eq!(parse("@ x").unwrap_err(), Error::Syntax(1));
    assert_eq!(parse("{a 1}").unwrap_err(), Error::Syntax(3));
    assert_eq!(parse("macro 5 (1)").unwrap_err(), Error::Syntax(6));
    assert_eq!(parse("[2 ]").unwrap_err(), Error::Syntax(2));
}

#[test]
fn lex_eof_errors() {
    assert_eq!(parse("(1 2").unwrap_err(), Error::Eof(4));
    assert_eq!(parse("if").unwrap_err(), Error::Eof(2));
    assert_eq!(parse("repeat  ").unwrap_err(), Error::Eof(8));
    assert_eq!(parse("{a").unwrap_err(), Error::Eof(2));
    assert_eq!(parse("macro f").unwrap_err(), Error::Eof(7));
}

#[test]
fn lex_literal_too_large() {
    assert_eq!(parse("9223372036854775807").unwrap()[0].token, TYPES::INT(9223372036854775807));
    assert_eq!(parse("1 9223372036854775808").unwrap_err(), Error::Literal(2));
}

#[test]
fn lexer_scans_step_by_step() {
    let file = File { name: String::from("f"), text: String::from("ab1 (7)") };
    let mut lexer = Lexer::new(file);
    assert_eq!(lexer.char(), Some('a'));
    assert_eq!(lexer.range(0, 3), "ab1");
    assert_eq!(lexer.range(5, 100), "7)");
    assert_eq!(lexer.range(3, 1), "");
    assert_eq!(lexer.word().unwrap(), "ab1");
    assert_eq!(lexer.char(), Some(' '));
    assert_eq!(lexer.word(), Err(Error::Syntax(3)));
    lexer.advance();
    let t = lexer.next().unwrap();
    assert_eq!(t.token, TYPES::BODY(vec![Token::new(TYPES::INT(7), 5, 6)]));
    assert_eq!(lexer.char(), None);
    lexer.advance();
    assert_eq!(lexer.char(), None);
    assert_eq!(lexer.lex(), Ok(()));
}

#[test]
fn lexer_next_error_moves_to_position() {
    let file = File { name: String::from("f"), text: String::from("  ~") };
    let mut lexer = Lexer::new(file);
    assert_eq!(lexer.next(), Err(Error::Char(2, '~')));
    assert_eq!(lexer.char(), Some('~'));
}

#[test]
fn token_copy_is_equal() {
    let tokens = parse("(1 {a b} if(x) else(@y) macro[n] m (STACK))").unwrap();
    assert_eq!(tokens[0].copy(), tokens[0]);
    assert_eq!(Token::none().token, TYPES::NONE);
}

fn first_token(text: &str) -> Token {
    let mut lexer = Lexer::new(File { name: String::from("f"), text: String::from(text) });
    lexer.next().unwrap()
}

#[test]
fn next_gives_spans_of_groups_and_patterns() {
    assert_eq!(
        first_token("(1 +)"),
        Token::new(
            TYPES::BODY(vec![Token::new(TYPES::INT(1), 1, 2), Token::new(TYPES::ADD, 3, 4)]),
            0,
            5
        )
    );
    assert_eq!(
        first_token("{a b}"),
        Token::new(TYPES::MAP(vec![String::from("a"), String::from("b")]), 0, 5)
    );
    assert_eq!(first_token("  42 "), Token::new(TYPES::INT(42), 2, 4));
}

#[test]
fn next_gives_spans_of_macro_and_bind() {
    let size = Token::new(TYPES::SIZE(Box::new(Token::new(TYPES::INT(2), 6, 7))), 5, 8);
    let body = Token::new(TYPES::BODY(vec![Token::new(TYPES::INT(1), 12, 13)]), 11, 14);
    assert_eq!(
        first_token("macro[2] m (1)"),
        Token::new(TYPES::MACRO(String::from("m"), Box::new(size), Box::new(body)), 0, 14)
    );
    assert_eq!(first_token("@x"), Token::new(TYPES::SET(String::from("x")), 0, 2));
}

#[test]
fn next_gives_spans_of_conditionals() {
    assert_eq!(
        first_token("if 1 else 2"),
        Token::new(
            TYPES::IF(
                Box::new(Token::new(TYPES::INT(1), 3, 4)),
                Box::new(Token::new(TYPES::INT(2), 10, 11))
            ),
            0,
            11
        )
    );
    assert_eq!(
        first_token("if 1"),
        Token::new(
            TYPES::IF(Box::new(Token::new(TYPES::INT(1), 3, 4)), Box::new(Token::none())),
            0,
            4
        )
    );
}

#[test]
fn next_gives_spans_of_words_and_operators() {
    assert_eq!(first_token("STACK"), Token::new(TYPES::VAR(String::from("STACK")), 0, 5));
    assert_eq!(first_token("LENGTH"), Token::new(TYPES::VAR(String::from("LENGTH")), 0, 6));
    assert_eq!(first_token("print"), Token::new(TYPES::PRINT, 0, 5));
    assert_eq!(first_token("x1"), Token::new(TYPES::ID(String::from("x1")), 0, 2));
    assert_eq!(first_token("+"), Token::new(TYPES::ADD, 0, 1));
    assert_eq!(first_token("!"), Token::new(TYPES::NOT, 0, 1));
}

#[test]
fn lex_gives_spans() {
    assert_eq!(
        parse("1 2").unwrap(),
        vec![Token::new(TYPES::INT(1), 0, 1), Token::new(TYPES::INT(2), 2, 3)]
    );
    assert_eq!(
        parse("(1) \n").unwrap(),
        vec![Token::new(TYPES::BODY(vec![Token::new(TYPES::INT(1), 1, 2)]), 0, 3)]
    );
}

#[test]
fn range_cuts_start_to_last_character() {
    let lexer = Lexer::new(File { name: String::from("f"), text: String::from("ab") });
    assert_eq!(lexer.range(5, 5), "b");
    assert_eq!(lexer.range(0, 9), "ab");
    let empty = Lexer::new(File { name: String::from("f"), text: String::new() });
    assert_eq!(empty.range(0, 3), "");
}

#[test]
fn advance_moves_past_the_end() {
    let mut lexer = Lexer::new(File { name: String::from("f"), text: String::new() });
    lexer.advance();
    assert_eq!(lexer.char(), None);
    assert_eq!(lexer.next(), Err(Error::Eof(1)));
    assert_eq!(lexer.word(), Err(Error::Syntax(1)));
    assert_eq!(lexer.lex(), Ok(()));
}

#[test]
fn clone_keeps_tree_and_spans() {
    let tokens = parse("(1 if(2) else(3))").unwrap();
    assert_eq!(tokens[0].clone(), tokens[0]);
    assert_eq!(tokens[0].token.clone(), tokens[0].token);
}
