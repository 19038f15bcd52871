use stacklang::lexer::lex;
use stacklang::render::render_tokens;

fn printed(text: &str) -> String {
    render_tokens(&lex(&String::from("t"), String::from(text)).unwrap())
}

#[test]
fn render_simple_group() {
    assert_eq!(printed("(2 3 +)"), "(2 3 +)");
}

#[test]
fn render_normalises_blanks() {
    assert_eq!(printed("  if(1)else  (2)\n( 7\t8 )"), "if (1) else (2) (7 8)");
}

#[test]
fn render_every_kind() {
    assert_eq!(
        printed("macro[2] f ({a b} a b - @c c print) 007 [LENGTH] STACK repeat(1) while x = < > ! * /"),
        "macro[2] f ({a b} a b - @c c print) 7 [LENGTH] STACK repeat (1) while x = < > ! * /"
    );
    assert_eq!(printed("macro g 1"), "macro g 1");
    assert_eq!(printed("if 1"), "if 1");
}

#[test]
fn render_then_parse_gives_same_tree() {
    let texts = [
        "(2 3 +)",
        "(0 if(99)) (1 if(99) else (3)) 5",
        "macro[2] add2 (+ +) 1 2 3 add2",
        "{x y} @z repeat(x y *) while(1 -) STACK LENGTH print",
        "(if (if 1 else 2) 3)",
    ];
    for text in texts.iter() {
        let first = lex(&String::from("t"), String::from(*text)).unwrap();
        let shown = render_tokens(&first);
        let second = lex(&String::from("t"), shown.clone()).unwrap();
        assert_eq!(render_tokens(&second), shown);
        assert_eq!(first.len(), second.len());
        for (a, b) in first.iter().zip(second.iter()) {
            assert_eq!(render_tokens(&vec![a.copy()]), render_tokens(&vec![b.copy()]));
        }
    }
}
