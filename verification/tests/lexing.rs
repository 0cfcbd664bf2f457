use pdp8asm::lexer::{Lexer, LexerError};
use pdp8asm::token::TokenKind;

fn kinds(src: &str) -> Vec<TokenKind<'_>> {
    let mut lexer = Lexer::new(src);
    let mut out = Vec::new();
    loop {
        match lexer.next() {
            Ok(Some(t)) => out.push(t.kind),
            Ok(None) => return out,
            Err(e) => panic!("unexpected lexer error: {:?}", e),
        }
    }
}

#[test]
fn words_and_punctuation() {
    let toks = kinds("and foo_2 [ ] : = $ .w");
    assert_eq!(
        toks,
        vec![
            TokenKind::Word("and"),
            TokenKind::Word("foo_2"),
            TokenKind::OpenSquare,
            TokenKind::CloseSquare,
            TokenKind::DoubleDot,
            TokenKind::Equal,
            TokenKind::CurrentInst,
            TokenKind::DotWord("w"),
        ]
    );
}

#[test]
fn integers_in_each_radix() {
    assert_eq!(kinds("123"), vec![TokenKind::Integer(123)]);
    assert_eq!(kinds("0b101"), vec![TokenKind::Integer(5)]);
    assert_eq!(kinds("0x1F"), vec![TokenKind::Integer(31)]);
    assert_eq!(kinds("0"), vec![TokenKind::Integer(0)]);
    assert_eq!(kinds("65535"), vec![TokenKind::Integer(65535)]);
}

#[test]
fn octal_prefix_is_read_in_base_twelve() {
    // The long-standing quirk: `0o` selects base 12, not base 8.
    assert_eq!(kinds("0o17"), vec![TokenKind::Integer(1 * 12 + 7)]);
    assert_eq!(kinds("0o10"), vec![TokenKind::Integer(12)]);
    assert_eq!(kinds("0obb"), vec![TokenKind::Integer(11 * 12 + 11)]);
}

#[test]
fn dollar_with_digits_is_an_integer() {
    assert_eq!(kinds("$16"), vec![TokenKind::Integer(16)]);
    assert_eq!(kinds("$0x10"), vec![TokenKind::Integer(16)]);
    assert_eq!(kinds("$"), vec![TokenKind::CurrentInst]);
    assert_eq!(
        kinds("$ 16"),
        vec![TokenKind::CurrentInst, TokenKind::Integer(16)]
    );
}

#[test]
fn all_standard_whitespace_is_skipped() {
    // Vertical tab, form feed and Unicode spaces are whitespace too.
    assert_eq!(
        kinds("\u{0B}\u{0C}and\u{A0}5"),
        vec![TokenKind::Word("and"), TokenKind::Integer(5)]
    );
}

#[test]
fn identifiers_may_hold_any_alphanumeric() {
    assert_eq!(kinds("héllo"), vec![TokenKind::Word("héllo")]);
    assert_eq!(
        kinds("étiquette: jmp étiquette"),
        vec![
            TokenKind::Word("étiquette"),
            TokenKind::DoubleDot,
            TokenKind::Word("jmp"),
            TokenKind::Word("étiquette"),
        ]
    );
}

#[test]
fn comments_and_whitespace_are_skipped() {
    assert_eq!(
        kinds("; a comment\n  and\t; more\r\njmp"),
        vec![TokenKind::Word("and"), TokenKind::Word("jmp")]
    );
    assert_eq!(kinds("; only a comment"), vec![]);
    assert_eq!(kinds("   \n\t "), vec![]);
    assert_eq!(kinds(""), vec![]);
}

#[test]
fn unparsable_character_is_reported() {
    let mut lexer = Lexer::new("@");
    assert_eq!(lexer.next(), Err(LexerError::Unparsable('@')));
    let mut lexer = Lexer::new("and #");
    assert!(matches!(lexer.next(), Ok(Some(_))));
    assert_eq!(lexer.next(), Err(LexerError::Unparsable('#')));
}

#[test]
fn malformed_literals_are_reported() {
    for src in ["0b2", "0xg1", "0oc", "0b", "9a", "70000", "$zz"] {
        let mut lexer = Lexer::new(src);
        assert_eq!(
            lexer.next(),
            Err(LexerError::MalformedLiteral),
            "source {:?}",
            src
        );
    }
}

#[test]
fn peak_does_not_consume() {
    let mut lexer = Lexer::new("and 5");
    let p = lexer.peak().unwrap().unwrap();
    assert_eq!(p.kind, TokenKind::Word("and"));
    let n = lexer.next().unwrap().unwrap();
    assert_eq!(n.kind, TokenKind::Word("and"));
    let n = lexer.next().unwrap().unwrap();
    assert_eq!(n.kind, TokenKind::Integer(5));
    assert!(lexer.next().unwrap().is_none());
}

#[test]
fn eat_discards_one_token() {
    let mut lexer = Lexer::new("and 5");
    lexer.eat();
    let n = lexer.next().unwrap().unwrap();
    assert_eq!(n.kind, TokenKind::Integer(5));
}

#[test]
fn dot_alone_gives_empty_directive_name() {
    assert_eq!(kinds(". foo"), vec![TokenKind::DotWord(""), TokenKind::Word("foo")]);
}
