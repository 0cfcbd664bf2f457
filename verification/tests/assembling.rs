use pdp8asm::codec::Serialiser;
use pdp8asm::driver::{assemble_program, AsmError};
use pdp8asm::lexer::LexerError;

fn assemble(src: &str) -> Result<Serialiser, AsmError> {
    let mut s = Serialiser::new();
    assemble_program(&mut s, src).map(|_| s)
}

fn word_at(s: &mut Serialiser, i: usize) -> u16 {
    s.set_ip(i);
    s.decode_u12()
}

#[test]
fn forward_reference_resolves_like_the_literal() {
    let mut with_label = assemble("jmp foo \n foo: \n and 5").unwrap();
    let with_literal = assemble("jmp 1 \n foo: \n and 5").unwrap();
    assert_eq!(with_label.data, with_literal.data);
    let no_label = assemble("jmp 1 \n and 5").unwrap();
    assert_eq!(with_label.data, no_label.data);
    assert_eq!(with_label.data, vec![0x25, 0x00, 0x0A]);
    // jmp's operand is patched to 1, the word index of the and instruction.
    assert_eq!(word_at(&mut with_label, 0), 5 | (1 << 5));
    assert_eq!(word_at(&mut with_label, 1), 0 | (5 << 5));
}

#[test]
fn several_forward_references_are_all_patched() {
    let mut s = assemble("jmp foo\njmp foo\nfoo: and 1").unwrap();
    assert_eq!(word_at(&mut s, 0), 5 | (2 << 5));
    assert_eq!(word_at(&mut s, 1), 5 | (2 << 5));
    assert_eq!(word_at(&mut s, 2), 0 | (1 << 5));
}

#[test]
fn backward_reference_uses_the_symbol_table() {
    let mut s = assemble("foo: and 1\njmp foo").unwrap();
    assert_eq!(word_at(&mut s, 0), 0 | (1 << 5));
    assert_eq!(word_at(&mut s, 1), 5 | (0 << 5));
}

#[test]
fn two_labels_pending_at_once_are_patched_independently() {
    let mut s = assemble("jmp a\njmp b\na: and 1\nb: tad 2").unwrap();
    assert_eq!(word_at(&mut s, 0), 5 | (2 << 5));
    assert_eq!(word_at(&mut s, 1), 5 | (3 << 5));
    assert_eq!(word_at(&mut s, 2), 0 | (1 << 5));
    assert_eq!(word_at(&mut s, 3), 1 | (2 << 5));
}

#[test]
fn patching_an_odd_site_leaves_the_shared_byte_intact() {
    let s = assemble("jmp 0\njmp foo\nfoo:").unwrap();
    // Word 0 is 5; word 1 is patched to 5 | 2 << 5 == 69: its low four bits
    // land in the high nibble of the byte both words share. The closing
    // definition seeks to word 2, so the image covers that position too.
    assert_eq!(s.data, vec![5, 0x50, 4, 0, 0]);
}

#[test]
fn seeking_covers_the_seeked_word_position() {
    // A bare reposition still leaves an image that runs through the seeked
    // word: word 4 starts at byte 6 and needs two bytes.
    let mut s = assemble("$ = 4").unwrap();
    assert_eq!(s.data.len(), 8);
    assert_eq!(word_at(&mut s, 4), 0);
    // A trailing label definition seeks to its own address and covers it.
    let s = assemble("jmp 1\nfoo:").unwrap();
    assert_eq!(s.data, vec![5 | (1 << 5), 0, 0]);
}

#[test]
fn repositioning_backwards_rewrites_without_shrinking() {
    let mut s = assemble("$ = 4\n.w 7\n$ = 1\n.w 9").unwrap();
    assert_eq!(s.data.len(), 3 * 4 / 2 + 2);
    assert_eq!(word_at(&mut s, 4), 7);
    assert_eq!(word_at(&mut s, 1), 9);
    assert_eq!(word_at(&mut s, 0), 0);
    assert_eq!(word_at(&mut s, 2), 0);
    assert_eq!(word_at(&mut s, 3), 0);
}

#[test]
fn unresolved_label_reports_name_and_count() {
    let err = assemble("jmp undefined_label").unwrap_err();
    assert_eq!(
        err,
        AsmError::UnresolvedLabels(vec![(String::from("undefined_label"), 1)])
    );
    let err = assemble("jmp a\njmp a\njmp b").unwrap_err();
    assert_eq!(
        err,
        AsmError::UnresolvedLabels(vec![(String::from("a"), 2), (String::from("b"), 1)])
    );
}

#[test]
fn org_directive_places_words_and_zero_fills() {
    let mut s = assemble("$ = 16\njmp 2").unwrap();
    assert_eq!(word_at(&mut s, 16), 5 | (2 << 5));
    for i in 0..16 {
        assert_eq!(word_at(&mut s, i), 0, "word {} should be zero", i);
    }
    assert_eq!(s.data.len(), 3 * 16 / 2 + 2);
}

#[test]
fn iot_encodes_device_and_function() {
    let mut s = assemble("iot 3 5").unwrap();
    let w = word_at(&mut s, 0);
    assert_eq!(w & 0x7, 0x6);
    assert_eq!((w >> 3) & 0x3F, 3);
    assert_eq!((w >> 9) & 0x7, 5);
}

#[test]
fn iot_fields_above_their_widths_truncate_without_rejection() {
    // Device and function are range-checked against 256 but only six and
    // three bits are kept; larger values silently truncate on encode.
    let mut s = assemble("iot 100 200").unwrap();
    let w = word_at(&mut s, 0);
    assert_eq!(w, (0x6 | (100 << 3) | (200 << 9)) & 0xFFF);
    assert_eq!((w >> 3) & 0x3F, 100 & 0x3F);
}

#[test]
fn iot_operand_errors() {
    assert_eq!(assemble("iot 256 1").unwrap_err(), AsmError::IotOperandTooBig(256));
    assert_eq!(assemble("iot 1 300").unwrap_err(), AsmError::IotOperandTooBig(300));
    assert_eq!(assemble("iot").unwrap_err(), AsmError::ExpectedIotOperand);
    assert_eq!(assemble("iot 1").unwrap_err(), AsmError::ExpectedIotOperand);
    assert_eq!(assemble("iot foo 1").unwrap_err(), AsmError::ExpectedIotOperand);
}

#[test]
fn all_eight_opcodes_assemble() {
    let cases = [
        ("and", 0u16),
        ("tad", 1),
        ("isz", 2),
        ("dca", 3),
        ("call", 4),
        ("jmp", 5),
        ("opr", 7),
    ];
    for (mnemonic, opcode) in cases {
        let src = format!("{} 3", mnemonic);
        let mut s = assemble(&src).unwrap();
        assert_eq!(word_at(&mut s, 0), opcode | (3 << 5), "mnemonic {}", mnemonic);
        let upper = format!("{} 3", mnemonic.to_uppercase());
        let mut s = assemble(&upper).unwrap();
        assert_eq!(word_at(&mut s, 0), opcode | (3 << 5), "mnemonic {}", upper);
    }
}

#[test]
fn addressing_modes() {
    let mut s = assemble("and [5]").unwrap();
    assert_eq!(word_at(&mut s, 0), 0 | (1 << 3) | (5 << 5));
    let mut s = assemble("and Z 5").unwrap();
    assert_eq!(word_at(&mut s, 0), 0 | (2 << 3) | (5 << 5));
    let mut s = assemble("and 5").unwrap();
    assert_eq!(word_at(&mut s, 0), 0 | (5 << 5));
}

#[test]
fn current_instruction_operand_is_the_ip() {
    let mut s = assemble("jmp $").unwrap();
    assert_eq!(word_at(&mut s, 0), 5 | (0 << 5));
    let mut s = assemble("$ = 3\njmp $").unwrap();
    assert_eq!(word_at(&mut s, 3), 5 | (3 << 5));
}

#[test]
fn raw_word_directive() {
    let mut s = assemble(".w 4095\n.w 0").unwrap();
    assert_eq!(word_at(&mut s, 0), 4095);
    assert_eq!(word_at(&mut s, 1), 0);
    assert_eq!(assemble(".w 4096").unwrap_err(), AsmError::WordTooBig(4096));
    assert_eq!(assemble(".w").unwrap_err(), AsmError::ExpectedInteger);
    assert_eq!(assemble(".w foo").unwrap_err(), AsmError::ExpectedInteger);
    assert_eq!(
        assemble(".q 1").unwrap_err(),
        AsmError::UnknownDirective(String::from("q"))
    );
}

#[test]
fn octal_quirk_reaches_the_image() {
    // `0o17` is base 12: the emitted raw word is 19, not 15.
    let mut s = assemble(".w 0o17").unwrap();
    assert_eq!(word_at(&mut s, 0), 19);
}

#[test]
fn redefinition_overwrites_silently() {
    let mut s = assemble("a: .w 1\na: .w 2\njmp a").unwrap();
    assert_eq!(word_at(&mut s, 2), 5 | (1 << 5));
}

#[test]
fn label_definition_consumes_no_space() {
    let mut s = assemble("and 1\nmid:\ntad 2").unwrap();
    assert_eq!(s.head, 2);
    assert_eq!(word_at(&mut s, 0), 0 | (1 << 5));
    assert_eq!(word_at(&mut s, 1), 1 | (2 << 5));
}

#[test]
fn syntax_errors() {
    assert_eq!(assemble("$ 5").unwrap_err(), AsmError::ExpectedEqual);
    assert_eq!(assemble("$").unwrap_err(), AsmError::ExpectedEqual);
    assert_eq!(assemble("$ =").unwrap_err(), AsmError::ExpectedOrgValue);
    assert_eq!(assemble("$ = foo").unwrap_err(), AsmError::ExpectedOrgValue);
    assert_eq!(assemble("and").unwrap_err(), AsmError::ExpectedOperand);
    assert_eq!(assemble("and ]").unwrap_err(), AsmError::ExpectedOperand);
    assert_eq!(assemble("and [5").unwrap_err(), AsmError::ExpectedCloseBracket);
    assert_eq!(assemble("and [5 6").unwrap_err(), AsmError::ExpectedCloseBracket);
    assert_eq!(assemble("5").unwrap_err(), AsmError::UnexpectedToken);
    assert_eq!(assemble("]").unwrap_err(), AsmError::UnexpectedToken);
    assert_eq!(assemble("=").unwrap_err(), AsmError::UnexpectedToken);
    assert_eq!(
        assemble("bogus 1").unwrap_err(),
        AsmError::UnknownInstruction(String::from("bogus"))
    );
}

#[test]
fn operand_out_of_range() {
    assert_eq!(assemble("and 128").unwrap_err(), AsmError::AddrTooBig);
    assert!(assemble("and 127").is_ok());
}

#[test]
fn lexical_failure_aborts_assembly() {
    assert_eq!(
        assemble("@ and 1").unwrap_err(),
        AsmError::Lex(LexerError::Unparsable('@'))
    );
    assert_eq!(
        assemble("and 5 @").unwrap_err(),
        AsmError::Lex(LexerError::Unparsable('@'))
    );
    assert_eq!(
        assemble("and @").unwrap_err(),
        AsmError::Lex(LexerError::Unparsable('@'))
    );
    assert_eq!(
        assemble(".w 0b9").unwrap_err(),
        AsmError::Lex(LexerError::MalformedLiteral)
    );
}

#[test]
fn first_problem_in_pull_order_wins() {
    // Tokens are pulled lazily: a problem the driver reaches first is the
    // one reported, even when a bad character stands later in the source.
    assert_eq!(
        assemble("bogus 1 @").unwrap_err(),
        AsmError::UnknownInstruction(String::from("bogus"))
    );
    assert_eq!(assemble(".w 9999 @").unwrap_err(), AsmError::WordTooBig(9999));
}

#[test]
fn empty_and_comment_only_sources_produce_nothing() {
    assert_eq!(assemble("").unwrap().data.len(), 0);
    assert_eq!(assemble("; nothing here\n").unwrap().data.len(), 0);
}
