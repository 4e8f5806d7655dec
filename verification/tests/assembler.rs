use svm::codegen::generate;
use svm::lexer::{AsmError, Lexer, Token};

fn chars(s: &str) -> Vec<char> {
    s.chars().collect()
}

fn lex(src: &str) -> Result<Vec<Token>, AsmError> {
    Lexer::new(chars(src)).tokenize()
}

fn assemble(src: &str) -> Result<Vec<i32>, AsmError> {
    generate(&lex(src)?)
}

#[test]
fn lex_basic_program() {
    let toks = lex("3 4 ADD OUT HALT").unwrap();
    assert_eq!(
        toks,
        vec![
            Token::Number(3),
            Token::Number(4),
            Token::Add,
            Token::Out,
            Token::Halt
        ]
    );
}

#[test]
fn lex_is_case_insensitive() {
    let toks = lex("add ADD aDd").unwrap();
    assert_eq!(toks, vec![Token::Add, Token::Add, Token::Add]);
}

#[test]
fn lex_comments_and_whitespace() {
    let toks = lex("; a comment line\n\t NOP ; trailing\nHALT").unwrap();
    assert_eq!(toks, vec![Token::Nop, Token::Halt]);
}

#[test]
fn lex_labels_and_strings() {
    let toks = lex(":start @start \"hi\"").unwrap();
    assert_eq!(
        toks,
        vec![
            Token::LabelDef(chars("start")),
            Token::LabelRef(chars("start")),
            Token::Str(chars("hi")),
        ]
    );
}

#[test]
fn lex_unexpected_char() {
    assert_eq!(lex("3 % 4"), Err(AsmError::UnexpectedChar('%')));
}

#[test]
fn lex_invalid_instruction() {
    assert_eq!(lex("FROB"), Err(AsmError::InvalidInstruction(chars("FROB"))));
}

#[test]
fn lex_unparsable_number() {
    assert_eq!(lex("12x3"), Err(AsmError::UnparsableNumber(chars("12x3"))));
}

#[test]
fn lex_signed_numbers() {
    let toks = lex("-5 0 2147483647 -2147483648").unwrap();
    assert_eq!(
        toks,
        vec![
            Token::Number(-5),
            Token::Number(0),
            Token::Number(i32::MAX),
            Token::Number(i32::MIN),
        ]
    );
}

#[test]
fn lex_number_out_of_range() {
    assert_eq!(
        lex("2147483648"),
        Err(AsmError::UnparsableNumber(chars("2147483648")))
    );
}

#[test]
fn assemble_push_and_add() {
    assert_eq!(assemble("3 4 ADD OUT HALT").unwrap(), vec![3, 4, -3, -2, -31, -30]);
}

#[test]
fn assemble_negative_literal() {
    assert_eq!(assemble("-5 OUT HALT").unwrap(), vec![5, -8, -2, -31, -30]);
}

#[test]
fn assemble_memory_round_trip() {
    assert_eq!(
        assemble("42 7 STOR 7 LOAD OUT HALT").unwrap(),
        vec![42, 7, -22, 7, -21, -2, -31, -30]
    );
}

#[test]
fn assemble_string_layout() {
    // "abc" becomes the sentinel followed by the code points reversed.
    assert_eq!(assemble("\"abc\"").unwrap(), vec![0, 'c' as i32, 'b' as i32, 'a' as i32, -30]);
}

#[test]
fn assemble_print_expansion() {
    // The PRINT loop starts right after the string words; prn = 4, end = 11.
    assert_eq!(
        assemble("\"Hi\" PRINT HALT").unwrap(),
        vec![0, 105, 72, -101, -18, 0, 11, -24, -2, 4, -23, -102, -17, -31, -30]
    );
}

#[test]
fn assemble_labels_forward_and_backward() {
    let code = assemble("1 2 @END JE\n99 OUT HALT\n:END\nHALT").unwrap();
    assert_eq!(code, vec![1, 2, 7, -24, 99, -2, -31, -31, -30]);
}

#[test]
fn assemble_jump_slot_holds_definition_index() {
    // @loop resolves to the index of the word emitted right after :loop.
    let code = assemble(":loop NOP @loop JMP").unwrap();
    assert_eq!(code, vec![-30, 0, -23, -30]);
}

#[test]
fn assemble_duplicate_label() {
    assert_eq!(
        assemble(":a NOP :a NOP"),
        Err(AsmError::DuplicateLabel(chars("a")))
    );
}

#[test]
fn assemble_undefined_label() {
    assert_eq!(
        assemble("@missing HALT"),
        Err(AsmError::UndefinedLabel(chars("missing")))
    );
}

#[test]
fn assemble_twice_is_identical() {
    let src = "1 2 @END JE\n99 OUT HALT\n:END\nHALT";
    assert_eq!(assemble(src).unwrap(), assemble(src).unwrap());
    let src2 = "\"Hi\" PRINT HALT";
    assert_eq!(assemble(src2).unwrap(), assemble(src2).unwrap());
}

#[test]
fn assemble_appends_final_nop() {
    assert_eq!(assemble("HALT").unwrap(), vec![-31, -30]);
    assert_eq!(assemble("").unwrap(), vec![-30]);
}

#[test]
fn assemble_immediate_alone() {
    assert_eq!(assemble("123").unwrap(), vec![123, -30]);
    assert_eq!(assemble("-0").unwrap(), vec![0, -30]);
}

#[test]
fn lex_unterminated_string_runs_to_end() {
    let toks = lex("\"abc").unwrap();
    assert_eq!(toks, vec![Token::Str(chars("abc"))]);
}

#[test]
fn labels_are_case_sensitive() {
    assert_eq!(
        assemble(":A @a JMP"),
        Err(AsmError::UndefinedLabel(chars("a")))
    );
}

#[test]
fn empty_label_names_resolve() {
    // ':' directly before whitespace defines the empty name; '@' refers to it.
    assert_eq!(assemble(": @ JMP").unwrap(), vec![0, -23, -30]);
}
