use lexfront::{Lexer, LexerError, LongCommentActivation, Preprocessor, PreprocessorError, Token, TokenClass};

fn c_style() -> Preprocessor {
    Preprocessor::create(
        vec![String::from("//")],
        vec![LongCommentActivation { start: String::from("/*"), end: String::from("*/") }],
    )
}

fn class(look: &str, token_type: &str, symbol: bool, write: bool) -> TokenClass {
    TokenClass {
        look: String::from(look),
        token_type: String::from(token_type),
        symbol,
        write,
    }
}

fn lex(classes: Vec<TokenClass>, data: &[u8]) -> (Vec<Token>, Vec<LexerError>) {
    let lexer = Lexer::create(classes);
    let mut errors = Vec::new();
    let tokens = lexer.tokenize(&data.to_vec(), &mut errors);
    (tokens, errors)
}

fn summary(tokens: &[Token]) -> Vec<(String, usize, String)> {
    tokens
        .iter()
        .map(|t| (t.token_type.clone(), t.token_type_id, t.value.clone()))
        .collect()
}

fn tok(kind: &str, id: usize, value: &str) -> (String, usize, String) {
    (String::from(kind), id, String::from(value))
}

#[test]
fn literal_protection() {
    let pre = Preprocessor::create(vec![String::from("//")], vec![]);
    let input = b"\"// not a comment\"".to_vec();
    let mut errors: Vec<PreprocessorError> = Vec::new();
    let out = pre.process(&input, &mut errors);
    assert_eq!(out, input);
    assert!(errors.is_empty());
}

#[test]
fn escape_correctness() {
    let (tokens, errors) = lex(vec![], b"\"a\\\"b\"");
    assert!(errors.is_empty());
    assert_eq!(summary(&tokens), vec![tok("text_literal", 0, "a\"b")]);
}

#[test]
fn escape_sequences_resolved() {
    let (tokens, _) = lex(vec![], b"\"x\\ny\\tz\\\\w\\'\"");
    assert_eq!(summary(&tokens), vec![tok("text_literal", 0, "x\ny\tz\\w'")]);
}

#[test]
fn comment_removal_end_to_end() {
    let pre = Preprocessor::create(
        vec![],
        vec![LongCommentActivation { start: String::from("/*"), end: String::from("*/") }],
    );
    let mut pre_errors = Vec::new();
    let data = pre.process(&b"x/*c*/y".to_vec(), &mut pre_errors);
    assert_eq!(data, vec![b'x', 7, 7, 7, 7, 7, b'y']);
    let (tokens, errors) = lex(vec![], &data);
    assert!(errors.is_empty());
    assert_eq!(
        summary(&tokens),
        vec![tok("undefined_string", 0, "x"), tok("undefined_string", 0, "y")]
    );
}

#[test]
fn unterminated_literal() {
    let (tokens, errors) = lex(vec![], b"ab \"abc");
    assert_eq!(errors.len(), 1);
    assert_eq!(errors[0].message(), "string does not terminate.");
    assert_eq!(errors[0].position().line, 0);
    assert_eq!(errors[0].position().column, 3);
    assert_eq!(summary(&tokens), vec![tok("undefined_string", 0, "ab"), tok("undefined_char", 0, " ")]);

    let (tokens, errors) = lex(vec![], b"\"abc");
    assert_eq!(errors.len(), 1);
    assert!(tokens.is_empty());
}

#[test]
fn symbol_priority() {
    let classes = vec![class("+", "PLUS", true, true), class("+", "ADD", true, true)];
    let (tokens, _) = lex(classes, b"+");
    assert_eq!(summary(&tokens), vec![tok("PLUS", 1, "+")]);
}

#[test]
fn symbol_rank_skips_non_symbol_classes() {
    let classes = vec![
        class("-", "MINUS", true, true),
        class("*", "IGNORED", false, true),
        class("*", "STAR", true, true),
    ];
    let (tokens, _) = lex(classes, b"*-");
    assert_eq!(summary(&tokens), vec![tok("STAR", 2, "*"), tok("MINUS", 1, "-")]);
}

#[test]
fn silent_class() {
    let classes = vec![class(" ", "_space", true, false)];
    let (tokens, _) = lex(classes, b"  a  b ");
    assert_eq!(
        summary(&tokens),
        vec![tok("undefined_string", 0, "a"), tok("undefined_string", 0, "b")]
    );
}

#[test]
fn undefined_chars_and_filler() {
    let (tokens, _) = lex(vec![], &[b'a', b'+', 7, b'b', b'1']);
    assert_eq!(
        summary(&tokens),
        vec![
            tok("undefined_string", 0, "a"),
            tok("undefined_char", 0, "+"),
            tok("undefined_string", 0, "b1"),
        ]
    );
}

#[test]
fn empty_input() {
    let (tokens, errors) = lex(vec![], b"");
    assert!(tokens.is_empty() && errors.is_empty());
    let mut pre_errors = Vec::new();
    assert!(c_style().process(&Vec::new(), &mut pre_errors).is_empty());
}

#[test]
fn length_preservation_after_crlf() {
    let input = b"a\r\nb // c\r\nd /* e\r\n */ f".to_vec();
    let mut errors = Vec::new();
    let out = c_style().process(&input, &mut errors);
    assert_eq!(out.len(), input.len() - 3);
    assert_eq!(out, b"a\nb \x07\x07\x07\x07\x07d \x07\x07\x07\x07\x07\x07\x07\x07 f".to_vec());
}

#[test]
fn line_comment_runs_to_end_of_text() {
    let pre = Preprocessor::create(vec![String::from("#")], vec![]);
    let mut errors = Vec::new();
    assert_eq!(pre.process(&b"a#bc".to_vec(), &mut errors), vec![b'a', 7, 7, 7]);
}

#[test]
fn idempotent_on_output() {
    let input = b"x = \"/* kept */\"; // gone\ny /* gone */ 'a'".to_vec();
    let pre = c_style();
    let mut errors = Vec::new();
    let once = pre.process(&input, &mut errors);
    let twice = pre.process(&once, &mut errors);
    assert_eq!(once, twice);
    assert_eq!(&once[4..16], b"\"/* kept */\"");
}

#[test]
fn unterminated_comment_reported() {
    let mut errors = Vec::new();
    let out = c_style().process(&b"a\n  /* open".to_vec(), &mut errors);
    assert_eq!(out, b"a\n  /* open".to_vec());
    assert_eq!(errors.len(), 1);
    assert_eq!(errors[0].message(), "comment does not terminate.");
    assert_eq!(errors[0].position().line, 1);
    assert_eq!(errors[0].position().column, 2);
}

#[test]
fn escaped_quote_keeps_literal_open() {
    let mut errors = Vec::new();
    let out = c_style().process(&b"\"a\\\" // b\" c".to_vec(), &mut errors);
    assert_eq!(out, b"\"a\\\" // b\" c".to_vec());
}

#[test]
fn preprocess_then_tokenize() {
    let input = b"let s = \"hi\"; // note\r\nx".to_vec();
    let mut pre_errors = Vec::new();
    let data = c_style().process(&input, &mut pre_errors);
    let classes = vec![
        class("\n", "_new_line", true, false),
        class(" ", "_space", true, false),
        class("=", "EQ", true, true),
        class(";", "SEMI", true, true),
    ];
    let (tokens, errors) = lex(classes, &data);
    assert!(errors.is_empty());
    assert_eq!(
        summary(&tokens),
        vec![
            tok("undefined_string", 0, "let"),
            tok("undefined_string", 0, "s"),
            tok("EQ", 3, "="),
            tok("text_literal", 0, "hi"),
            tok("SEMI", 4, ";"),
            tok("undefined_string", 0, "x"),
        ]
    );
}

#[test]
fn describe_word_and_literal() {
    let word = Token {
        token_type: String::from("undefined_char"),
        token_type_id: 0,
        value: String::from(" "),
    };
    assert_eq!(word.describe(), "token: undefined_char, value: '[Space]'");
    let text = Token {
        token_type: String::from("text_literal"),
        token_type_id: 0,
        value: String::from("a b\r\nc\n\r\td"),
    };
    assert_eq!(
        text.describe(),
        "token: text_literal, value: 'a b[New Line]c[New Line][Carriage Return][Tab]d'"
    );
}

#[test]
fn describe_errors() {
    let mut errors = Vec::new();
    c_style().process(&b"\n\nabcdefghijkl/*".to_vec(), &mut errors);
    assert_eq!(errors.len(), 1);
    assert_eq!(errors[0].describe(), "preprocessor[2, 12]: error: comment does not terminate.");
    let (_, lex_errors) = lex(vec![], b"x\n\"open");
    assert_eq!(lex_errors.len(), 1);
    assert_eq!(lex_errors[0].describe(), "lex[1, 0]: error: string does not terminate.");
}

#[test]
fn errors_are_appended_after_existing_ones() {
    let pre = Preprocessor::create(
        vec![],
        vec![
            LongCommentActivation { start: String::from("/*"), end: String::from("*/") },
            LongCommentActivation { start: String::from("(*"), end: String::from("*)") },
        ],
    );
    let mut errors = Vec::new();
    pre.process(&b"/* (*".to_vec(), &mut errors);
    assert_eq!(errors.len(), 2);
    pre.process(&b"a /* b */ c".to_vec(), &mut errors);
    assert_eq!(errors.len(), 2);
    assert_eq!(errors[1].position().column, 3);
}

#[test]
fn crlf_normalized_in_one_pass() {
    let mut errors = Vec::new();
    let once = c_style().process(&b"a\r\r\nb".to_vec(), &mut errors);
    assert_eq!(once, b"a\r\nb".to_vec());
    let twice = c_style().process(&once, &mut errors);
    assert_eq!(twice, b"a\nb".to_vec());
}

#[test]
fn line_comment_blanks_its_line_feed() {
    let pre = Preprocessor::create(vec![String::from("//")], vec![]);
    let mut errors = Vec::new();
    assert_eq!(pre.process(&b"a//b\nc".to_vec(), &mut errors), vec![b'a', 7, 7, 7, 7, b'c']);
}

#[test]
fn latin1_letters_continue_a_word() {
    let (tokens, _) = lex(vec![], &[b'a', 0xC0, b'b', 0xD7, 0xB5]);
    assert_eq!(
        summary(&tokens),
        vec![
            tok("undefined_string", 0, "a\u{C0}b"),
            tok("undefined_char", 0, "\u{D7}"),
            tok("undefined_string", 0, "\u{B5}"),
        ]
    );
}
