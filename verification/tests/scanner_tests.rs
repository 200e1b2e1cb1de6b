use minipl::scanner::Digits;
use minipl::scanner::KeyWord;
use minipl::scanner::Operator;
use minipl::scanner::ScanErrorKind;
use minipl::scanner::Scanner;
use minipl::scanner::Token;
use minipl::util::Direction;

fn scan_ok(source: &str) -> Vec<Token> {
    let mut scanner = Scanner::new();
    scanner.scan(source).unwrap()
}

fn scan_err(source: &str) -> ScanErrorKind {
    let mut scanner = Scanner::new();
    scanner.scan(source).unwrap_err().kind
}

fn number(digits: &[u8]) -> Token {
    let chars: Vec<char> = digits.iter().map(|d| (b'0' + d) as char).collect();
    Token::Number(Digits::from_chars(&chars))
}

#[test]
fn empty_input_yields_no_tokens() {
    assert_eq!(scan_ok(""), vec![]);
}

#[test]
fn single_semicolon_yields_one_token() {
    assert_eq!(scan_ok(";"), vec![Token::Semicolon]);
}

#[test]
fn empty_block_comment_is_consumed_entirely() {
    assert_eq!(scan_ok("/**/"), vec![]);
}

#[test]
fn empty_block_comment_leaves_surroundings_unaffected() {
    assert_eq!(scan_ok("1/**/2"), vec![number(&[1]), number(&[2])]);
}

#[test]
fn nested_block_comment_closes_both_levels() {
    assert_eq!(scan_ok("/*/**/*/"), vec![]);
    // Back in normal mode afterwards.
    assert_eq!(scan_ok("/*/**/*/;"), vec![Token::Semicolon]);
}

#[test]
fn slash_star_does_not_close_an_unopened_comment() {
    assert_eq!(scan_err("/*/"), ScanErrorKind::UnterminatedComment);
}

#[test]
fn hex_escape_decodes_to_one_character() {
    assert_eq!(
        scan_ok("\"\\x41\""),
        vec![Token::StringLiteral("A".to_string())]
    );
}

#[test]
fn unicode_escape_decodes_to_one_character() {
    assert_eq!(
        scan_ok("\"\\u0041\""),
        vec![Token::StringLiteral("A".to_string())]
    );
}

#[test]
fn long_unicode_escape_decodes_to_one_character() {
    assert_eq!(
        scan_ok("\"\\U00000041\""),
        vec![Token::StringLiteral("A".to_string())]
    );
}

#[test]
fn simple_escapes_decode_to_conventional_values() {
    assert_eq!(
        scan_ok("\"a\\nb\\tc\\\\d\\\"e\""),
        vec![Token::StringLiteral("a\nb\tc\\d\"e".to_string())]
    );
}

#[test]
fn hex_escape_terminator_is_reprocessed_in_the_string() {
    assert_eq!(
        scan_ok("\"\\x41z\""),
        vec![Token::StringLiteral("Az".to_string())]
    );
    // One digit suffices when a non-hex character follows.
    assert_eq!(
        scan_ok("\"\\x7!\""),
        vec![Token::StringLiteral("\x07!".to_string())]
    );
}

#[test]
fn empty_string_literal_is_a_token() {
    assert_eq!(scan_ok("\"\""), vec![Token::StringLiteral(String::new())]);
}

#[test]
fn number_value_is_the_digit_string_value() {
    assert_eq!(scan_ok("42"), vec![number(&[4, 2])]);
    // Leading zeros denote the same value.
    assert_eq!(scan_ok("007"), vec![number(&[7])]);
    assert_eq!(scan_ok("0"), vec![number(&[0])]);
}

#[test]
fn numbers_have_arbitrary_precision() {
    let text = "123456789012345678901234567890123456789";
    let tokens = scan_ok(text);
    assert_eq!(tokens.len(), 1);
    let expected: Vec<u8> = text.bytes().map(|b| b - b'0').collect();
    match &tokens[0] {
        Token::Number(d) => assert_eq!(d.digits(), &expected),
        other => panic!("expected a number token, found {:?}", other),
    }
}

#[test]
fn number_ends_at_the_first_identifier_character() {
    assert_eq!(
        scan_ok("12abc"),
        vec![number(&[1, 2]), Token::Identifier("abc".to_string())]
    );
}

#[test]
fn keywords_and_identifiers_split() {
    assert_eq!(
        scan_ok("var x for in do read print int string bool assert end y_2"),
        vec![
            Token::KeyWord(KeyWord::Var),
            Token::Identifier("x".to_string()),
            Token::KeyWord(KeyWord::For),
            Token::KeyWord(KeyWord::In),
            Token::KeyWord(KeyWord::Do),
            Token::KeyWord(KeyWord::Read),
            Token::KeyWord(KeyWord::Print),
            Token::KeyWord(KeyWord::Int),
            Token::KeyWord(KeyWord::String),
            Token::KeyWord(KeyWord::Bool),
            Token::KeyWord(KeyWord::Assert),
            Token::KeyWord(KeyWord::End),
            Token::Identifier("y_2".to_string()),
        ]
    );
}

#[test]
fn single_character_tokens_scan() {
    assert_eq!(
        scan_ok("()+-*<=&!"),
        vec![
            Token::Bracket(Direction::Left),
            Token::Bracket(Direction::Right),
            Token::Operator(Operator::Plus),
            Token::Operator(Operator::Minus),
            Token::Operator(Operator::Multiply),
            Token::Operator(Operator::LessThan),
            Token::Operator(Operator::Equals),
            Token::Operator(Operator::And),
            Token::Operator(Operator::Not),
        ]
    );
}

#[test]
fn assignment_range_and_colon_scan() {
    assert_eq!(
        scan_ok("x := 1 .. 2 : y"),
        vec![
            Token::Identifier("x".to_string()),
            Token::Assignment,
            number(&[1]),
            Token::Range,
            number(&[2]),
            Token::Colon,
            Token::Identifier("y".to_string()),
        ]
    );
}

#[test]
fn line_comment_runs_to_the_line_feed() {
    assert_eq!(
        scan_ok("1 // ignored ; tokens\n2"),
        vec![number(&[1]), number(&[2])]
    );
}

#[test]
fn lone_slash_is_a_divide_operator() {
    assert_eq!(
        scan_ok("1/2"),
        vec![number(&[1]), Token::Operator(Operator::Divide), number(&[2])]
    );
    assert_eq!(scan_ok("1/"), vec![number(&[1]), Token::Operator(Operator::Divide)]);
}

#[test]
fn unsupported_escape_is_a_lexical_error() {
    assert_eq!(scan_err("\"\\q\""), ScanErrorKind::UnsupportedEscape);
}

#[test]
fn octal_escape_is_unsupported_once_continued() {
    assert_eq!(scan_err("\"\\01\""), ScanErrorKind::UnsupportedEscape);
}

#[test]
fn hex_escape_needs_a_digit() {
    assert_eq!(scan_err("\"\\xg\""), ScanErrorKind::HexEscapeMissingDigits);
}

#[test]
fn hex_escape_takes_at_most_two_digits() {
    assert_eq!(scan_err("\"\\x123\""), ScanErrorKind::HexEscapeTooLong);
}

#[test]
fn unicode_escape_needs_its_hex_digits() {
    assert_eq!(scan_err("\"\\u12g4\""), ScanErrorKind::UnicodeEscapeBadDigit);
    assert_eq!(scan_err("\"\\u12\""), ScanErrorKind::UnicodeEscapeBadDigit);
}

#[test]
fn surrogate_code_point_is_rejected() {
    assert_eq!(scan_err("\"\\uD800\""), ScanErrorKind::InvalidCodePoint);
}

#[test]
fn unterminated_string_is_a_lexical_error() {
    assert_eq!(scan_err("\"abc"), ScanErrorKind::UnterminatedString);
}

#[test]
fn unterminated_escape_is_a_lexical_error() {
    assert_eq!(scan_err("\"\\"), ScanErrorKind::UnterminatedEscape);
}

#[test]
fn unterminated_comment_is_a_lexical_error() {
    assert_eq!(scan_err("/* open"), ScanErrorKind::UnterminatedComment);
}

#[test]
fn buffered_lexemes_flush_at_end_of_input() {
    assert_eq!(scan_ok("abc"), vec![Token::Identifier("abc".to_string())]);
    assert_eq!(scan_ok("12"), vec![number(&[1, 2])]);
    assert_eq!(scan_ok("var"), vec![Token::KeyWord(KeyWord::Var)]);
    assert_eq!(scan_ok(":"), vec![Token::Colon]);
    assert_eq!(scan_ok("."), vec![Token::Identifier(".".to_string())]);
}

#[test]
fn scanning_twice_yields_identical_token_sequences() {
    let source = "var x : int := 1 + 2; /* note */ print x;";
    let mut scanner = Scanner::new();
    let first = scanner.scan(source).unwrap();
    // A successful scan leaves the scanner fresh, so the same scanner
    // produces the identical sequence again.
    let second = scanner.scan(source).unwrap();
    assert_eq!(first, second);
}
