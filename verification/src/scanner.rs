//! Character-level scanner for Mini-PL: an explicit finite-state automaton
//! that turns a source text into a token sequence, handling string literals
//! with escape sequences, nested block comments, line comments, numeric
//! literals of unbounded magnitude, and the keyword/identifier split.

use vstd::prelude::*;
use vstd::std_specs::iter::IteratorSpec;
use vstd::string::spec_iter;

use crate::util::Direction;

verus! {

// ---------------------------------------------------------------------------
// Character classes
// ---------------------------------------------------------------------------

/// Whether `c` is a decimal digit.
pub open spec fn is_digit(c: char) -> bool {
    0x30 <= c as u32 && c as u32 <= 0x39
}

/// The numeric value of a decimal digit character.
pub open spec fn digit_val(c: char) -> nat {
    (c as u32 - 0x30) as nat
}

/// Whether `c` is a hexadecimal digit.
pub open spec fn is_hex_digit(c: char) -> bool {
    ||| is_digit(c)
    ||| 0x61 <= c as u32 && c as u32 <= 0x66  // 'a'..='f'
    ||| 0x41 <= c as u32 && c as u32 <= 0x46  // 'A'..='F'
}

/// The numeric value of a hexadecimal digit character.
pub open spec fn hex_val(c: char) -> nat {
    if is_digit(c) {
        digit_val(c)
    } else if 0x61 <= c as u32 && c as u32 <= 0x66 {
        (c as u32 - 0x61 + 10) as nat
    } else {
        (c as u32 - 0x41 + 10) as nat
    }
}

/// The mathematical value of a decimal digit string.
pub open spec fn decimal_value(s: Seq<char>) -> nat
    decreases s.len(),
{
    if s.len() == 0 {
        0
    } else {
        decimal_value(s.drop_last()) * 10 + digit_val(s.last())
    }
}

/// The mathematical value of a hexadecimal digit string.
pub open spec fn hex_value(s: Seq<char>) -> nat
    decreases s.len(),
{
    if s.len() == 0 {
        0
    } else {
        hex_value(s.drop_last()) * 16 + hex_val(s.last())
    }
}

/// Whitespace skipped between tokens: space, tab, carriage return, line feed.
pub open spec fn is_whitespace(c: char) -> bool {
    c == ' ' || c == '\n' || c == '\t' || c == '\r'
}

/// Whether `v` is a Unicode scalar value, i.e. the code point of some `char`.
pub open spec fn valid_code_point(v: nat) -> bool {
    v < 0xD800 || (0xE000 <= v && v <= 0x10FFFF)
}

/// What `char::is_alphanumeric` returns: whether the character is in one of
/// the Unicode classes Alphabetic, Nd, Nl or No.
pub uninterp spec fn alphanumeric(c: char) -> bool;

/// Whether `c` may continue an identifier: alphanumeric or underscore.
pub open spec fn is_ident_char(c: char) -> bool {
    alphanumeric(c) || c == '_'
}

// ---------------------------------------------------------------------------
// Tokens
// ---------------------------------------------------------------------------

/// All the different operators Mini-PL has.
#[derive(Clone, Copy, Debug, PartialEq, Eq, Structural)]
pub enum Operator {
    Plus,
    Minus,
    Multiply,
    Divide,
    LessThan,
    Equals,
    And,
    Not,
}

/// All the keywords Mini-PL has.
#[derive(Clone, Copy, Debug, PartialEq, Eq, Structural)]
pub enum KeyWord {
    Var,
    For,
    End,
    In,
    Do,
    Read,
    Print,
    Int,
    String,
    Bool,
    Assert,
}

/// An arbitrary-precision nonnegative integer, kept as its decimal digits,
/// most significant first, with no leading zero (the value zero is the single
/// digit 0). Its view is the mathematical value it denotes.
#[derive(Debug, PartialEq, Eq)]
pub struct Digits {
    digits: Vec<u8>,
}

/// A canonical decimal digit sequence: nonempty, each digit below ten, and
/// no leading zero unless the number is zero itself.
pub open spec fn canonical_digits(s: Seq<u8>) -> bool {
    &&& s.len() >= 1
    &&& forall|i: int| 0 <= i < s.len() ==> s[i] < 10
    &&& s.len() > 1 ==> s[0] != 0
}

/// The value of a sequence of decimal digit values, most significant first.
pub open spec fn digits_value(s: Seq<u8>) -> nat
    decreases s.len(),
{
    if s.len() == 0 {
        0
    } else {
        digits_value(s.drop_last()) * 10 + s.last() as nat
    }
}

impl View for Digits {
    type V = nat;

    closed spec fn view(&self) -> nat {
        digits_value(self.digits@)
    }
}

impl DeepView for Digits {
    type V = nat;

    open spec fn deep_view(&self) -> nat {
        self.view()
    }
}

impl Clone for Digits {
    fn clone(&self) -> (r: Self)
        ensures
            r@ == self@,
            r.wf() == self.wf(),
    {
        let digits = self.digits.clone();
        proof {
            assert forall|i: int| 0 <= i < self.digits@.len() implies digits@[i]
                == self.digits@[i] by {
                assert(vstd::pervasive::cloned::<u8>(self.digits[i], digits[i]));
            }
            assert(digits@ =~= self.digits@);
        }
        Digits { digits: digits }
    }
}

impl Digits {
    /// The digit representation is canonical.
    pub closed spec fn wf(&self) -> bool {
        canonical_digits(self.digits@)
    }

    /// The decimal digits of the value, most significant first.
    pub fn digits(&self) -> (r: &Vec<u8>)
        ensures
            digits_value(r@) == self@,
            self.wf() ==> canonical_digits(r@),
    {
        &self.digits
    }
}

/// All the different tokens Mini-PL has.
#[derive(Debug, PartialEq, Eq)]
pub enum Token {
    Bracket(Direction),
    Identifier(String),
    StringLiteral(String),
    Number(Digits),
    Semicolon,
    Colon,
    Assignment,
    Operator(Operator),
    KeyWord(KeyWord),
    Range,
}

/// The mathematical model of a token: text as a character sequence, a
/// numeric literal as the value it denotes.
#[verifier::ext_equal]
pub enum TokenView {
    Bracket(Direction),
    Identifier(Seq<char>),
    StringLiteral(Seq<char>),
    Number(nat),
    Semicolon,
    Colon,
    Assignment,
    Operator(Operator),
    KeyWord(KeyWord),
    Range,
}

impl View for Token {
    type V = TokenView;

    open spec fn view(&self) -> TokenView {
        match self {
            Token::Bracket(d) => TokenView::Bracket(*d),
            Token::Identifier(s) => TokenView::Identifier(s@),
            Token::StringLiteral(s) => TokenView::StringLiteral(s@),
            Token::Number(d) => TokenView::Number(d@),
            Token::Semicolon => TokenView::Semicolon,
            Token::Colon => TokenView::Colon,
            Token::Assignment => TokenView::Assignment,
            Token::Operator(op) => TokenView::Operator(*op),
            Token::KeyWord(kw) => TokenView::KeyWord(*kw),
            Token::Range => TokenView::Range,
        }
    }
}

impl DeepView for Token {
    type V = TokenView;

    open spec fn deep_view(&self) -> TokenView {
        self.view()
    }
}

// ---------------------------------------------------------------------------
// Lexical errors
// ---------------------------------------------------------------------------

/// The kinds of lexical error the scanner can report.
#[derive(Clone, Copy, Debug, PartialEq, Eq, Structural)]
pub enum ScanErrorKind {
    /// A `\` followed by a character that begins no supported escape.
    UnsupportedEscape,
    /// A `\x` escape terminated before any hexadecimal digit.
    HexEscapeMissingDigits,
    /// A `\x` escape with more than two hexadecimal digits.
    HexEscapeTooLong,
    /// A `\u` or `\U` escape interrupted before its 4 or 8 hexadecimal digits.
    UnicodeEscapeBadDigit,
    /// A `\u` or `\U` escape denoting no Unicode scalar value.
    InvalidCodePoint,
    /// End of input inside a string literal.
    UnterminatedString,
    /// End of input inside an escape sequence.
    UnterminatedEscape,
    /// End of input inside a block comment.
    UnterminatedComment,
}

/// A lexical error: a kind discriminator and a human-readable detail message
/// identifying the offending character.
#[derive(Debug, PartialEq, Eq)]
pub struct ScanError {
    pub kind: ScanErrorKind,
    pub detail: String,
}

// ---------------------------------------------------------------------------
// The automaton, at the specification level
// ---------------------------------------------------------------------------

/// The states of the scanning automaton.
#[derive(Clone, Copy, Debug, PartialEq, Eq, Structural)]
pub enum ScanMode {
    Normal,
    StringLiteral,
    Number,
    PossibleComment,
    LineComment,
    BlockComment,
    Other,
    Escape,
    PossibleAssignment,
    PossibleRange,
}

/// The full state of the scanner: the automaton state, the token buffer, the
/// escape buffer, the block-comment nesting depth, and the tokens emitted so
/// far.
#[verifier::ext_equal]
pub struct ScanState {
    pub mode: ScanMode,
    pub buffer: Seq<char>,
    pub escape_buffer: Seq<char>,
    pub depth: nat,
    pub tokens: Seq<TokenView>,
}

/// The state of a freshly created scanner.
pub open spec fn init_scan_state() -> ScanState {
    ScanState {
        mode: ScanMode::Normal,
        buffer: Seq::empty(),
        escape_buffer: Seq::empty(),
        depth: 0,
        tokens: Seq::empty(),
    }
}

/// The token a single character denotes on its own in `Normal` mode, if any.
pub open spec fn single_char_token(c: char) -> Option<TokenView> {
    if c == '(' {
        Some(TokenView::Bracket(Direction::Left))
    } else if c == ')' {
        Some(TokenView::Bracket(Direction::Right))
    } else if c == ';' {
        Some(TokenView::Semicolon)
    } else if c == '+' {
        Some(TokenView::Operator(Operator::Plus))
    } else if c == '-' {
        Some(TokenView::Operator(Operator::Minus))
    } else if c == '*' {
        Some(TokenView::Operator(Operator::Multiply))
    } else if c == '<' {
        Some(TokenView::Operator(Operator::LessThan))
    } else if c == '=' {
        Some(TokenView::Operator(Operator::Equals))
    } else if c == '&' {
        Some(TokenView::Operator(Operator::And))
    } else if c == '!' {
        Some(TokenView::Operator(Operator::Not))
    } else {
        None
    }
}

/// One step of the automaton in `Normal` mode. Whitespace is skipped,
/// single-character tokens are emitted at once, and a digit, a quote, a
/// slash or any other character opens the matching mode.
pub open spec fn normal_step(st: ScanState, c: char) -> ScanState {
    match single_char_token(c) {
        Some(t) => ScanState { tokens: st.tokens.push(t), ..st },
        None => {
            if c == '"' {
                ScanState { mode: ScanMode::StringLiteral, ..st }
            } else if c == '/' {
                ScanState { mode: ScanMode::PossibleComment, ..st }
            } else if c == ':' {
                ScanState { mode: ScanMode::PossibleAssignment, ..st }
            } else if c == '.' {
                ScanState { mode: ScanMode::PossibleRange, ..st }
            } else if is_digit(c) {
                ScanState { mode: ScanMode::Number, buffer: seq![c], ..st }
            } else if is_whitespace(c) {
                st
            } else {
                ScanState { mode: ScanMode::Other, buffer: seq![c], ..st }
            }
        },
    }
}

/// One step in `StringLiteral` mode: a backslash opens an escape, a quote
/// closes the literal and emits it, any other character is appended.
pub open spec fn string_step(st: ScanState, c: char) -> ScanState {
    if c == '\\' {
        ScanState { mode: ScanMode::Escape, ..st }
    } else if c == '"' {
        ScanState {
            mode: ScanMode::Normal,
            buffer: Seq::empty(),
            tokens: st.tokens.push(TokenView::StringLiteral(st.buffer)),
            ..st
        }
    } else {
        ScanState { buffer: st.buffer.push(c), ..st }
    }
}

/// The conventional value of a single-character escape, if `c` is one.
pub open spec fn simple_escape(c: char) -> Option<char> {
    if c == 'a' {
        Some('\x07')
    } else if c == 'b' {
        Some('\x08')
    } else if c == 'f' {
        Some('\x0C')
    } else if c == 'n' {
        Some('\n')
    } else if c == 'r' {
        Some('\r')
    } else if c == 't' {
        Some('\t')
    } else if c == 'v' {
        Some('\x0B')
    } else if c == '\\' || c == '\'' || c == '"' || c == '?' {
        Some(c)
    } else {
        None
    }
}

/// Whether `c` opens a multi-character escape sub-mode: `x`, `u`, `U`, or an
/// octal digit `0`..=`8`.
pub open spec fn opens_long_escape(c: char) -> bool {
    c == 'x' || c == 'u' || c == 'U' || (0x30 <= c as u32 && c as u32 <= 0x38)
}

/// One step in `Escape` mode. Single-character escapes decode at once;
/// `\x`, `\u`, `\U` and octal starters gather further characters in the
/// escape buffer; anything else is a lexical error.
pub open spec fn escape_step(st: ScanState, c: char) -> Result<ScanState, ScanErrorKind> {
    if st.escape_buffer.len() == 0 {
        match simple_escape(c) {
            Some(e) => Ok(
                ScanState { mode: ScanMode::StringLiteral, buffer: st.buffer.push(e), ..st },
            ),
            None => {
                if opens_long_escape(c) {
                    Ok(ScanState { escape_buffer: seq![c], ..st })
                } else {
                    Err(ScanErrorKind::UnsupportedEscape)
                }
            },
        }
    } else if st.escape_buffer[0] == 'x' {
        if is_hex_digit(c) {
            if st.escape_buffer.len() > 2 {
                Err(ScanErrorKind::HexEscapeTooLong)
            } else {
                Ok(ScanState { escape_buffer: st.escape_buffer.push(c), ..st })
            }
        } else if st.escape_buffer.len() < 2 {
            Err(ScanErrorKind::HexEscapeMissingDigits)
        } else {
            // One or two hex digits decode to a byte, which is appended; the
            // terminating character is re-processed in `StringLiteral` mode.
            let decoded = hex_value(st.escape_buffer.drop_first()) as u32 as char;
            let st2 = ScanState {
                mode: ScanMode::StringLiteral,
                buffer: st.buffer.push(decoded),
                escape_buffer: Seq::empty(),
                ..st
            };
            Ok(string_step(st2, c))
        }
    } else if st.escape_buffer[0] == 'u' || st.escape_buffer[0] == 'U' {
        let need: nat = if st.escape_buffer[0] == 'U' {
            8
        } else {
            4
        };
        if is_hex_digit(c) {
            let eb = st.escape_buffer.push(c);
            if eb.len() == need + 1 {
                let v = hex_value(eb.drop_first());
                if valid_code_point(v) {
                    Ok(
                        ScanState {
                            mode: ScanMode::StringLiteral,
                            buffer: st.buffer.push(v as u32 as char),
                            escape_buffer: Seq::empty(),
                            ..st
                        },
                    )
                } else {
                    Err(ScanErrorKind::InvalidCodePoint)
                }
            } else {
                Ok(ScanState { escape_buffer: eb, ..st })
            }
        } else {
            Err(ScanErrorKind::UnicodeEscapeBadDigit)
        }
    } else {
        // An octal starter names no supported escape once continued.
        Err(ScanErrorKind::UnsupportedEscape)
    }
}

/// One step in `Number` mode: digits accumulate; the first non-digit makes
/// the buffered digits a `Number` token and is re-processed in `Normal` mode.
pub open spec fn number_step(st: ScanState, c: char) -> ScanState {
    if is_digit(c) {
        ScanState { buffer: st.buffer.push(c), ..st }
    } else {
        let st2 = ScanState {
            mode: ScanMode::Normal,
            buffer: Seq::empty(),
            tokens: st.tokens.push(TokenView::Number(decimal_value(st.buffer))),
            ..st
        };
        normal_step(st2, c)
    }
}

/// The keyword a lexeme names, if any: the reserved-word table.
pub open spec fn keyword_of(s: Seq<char>) -> Option<KeyWord> {
    if s == seq!['v', 'a', 'r'] {
        Some(KeyWord::Var)
    } else if s == seq!['f', 'o', 'r'] {
        Some(KeyWord::For)
    } else if s == seq!['e', 'n', 'd'] {
        Some(KeyWord::End)
    } else if s == seq!['i', 'n'] {
        Some(KeyWord::In)
    } else if s == seq!['d', 'o'] {
        Some(KeyWord::Do)
    } else if s == seq!['r', 'e', 'a', 'd'] {
        Some(KeyWord::Read)
    } else if s == seq!['p', 'r', 'i', 'n', 't'] {
        Some(KeyWord::Print)
    } else if s == seq!['i', 'n', 't'] {
        Some(KeyWord::Int)
    } else if s == seq!['s', 't', 'r', 'i', 'n', 'g'] {
        Some(KeyWord::String)
    } else if s == seq!['b', 'o', 'o', 'l'] {
        Some(KeyWord::Bool)
    } else if s == seq!['a', 's', 's', 'e', 'r', 't'] {
        Some(KeyWord::Assert)
    } else {
        None
    }
}

/// The token a buffered lexeme denotes: the keyword it names, or an
/// identifier.
pub open spec fn eval_buffer_spec(s: Seq<char>) -> TokenView {
    match keyword_of(s) {
        Some(kw) => TokenView::KeyWord(kw),
        None => TokenView::Identifier(s),
    }
}

/// One step in `Other` mode: alphanumerics and underscores accumulate; the
/// first other character makes the buffer a keyword or identifier token and
/// is re-processed in `Normal` mode.
pub open spec fn other_step(st: ScanState, c: char) -> ScanState {
    if is_ident_char(c) {
        ScanState { buffer: st.buffer.push(c), ..st }
    } else {
        let st2 = ScanState {
            mode: ScanMode::Normal,
            buffer: Seq::empty(),
            tokens: st.tokens.push(eval_buffer_spec(st.buffer)),
            ..st
        };
        normal_step(st2, c)
    }
}

/// One step in `PossibleComment` mode, after a `/`: a second slash opens a
/// line comment, a star opens a block comment, anything else emits a divide
/// operator and is re-processed in `Normal` mode.
pub open spec fn possible_comment_step(st: ScanState, c: char) -> ScanState {
    if c == '/' {
        ScanState { mode: ScanMode::LineComment, ..st }
    } else if c == '*' {
        ScanState { mode: ScanMode::BlockComment, depth: st.depth + 1, ..st }
    } else {
        let st2 = ScanState {
            mode: ScanMode::Normal,
            tokens: st.tokens.push(TokenView::Operator(Operator::Divide)),
            ..st
        };
        normal_step(st2, c)
    }
}

/// One step in `PossibleAssignment` mode, after a `:`: an `=` completes the
/// assignment sign `:=`; anything else makes the colon a token of its own and
/// is re-processed in `Normal` mode.
pub open spec fn possible_assignment_step(st: ScanState, c: char) -> ScanState {
    if c == '=' {
        ScanState { mode: ScanMode::Normal, tokens: st.tokens.push(TokenView::Assignment), ..st }
    } else {
        let st2 = ScanState {
            mode: ScanMode::Normal,
            tokens: st.tokens.push(TokenView::Colon),
            ..st
        };
        normal_step(st2, c)
    }
}

/// One step in `PossibleRange` mode, after a `.`: a second `.` completes the
/// range sign `..`; anything else leaves the dot as the start of an `Other`
/// lexeme and is re-processed there.
pub open spec fn possible_range_step(st: ScanState, c: char) -> ScanState {
    if c == '.' {
        ScanState { mode: ScanMode::Normal, tokens: st.tokens.push(TokenView::Range), ..st }
    } else {
        let st2 = ScanState { mode: ScanMode::Other, buffer: seq!['.'], ..st };
        other_step(st2, c)
    }
}

/// One step in `LineComment` mode: discard until a line feed.
pub open spec fn line_comment_step(st: ScanState, c: char) -> ScanState {
    if c == '\n' {
        ScanState { mode: ScanMode::Normal, ..st }
    } else {
        st
    }
}

/// One step in `BlockComment` mode. The buffer holds the pending `/` or `*`
/// that may begin a delimiter; a completed `/*` deepens the nesting, a
/// completed `*/` closes one level, and the characters of a completed
/// delimiter pair with nothing further.
pub open spec fn block_comment_step(st: ScanState, c: char) -> ScanState {
    if c == '*' {
        if st.buffer == seq!['/'] {
            ScanState { buffer: Seq::empty(), depth: st.depth + 1, ..st }
        } else {
            ScanState { buffer: seq!['*'], ..st }
        }
    } else if c == '/' {
        if st.buffer == seq!['*'] {
            if st.depth <= 1 {
                ScanState { mode: ScanMode::Normal, buffer: Seq::empty(), depth: 0, ..st }
            } else {
                ScanState { buffer: Seq::empty(), depth: (st.depth - 1) as nat, ..st }
            }
        } else {
            ScanState { buffer: seq!['/'], ..st }
        }
    } else {
        ScanState { buffer: Seq::empty(), ..st }
    }
}

/// A step of the automaton deepens the block-comment nesting by at most one.
pub proof fn lemma_scan_step_depth(st: ScanState, c: char)
    ensures
        scan_step(st, c) matches Ok(st2) ==> st2.depth <= st.depth + 1,
{
}

/// One step of the whole automaton: dispatch on the current mode.
pub open spec fn scan_step(st: ScanState, c: char) -> Result<ScanState, ScanErrorKind> {
    match st.mode {
        ScanMode::Normal => Ok(normal_step(st, c)),
        ScanMode::StringLiteral => Ok(string_step(st, c)),
        ScanMode::Number => Ok(number_step(st, c)),
        ScanMode::PossibleComment => Ok(possible_comment_step(st, c)),
        ScanMode::LineComment => Ok(line_comment_step(st, c)),
        ScanMode::BlockComment => Ok(block_comment_step(st, c)),
        ScanMode::Other => Ok(other_step(st, c)),
        ScanMode::Escape => escape_step(st, c),
        ScanMode::PossibleAssignment => Ok(possible_assignment_step(st, c)),
        ScanMode::PossibleRange => Ok(possible_range_step(st, c)),
    }
}

/// Run the automaton over a whole character sequence.
pub open spec fn scan_from(st: ScanState, s: Seq<char>) -> Result<ScanState, ScanErrorKind>
    decreases s.len(),
{
    if s.len() == 0 {
        Ok(st)
    } else {
        match scan_step(st, s[0]) {
            Ok(st2) => scan_from(st2, s.drop_first()),
            Err(k) => Err(k),
        }
    }
}

/// End of input: a buffered number or lexeme is flushed as a final token, a
/// pending lone slash becomes a divide operator, and an unterminated string,
/// escape or block comment is a lexical error. On success the scanner is
/// back in its initial state but for the tokens gathered.
pub open spec fn scan_finish(st: ScanState) -> Result<Seq<TokenView>, ScanErrorKind> {
    match st.mode {
        ScanMode::Normal => Ok(st.tokens),
        ScanMode::LineComment => Ok(st.tokens),
        ScanMode::Number => Ok(st.tokens.push(TokenView::Number(decimal_value(st.buffer)))),
        ScanMode::Other => Ok(st.tokens.push(eval_buffer_spec(st.buffer))),
        ScanMode::PossibleComment => Ok(st.tokens.push(TokenView::Operator(Operator::Divide))),
        ScanMode::PossibleAssignment => Ok(st.tokens.push(TokenView::Colon)),
        ScanMode::PossibleRange => Ok(st.tokens.push(eval_buffer_spec(seq!['.']))),
        ScanMode::StringLiteral => Err(ScanErrorKind::UnterminatedString),
        ScanMode::Escape => Err(ScanErrorKind::UnterminatedEscape),
        ScanMode::BlockComment => Err(ScanErrorKind::UnterminatedComment),
    }
}

/// What scanning a complete source text yields from a given starting state:
/// the full token sequence, or the first lexical error.
pub open spec fn scan_text(st: ScanState, s: Seq<char>) -> Result<Seq<TokenView>, ScanErrorKind> {
    match scan_from(st, s) {
        Ok(st2) => scan_finish(st2),
        Err(k) => Err(k),
    }
}

/// What scanning a complete source text yields from a fresh scanner.
pub open spec fn scan_spec(s: Seq<char>) -> Result<Seq<TokenView>, ScanErrorKind> {
    scan_text(init_scan_state(), s)
}

// ---------------------------------------------------------------------------
// Well-formedness of a scanner state
// ---------------------------------------------------------------------------

/// The escape buffer either is empty or holds a multi-character escape
/// starter followed by the hexadecimal digits gathered so far.
pub open spec fn escape_buffer_wf(eb: Seq<char>) -> bool {
    eb.len() == 0 || {
        &&& opens_long_escape(eb[0])
        &&& forall|i: int| 1 <= i < eb.len() ==> is_hex_digit(#[trigger] eb[i])
        &&& eb[0] == 'x' ==> eb.len() <= 3
        &&& eb[0] == 'u' ==> eb.len() <= 4
        &&& eb[0] == 'U' ==> eb.len() <= 8
        &&& !(eb[0] == 'x' || eb[0] == 'u' || eb[0] == 'U') ==> eb.len() == 1
    }
}

/// The invariant every reachable scanner state satisfies: each mode owns its
/// buffers in the shape its transitions expect.
pub open spec fn scan_state_wf(st: ScanState) -> bool {
    &&& match st.mode {
        ScanMode::Normal => st.buffer.len() == 0,
        ScanMode::PossibleComment => st.buffer.len() == 0,
        ScanMode::PossibleAssignment => st.buffer.len() == 0,
        ScanMode::PossibleRange => st.buffer.len() == 0,
        ScanMode::LineComment => st.buffer.len() == 0,
        ScanMode::Number => st.buffer.len() >= 1 && forall|i: int|
            0 <= i < st.buffer.len() ==> is_digit(#[trigger] st.buffer[i]),
        ScanMode::Other => st.buffer.len() >= 1,
        ScanMode::BlockComment => st.buffer.len() <= 1,
        ScanMode::StringLiteral => true,
        ScanMode::Escape => true,
    }
    &&& st.mode is BlockComment ==> st.depth >= 1
    &&& !(st.mode is BlockComment) ==> st.depth == 0
    &&& st.mode is Escape ==> escape_buffer_wf(st.escape_buffer)
    &&& !(st.mode is Escape) ==> st.escape_buffer.len() == 0
}

// ---------------------------------------------------------------------------
// Trusted items
// ---------------------------------------------------------------------------

/// Relies on `char::is_alphanumeric`: whether the character is in one of the
/// Unicode classes Alphabetic, Nd, Nl or No; the result depends on the
/// character alone.
#[verifier::external_body]
fn char_is_alphanumeric(c: char) -> (r: bool)
    ensures
        r == alphanumeric(c),
{
    c.is_alphanumeric()
}

/// Relies on `char::from_u32`: `Some` exactly for Unicode scalar values,
/// i.e. everything but the surrogates and values above `char::MAX`.
pub assume_specification [ char::from_u32 ](v: u32) -> (r: Option<char>)
    ensures
        valid_code_point(v as nat) ==> r == Some(v as char),
        !valid_code_point(v as nat) ==> r is None,
;

/// Relies on `String::push`: appends the character to the end of the string.
pub assume_specification [ std::string::String::push ](s: &mut String, ch: char)
    ensures
        final(s)@ == old(s)@.push(ch),
;

// ---------------------------------------------------------------------------
// Executable character helpers
// ---------------------------------------------------------------------------

fn is_digit_exec(c: char) -> (r: bool)
    ensures
        r == is_digit(c),
{
    let u = c as u32;
    0x30 <= u && u <= 0x39
}

fn is_hex_digit_exec(c: char) -> (r: bool)
    ensures
        r == is_hex_digit(c),
{
    let u = c as u32;
    (0x30 <= u && u <= 0x39) || (0x61 <= u && u <= 0x66) || (0x41 <= u && u <= 0x46)
}

fn hex_val_exec(c: char) -> (r: u32)
    requires
        is_hex_digit(c),
    ensures
        r as nat == hex_val(c),
        r <= 15,
{
    let u = c as u32;
    if 0x30 <= u && u <= 0x39 {
        u - 0x30
    } else if 0x61 <= u && u <= 0x66 {
        u - 0x61 + 10
    } else {
        u - 0x41 + 10
    }
}

fn is_whitespace_exec(c: char) -> (r: bool)
    ensures
        r == is_whitespace(c),
{
    c == ' ' || c == '\n' || c == '\t' || c == '\r'
}

/// The characters of a source string, in order.
fn str_chars(s: &str) -> (v: Vec<char>)
    ensures
        v@ == s@,
{
    let mut it = s.chars();
    let mut v: Vec<char> = Vec::new();
    proof {
        assert(spec_iter(s).remaining() == s@);
        assert(v@ + it.remaining() =~= s@);
    }
    loop
        invariant
            v@ + it.remaining() == s@,
            v@.len() <= s@.len(),
        ensures
            v@ == s@,
        decreases s@.len() - v@.len(),
    {
        let ghost prev = it;
        match it.next() {
            Some(c) => {
                v.push(c);
                proof {
                    assert(v@ + it.remaining() =~= s@);
                }
            },
            None => {
                proof {
                    assert(v@ + prev.remaining() =~= v@);
                }
                break ;
            },
        }
    }
    v
}

/// A `String` holding exactly the given characters.
fn chars_to_string(v: &Vec<char>) -> (s: String)
    ensures
        s@ == v@,
{
    let mut s = String::new();
    let mut i: usize = 0;
    while i < v.len()
        invariant
            i <= v.len(),
            s@ == v@.take(i as int),
        decreases v.len() - i,
    {
        s.push(v[i]);
        proof {
            assert(v@.take(i as int).push(v@[i as int]) =~= v@.take(i as int + 1));
        }
        i += 1;
    }
    proof {
        assert(v@.take(v.len() as int) =~= v@);
    }
    s
}

// ---------------------------------------------------------------------------
// Hexadecimal evaluation
// ---------------------------------------------------------------------------

/// Sixteen to the power `n`.
pub open spec fn pow16(n: nat) -> nat
    decreases n,
{
    if n == 0 {
        1
    } else {
        16 * pow16((n - 1) as nat)
    }
}

proof fn lemma_pow16_mono(a: nat, b: nat)
    requires
        a <= b,
    ensures
        pow16(a) <= pow16(b),
    decreases b,
{
    if a < b {
        lemma_pow16_mono(a, (b - 1) as nat);
    }
}

proof fn lemma_hex_value_bound(s: Seq<char>)
    requires
        forall|i: int| 0 <= i < s.len() ==> is_hex_digit(#[trigger] s[i]),
    ensures
        hex_value(s) < pow16(s.len()),
    decreases s.len(),
{
    if s.len() > 0 {
        lemma_hex_value_bound(s.drop_last());
    }
}

proof fn lemma_pow16_values()
    ensures
        pow16(2) == 0x100,
        pow16(8) == 0x100000000,
{
    assert(pow16(0) == 1);
    assert(pow16(1) == 16);
    assert(pow16(2) == 0x100);
    assert(pow16(3) == 0x1000);
    assert(pow16(4) == 0x10000);
    assert(pow16(5) == 0x100000);
    assert(pow16(6) == 0x1000000);
    assert(pow16(7) == 0x10000000);
    assert(pow16(8) == 0x100000000);
}

/// The byte value of a completed `\x` escape buffer: the one or two
/// hexadecimal digits after the starter.
fn hex_byte_value(eb: &Vec<char>) -> (v: u32)
    requires
        2 <= eb@.len() <= 3,
        forall|i: int| 1 <= i < eb@.len() ==> is_hex_digit(#[trigger] eb@[i]),
    ensures
        v as nat == hex_value(eb@.drop_first()),
        v <= 255,
{
    let mut v: u32 = hex_val_exec(eb[1]);
    if eb.len() == 3 {
        let d = hex_val_exec(eb[2]);
        proof {
            let tail = eb@.drop_first();
            assert(tail.len() == 2);
            assert(tail.drop_last() =~= seq![eb@[1]]);
            assert(tail.last() == eb@[2]);
            assert(seq![eb@[1]].drop_last() =~= Seq::<char>::empty());
            assert(hex_value(Seq::<char>::empty()) == 0);
            assert(hex_value(seq![eb@[1]]) == hex_val(eb@[1]));
        }
        v = v * 16 + d;
    } else {
        proof {
            let tail = eb@.drop_first();
            assert(tail.len() == 1);
            assert(tail.drop_last() =~= Seq::<char>::empty());
            assert(hex_value(Seq::<char>::empty()) == 0);
            assert(tail.last() == eb@[1]);
        }
    }
    v
}

/// The value of the escape buffer's hexadecimal digits (everything after the
/// starter), extended by one further digit `c`.
fn hex_tail_value(eb: &Vec<char>, c: char) -> (v: u32)
    requires
        1 <= eb@.len() <= 8,
        forall|i: int| 1 <= i < eb@.len() ==> is_hex_digit(#[trigger] eb@[i]),
        is_hex_digit(c),
    ensures
        v as nat == hex_value(eb@.drop_first().push(c)),
{
    let ghost digits = eb@.drop_first().push(c);
    let mut v: u32 = 0;
    let mut i: usize = 1;
    proof {
        assert(digits.take(0) =~= Seq::<char>::empty());
    }
    while i < eb.len()
        invariant
            1 <= i <= eb@.len() <= 8,
            forall|j: int| 1 <= j < eb@.len() ==> is_hex_digit(#[trigger] eb@[j]),
            is_hex_digit(c),
            digits == eb@.drop_first().push(c),
            v as nat == hex_value(digits.take(i - 1)),
            (v as nat) < pow16((i - 1) as nat),
        decreases eb@.len() - i,
    {
        let d = hex_val_exec(eb[i]);
        proof {
            lemma_pow16_mono(i as nat, 8);
            lemma_pow16_values();
            assert(digits.take(i as int).drop_last() =~= digits.take(i - 1));
            assert(digits.take(i as int).last() == digits[i - 1]);
            assert(digits[i - 1] == eb@[i as int]);
        }
        v = v * 16 + d;
        i += 1;
    }
    let d = hex_val_exec(c);
    proof {
        lemma_pow16_mono((i - 1) as nat, 7);
        lemma_pow16_values();
        assert(digits.take(i as int).drop_last() =~= digits.take(i - 1));
        assert(digits.take(i as int).last() == digits[i - 1]);
        assert(digits[i - 1] == c);
        assert(digits.take(i as int) =~= digits);
    }
    v * 16 + d
}

// ---------------------------------------------------------------------------
// Building numbers from buffered digits
// ---------------------------------------------------------------------------

/// A digit string denotes the same value once a leading zero is dropped.
proof fn lemma_decimal_value_skip_zero(s: Seq<char>)
    requires
        s.len() >= 1,
        digit_val(s[0]) == 0,
    ensures
        decimal_value(s) == decimal_value(s.drop_first()),
    decreases s.len(),
{
    if s.len() == 1 {
        assert(s.drop_last() =~= Seq::<char>::empty());
        assert(s.drop_first() =~= Seq::<char>::empty());
    } else {
        lemma_decimal_value_skip_zero(s.drop_last());
        assert(s.drop_last()[0] == s[0]);
        assert(s.drop_first().drop_last() =~= s.drop_last().drop_first());
        assert(s.drop_first().last() == s.last());
    }
}

impl Digits {
    /// The number a buffered digit string denotes, in canonical form.
    pub fn from_chars(buf: &Vec<char>) -> (d: Digits)
        requires
            buf@.len() >= 1,
            forall|i: int| 0 <= i < buf@.len() ==> is_digit(#[trigger] buf@[i]),
        ensures
            d.wf(),
            d@ == decimal_value(buf@),
    {
        // Skip leading zeros so that the representation is canonical.
        let mut j: usize = 0;
        proof {
            assert(buf@.skip(0) =~= buf@);
        }
        while j < buf.len() - 1 && buf[j] == '0'
            invariant
                0 <= j < buf@.len(),
                forall|i: int| 0 <= i < buf@.len() ==> is_digit(#[trigger] buf@[i]),
                decimal_value(buf@.skip(j as int)) == decimal_value(buf@),
            decreases buf@.len() - j,
        {
            proof {
                let rest = buf@.skip(j as int);
                assert(rest[0] == buf@[j as int]);
                assert(digit_val(rest[0]) == 0);
                lemma_decimal_value_skip_zero(rest);
                assert(rest.drop_first() =~= buf@.skip(j as int + 1));
            }
            j += 1;
        }
        let ghost tail = buf@.skip(j as int);
        let mut digits: Vec<u8> = Vec::new();
        let mut i: usize = j;
        proof {
            assert(tail.take(0) =~= Seq::<char>::empty());
        }
        while i < buf.len()
            invariant
                j <= i <= buf@.len(),
                j < buf@.len(),
                forall|k: int| 0 <= k < buf@.len() ==> is_digit(#[trigger] buf@[k]),
                tail == buf@.skip(j as int),
                digits@.len() == i - j,
                digits_value(digits@) == decimal_value(tail.take(i - j)),
                forall|k: int| 0 <= k < digits@.len() ==> #[trigger] digits@[k] < 10,
                forall|k: int| 0 <= k < digits@.len() ==> digits@[k] as nat == digit_val(
                    tail[k],
                ),
            decreases buf@.len() - i,
        {
            let c = buf[i];
            let dv = (c as u32 - 0x30) as u8;
            let ghost prev = digits@;
            digits.push(dv);
            proof {
                let n = (i - j) as int;
                assert(tail.take(n + 1).drop_last() =~= tail.take(n));
                assert(tail.take(n + 1).last() == tail[n]);
                assert(tail[n] == buf@[i as int]);
                assert(digits@.drop_last() =~= prev);
                assert(digits@.last() == dv);
            }
            i += 1;
        }
        proof {
            assert(tail.take(buf@.len() - j) =~= tail);
        }
        let d = Digits { digits };
        proof {
            // Canonical: nonempty, digits below ten, no leading zero unless
            // the whole buffer was zeros.
            assert(d.digits@.len() >= 1);
            if d.digits@.len() > 1 {
                assert(j < buf@.len() - 1);
                assert(buf@[j as int] != '0');
                vstd::utf8::char_u32_cast(buf@[j as int], buf@[j as int] as u32);
                vstd::utf8::char_u32_cast('0', '0' as u32);
                assert(tail[0] == buf@[j as int]);
                assert(d.digits@[0] as nat == digit_val(tail[0]));
                assert(d.digits@[0] != 0);
            }
        }
        d
    }
}

/// The keyword the buffered lexeme names, if any.
fn lookup_keyword(b: &Vec<char>) -> (r: Option<KeyWord>)
    ensures
        r == keyword_of(b@),
{
    let n = b.len();
    if n == 3 && b[0] == 'v' && b[1] == 'a' && b[2] == 'r' {
        proof {
            assert(b@ =~= seq!['v', 'a', 'r']);
        }
        Some(KeyWord::Var)
    } else if n == 3 && b[0] == 'f' && b[1] == 'o' && b[2] == 'r' {
        proof {
            assert(b@ =~= seq!['f', 'o', 'r']);
        }
        Some(KeyWord::For)
    } else if n == 3 && b[0] == 'e' && b[1] == 'n' && b[2] == 'd' {
        proof {
            assert(b@ =~= seq!['e', 'n', 'd']);
        }
        Some(KeyWord::End)
    } else if n == 2 && b[0] == 'i' && b[1] == 'n' {
        proof {
            assert(b@ =~= seq!['i', 'n']);
        }
        Some(KeyWord::In)
    } else if n == 2 && b[0] == 'd' && b[1] == 'o' {
        proof {
            assert(b@ =~= seq!['d', 'o']);
        }
        Some(KeyWord::Do)
    } else if n == 4 && b[0] == 'r' && b[1] == 'e' && b[2] == 'a' && b[3] == 'd' {
        proof {
            assert(b@ =~= seq!['r', 'e', 'a', 'd']);
        }
        Some(KeyWord::Read)
    } else if n == 5 && b[0] == 'p' && b[1] == 'r' && b[2] == 'i' && b[3] == 'n' && b[4] == 't' {
        proof {
            assert(b@ =~= seq!['p', 'r', 'i', 'n', 't']);
        }
        Some(KeyWord::Print)
    } else if n == 3 && b[0] == 'i' && b[1] == 'n' && b[2] == 't' {
        proof {
            assert(b@ =~= seq!['i', 'n', 't']);
        }
        Some(KeyWord::Int)
    } else if n == 6 && b[0] == 's' && b[1] == 't' && b[2] == 'r' && b[3] == 'i' && b[4] == 'n'
        && b[5] == 'g' {
        proof {
            assert(b@ =~= seq!['s', 't', 'r', 'i', 'n', 'g']);
        }
        Some(KeyWord::String)
    } else if n == 4 && b[0] == 'b' && b[1] == 'o' && b[2] == 'o' && b[3] == 'l' {
        proof {
            assert(b@ =~= seq!['b', 'o', 'o', 'l']);
        }
        Some(KeyWord::Bool)
    } else if n == 6 && b[0] == 'a' && b[1] == 's' && b[2] == 's' && b[3] == 'e' && b[4] == 'r'
        && b[5] == 't' {
        proof {
            assert(b@ =~= seq!['a', 's', 's', 'e', 'r', 't']);
        }
        Some(KeyWord::Assert)
    } else {
        None
    }
}

// ---------------------------------------------------------------------------
// The scanner
// ---------------------------------------------------------------------------

/// A lexical error carrying the offending character in its detail message.
fn scan_error_at(kind: ScanErrorKind, msg: &str, c: char) -> (e: ScanError)
    ensures
        e.kind == kind,
{
    let mut detail: String = msg.to_owned();
    detail.push(c);
    ScanError { kind: kind, detail: detail }
}

/// A lexical error with a fixed detail message.
fn scan_error(kind: ScanErrorKind, msg: &str) -> (e: ScanError)
    ensures
        e.kind == kind,
{
    ScanError { kind: kind, detail: msg.to_owned() }
}

/// The scanner: a finite-state automaton over source characters. Its view is
/// the `ScanState` the specification-level automaton manipulates.
pub struct Scanner {
    /// Tokens recognized so far.
    tokens: Vec<Token>,
    /// The automaton state, choosing the handling of the next character.
    scan_mode: ScanMode,
    /// Previously scanned characters needed for the token being built.
    buffer: Vec<char>,
    /// Characters of the escape sequence being decoded inside a string.
    escape_buffer: Vec<char>,
    /// How many block comments are open around the current position.
    block_comment_counter: usize,
}

impl View for Scanner {
    type V = ScanState;

    closed spec fn view(&self) -> ScanState {
        ScanState {
            mode: self.scan_mode,
            buffer: self.buffer@,
            escape_buffer: self.escape_buffer@,
            depth: self.block_comment_counter as nat,
            tokens: self.tokens.deep_view(),
        }
    }
}

impl Scanner {
    /// The scanner's state is one the automaton can reach.
    pub open spec fn wf(&self) -> bool {
        scan_state_wf(self@)
    }

    /// A fresh scanner, ready to scan a source text.
    pub fn new() -> (s: Scanner)
        ensures
            s@ == init_scan_state(),
            s.wf(),
    {
        let s = Scanner {
            tokens: Vec::new(),
            scan_mode: ScanMode::Normal,
            buffer: Vec::new(),
            escape_buffer: Vec::new(),
            block_comment_counter: 0,
        };
        proof {
            assert(s@ =~= init_scan_state());
        }
        s
    }

    /// Append one recognized token.
    fn push_token(&mut self, t: Token)
        ensures
            final(self)@ == (ScanState { tokens: old(self)@.tokens.push(t@), ..old(self)@ }),
            final(self).wf() == old(self).wf(),
    {
        let ghost tv = t@;
        self.tokens.push(t);
        proof {
            assert(self.tokens.deep_view() =~= old(self).tokens.deep_view().push(tv));
            assert(self@ =~= (ScanState { tokens: old(self)@.tokens.push(tv), ..old(self)@ }));
        }
    }

    fn normal_scan(&mut self, c: char)
        requires
            old(self).wf(),
            old(self)@.mode is Normal,
        ensures
            final(self).wf(),
            final(self)@ == normal_step(old(self)@, c),
    {
        if c == '(' {
            self.push_token(Token::Bracket(Direction::Left));
        } else if c == ')' {
            self.push_token(Token::Bracket(Direction::Right));
        } else if c == ';' {
            self.push_token(Token::Semicolon);
        } else if c == '+' {
            self.push_token(Token::Operator(Operator::Plus));
        } else if c == '-' {
            self.push_token(Token::Operator(Operator::Minus));
        } else if c == '*' {
            self.push_token(Token::Operator(Operator::Multiply));
        } else if c == '<' {
            self.push_token(Token::Operator(Operator::LessThan));
        } else if c == '=' {
            self.push_token(Token::Operator(Operator::Equals));
        } else if c == '&' {
            self.push_token(Token::Operator(Operator::And));
        } else if c == '!' {
            self.push_token(Token::Operator(Operator::Not));
        } else if c == '"' {
            self.scan_mode = ScanMode::StringLiteral;
        } else if c == '/' {
            self.scan_mode = ScanMode::PossibleComment;
        } else if c == ':' {
            self.scan_mode = ScanMode::PossibleAssignment;
        } else if c == '.' {
            self.scan_mode = ScanMode::PossibleRange;
        } else if is_digit_exec(c) {
            self.buffer.push(c);
            self.scan_mode = ScanMode::Number;
            proof {
                assert(self@.buffer =~= seq![c]);
            }
        } else if is_whitespace_exec(c) {
        } else {
            self.buffer.push(c);
            self.scan_mode = ScanMode::Other;
            proof {
                assert(self@.buffer =~= seq![c]);
            }
        }
        proof {
            assert(final(self)@ =~= normal_step(old(self)@, c));
        }
    }

    fn string_scan(&mut self, c: char)
        requires
            old(self).wf(),
            old(self)@.mode is StringLiteral,
        ensures
            final(self).wf(),
            final(self)@ == string_step(old(self)@, c),
    {
        if c == '\\' {
            self.scan_mode = ScanMode::Escape;
        } else if c == '"' {
            let text = chars_to_string(&self.buffer);
            self.push_token(Token::StringLiteral(text));
            self.buffer.clear();
            self.scan_mode = ScanMode::Normal;
        } else {
            self.buffer.push(c);
        }
        proof {
            assert(final(self)@ =~= string_step(old(self)@, c));
        }
    }

    fn escape_scan(&mut self, c: char) -> (r: Result<(), ScanError>)
        requires
            old(self).wf(),
            old(self)@.mode is Escape,
        ensures
            final(self).wf(),
            match escape_step(old(self)@, c) {
                Ok(st) => r is Ok && final(self)@ == st,
                Err(k) => {
                    &&& r matches Err(e) && e.kind == k
                    &&& final(self)@ == old(self)@
                },
            },
    {
        if self.escape_buffer.len() == 0 {
            let decoded: Option<char> = if c == 'a' {
                Some('\x07')
            } else if c == 'b' {
                Some('\x08')
            } else if c == 'f' {
                Some('\x0C')
            } else if c == 'n' {
                Some('\n')
            } else if c == 'r' {
                Some('\r')
            } else if c == 't' {
                Some('\t')
            } else if c == 'v' {
                Some('\x0B')
            } else if c == '\\' || c == '\'' || c == '"' || c == '?' {
                Some(c)
            } else {
                None
            };
            match decoded {
                Some(e) => {
                    self.buffer.push(e);
                    self.scan_mode = ScanMode::StringLiteral;
                    proof {
                        assert(final(self)@ =~= escape_step(old(self)@, c).unwrap());
                    }
                    Ok(())
                },
                None => {
                    let u = c as u32;
                    if c == 'x' || c == 'u' || c == 'U' || (0x30 <= u && u <= 0x38) {
                        self.escape_buffer.push(c);
                        proof {
                            assert(self@.escape_buffer =~= seq![c]);
                            assert(final(self)@ =~= escape_step(old(self)@, c).unwrap());
                        }
                        Ok(())
                    } else {
                        Err(scan_error_at(ScanErrorKind::UnsupportedEscape, "unsupported escape: ", c))
                    }
                },
            }
        } else if self.escape_buffer[0] == 'x' {
            if is_hex_digit_exec(c) {
                if self.escape_buffer.len() > 2 {
                    Err(
                        scan_error_at(
                            ScanErrorKind::HexEscapeTooLong,
                            "hex escape longer than a byte at: ",
                            c,
                        ),
                    )
                } else {
                    self.escape_buffer.push(c);
                    proof {
                        assert(final(self)@ =~= escape_step(old(self)@, c).unwrap());
                    }
                    Ok(())
                }
            } else if self.escape_buffer.len() < 2 {
                Err(
                    scan_error_at(
                        ScanErrorKind::HexEscapeMissingDigits,
                        "hex escape without digits at: ",
                        c,
                    ),
                )
            } else {
                // Decode the one or two hex digits gathered after the `x`.
                let ghost st2 = (ScanState {
                    mode: ScanMode::StringLiteral,
                    buffer: old(self)@.buffer.push(
                        hex_value(old(self)@.escape_buffer.drop_first()) as u32 as char,
                    ),
                    escape_buffer: Seq::empty(),
                    ..old(self)@
                });
                let v = hex_byte_value(&self.escape_buffer);
                let decoded = match char::from_u32(v) {
                    Some(ch) => ch,
                    None => {
                        proof {
                            assert(false);
                        }
                        vstd::pervasive::unreached()
                    },
                };
                proof {
                    assert(decoded == hex_value(old(self)@.escape_buffer.drop_first()) as u32
                        as char);
                }
                self.buffer.push(decoded);
                self.escape_buffer.clear();
                self.scan_mode = ScanMode::StringLiteral;
                proof {
                    assert(self@ =~= st2);
                    assert(escape_step(old(self)@, c) == Ok::<ScanState, ScanErrorKind>(
                        string_step(st2, c),
                    ));
                }
                self.string_scan(c);
                Ok(())
            }
        } else if self.escape_buffer[0] == 'u' || self.escape_buffer[0] == 'U' {
            let need: usize = if self.escape_buffer[0] == 'U' {
                8
            } else {
                4
            };
            if is_hex_digit_exec(c) {
                let ghost eb2 = old(self)@.escape_buffer.push(c);
                proof {
                    assert(eb2.drop_first() =~= old(self)@.escape_buffer.drop_first().push(c));
                }
                if self.escape_buffer.len() == need {
                    // This digit completes the escape.
                    let v = hex_tail_value(&self.escape_buffer, c);
                    match char::from_u32(v) {
                        Some(ch) => {
                            proof {
                                assert(valid_code_point(v as nat));
                                assert(ch == hex_value(eb2.drop_first()) as u32 as char);
                            }
                            self.buffer.push(ch);
                            self.escape_buffer.clear();
                            self.scan_mode = ScanMode::StringLiteral;
                            proof {
                                assert(self@ =~= (ScanState {
                                    mode: ScanMode::StringLiteral,
                                    buffer: old(self)@.buffer.push(
                                        hex_value(eb2.drop_first()) as u32 as char,
                                    ),
                                    escape_buffer: Seq::empty(),
                                    ..old(self)@
                                }));
                            }
                            Ok(())
                        },
                        None => {
                            proof {
                                assert(!valid_code_point(hex_value(eb2.drop_first())));
                            }
                            Err(
                                scan_error_at(
                                    ScanErrorKind::InvalidCodePoint,
                                    "invalid unicode code point in escape ending at: ",
                                    c,
                                ),
                            )
                        },
                    }
                } else {
                    self.escape_buffer.push(c);
                    proof {
                        assert(self@.escape_buffer =~= eb2);
                    }
                    Ok(())
                }
            } else {
                Err(
                    scan_error_at(
                        ScanErrorKind::UnicodeEscapeBadDigit,
                        "unicode escape interrupted by: ",
                        c,
                    ),
                )
            }
        } else {
            // An octal starter names no supported escape once continued.
            Err(scan_error_at(ScanErrorKind::UnsupportedEscape, "unsupported escape at: ", c))
        }
    }

    fn number_scan(&mut self, c: char)
        requires
            old(self).wf(),
            old(self)@.mode is Number,
        ensures
            final(self).wf(),
            final(self)@ == number_step(old(self)@, c),
    {
        if is_digit_exec(c) {
            self.buffer.push(c);
            proof {
                assert(final(self)@ =~= number_step(old(self)@, c));
            }
        } else {
            let d = Digits::from_chars(&self.buffer);
            self.push_token(Token::Number(d));
            self.buffer.clear();
            self.scan_mode = ScanMode::Normal;
            self.normal_scan(c);
        }
    }

    /// Make the buffered lexeme a keyword or identifier token.
    fn eval_buffer(&mut self)
        requires
            old(self).wf(),
            old(self)@.mode is Other,
        ensures
            final(self).wf(),
            final(self)@ == (ScanState {
                tokens: old(self)@.tokens.push(eval_buffer_spec(old(self)@.buffer)),
                ..old(self)@
            }),
    {
        match lookup_keyword(&self.buffer) {
            Some(kw) => self.push_token(Token::KeyWord(kw)),
            None => {
                let text = chars_to_string(&self.buffer);
                self.push_token(Token::Identifier(text));
            },
        }
    }

    fn identifier_and_keyword_scan(&mut self, c: char)
        requires
            old(self).wf(),
            old(self)@.mode is Other,
        ensures
            final(self).wf(),
            final(self)@ == other_step(old(self)@, c),
    {
        if char_is_alphanumeric(c) || c == '_' {
            self.buffer.push(c);
            proof {
                assert(final(self)@ =~= other_step(old(self)@, c));
            }
        } else {
            self.eval_buffer();
            self.buffer.clear();
            self.scan_mode = ScanMode::Normal;
            self.normal_scan(c);
        }
    }

    fn check_for_comment(&mut self, c: char)
        requires
            old(self).wf(),
            old(self)@.mode is PossibleComment,
        ensures
            final(self).wf(),
            final(self)@ == possible_comment_step(old(self)@, c),
    {
        if c == '/' {
            self.scan_mode = ScanMode::LineComment;
            proof {
                assert(final(self)@ =~= possible_comment_step(old(self)@, c));
            }
        } else if c == '*' {
            self.block_comment_counter = 1;
            self.scan_mode = ScanMode::BlockComment;
            proof {
                assert(final(self)@ =~= possible_comment_step(old(self)@, c));
            }
        } else {
            self.push_token(Token::Operator(Operator::Divide));
            self.scan_mode = ScanMode::Normal;
            self.normal_scan(c);
        }
    }

    fn check_for_assignment(&mut self, c: char)
        requires
            old(self).wf(),
            old(self)@.mode is PossibleAssignment,
        ensures
            final(self).wf(),
            final(self)@ == possible_assignment_step(old(self)@, c),
    {
        if c == '=' {
            self.push_token(Token::Assignment);
            self.scan_mode = ScanMode::Normal;
            proof {
                assert(final(self)@ =~= possible_assignment_step(old(self)@, c));
            }
        } else {
            self.push_token(Token::Colon);
            self.scan_mode = ScanMode::Normal;
            self.normal_scan(c);
        }
    }

    fn check_for_range(&mut self, c: char)
        requires
            old(self).wf(),
            old(self)@.mode is PossibleRange,
        ensures
            final(self).wf(),
            final(self)@ == possible_range_step(old(self)@, c),
    {
        if c == '.' {
            self.push_token(Token::Range);
            self.scan_mode = ScanMode::Normal;
            proof {
                assert(final(self)@ =~= possible_range_step(old(self)@, c));
            }
        } else {
            self.buffer.push('.');
            self.scan_mode = ScanMode::Other;
            proof {
                assert(self@.buffer =~= seq!['.']);
            }
            self.identifier_and_keyword_scan(c);
        }
    }

    fn line_comment_handling(&mut self, c: char)
        requires
            old(self).wf(),
            old(self)@.mode is LineComment,
        ensures
            final(self).wf(),
            final(self)@ == line_comment_step(old(self)@, c),
    {
        if c == '\n' {
            self.scan_mode = ScanMode::Normal;
        }
        proof {
            assert(final(self)@ =~= line_comment_step(old(self)@, c));
        }
    }

    fn block_comment_handling(&mut self, c: char)
        requires
            old(self).wf(),
            old(self)@.mode is BlockComment,
            old(self)@.depth < usize::MAX,
        ensures
            final(self).wf(),
            final(self)@ == block_comment_step(old(self)@, c),
    {
        let pending_slash = self.buffer.len() == 1 && self.buffer[0] == '/';
        let pending_star = self.buffer.len() == 1 && self.buffer[0] == '*';
        proof {
            if pending_slash {
                assert(old(self)@.buffer =~= seq!['/']);
            } else {
                assert(old(self)@.buffer != seq!['/']);
            }
            if pending_star {
                assert(old(self)@.buffer =~= seq!['*']);
            } else {
                assert(old(self)@.buffer != seq!['*']);
            }
        }
        if c == '*' {
            if pending_slash {
                self.block_comment_counter = self.block_comment_counter + 1;
                self.buffer.clear();
            } else {
                self.buffer.clear();
                self.buffer.push('*');
                proof {
                    assert(self@.buffer =~= seq!['*']);
                }
            }
        } else if c == '/' {
            if pending_star {
                self.block_comment_counter = self.block_comment_counter - 1;
                self.buffer.clear();
                if self.block_comment_counter == 0 {
                    self.scan_mode = ScanMode::Normal;
                }
            } else {
                self.buffer.clear();
                self.buffer.push('/');
                proof {
                    assert(self@.buffer =~= seq!['/']);
                }
            }
        } else {
            self.buffer.clear();
        }
        proof {
            assert(final(self)@ =~= block_comment_step(old(self)@, c));
        }
    }

    /// Handle one source character according to the current mode.
    fn step_char(&mut self, c: char) -> (r: Result<(), ScanError>)
        requires
            old(self).wf(),
            old(self)@.depth < usize::MAX,
        ensures
            final(self).wf(),
            match scan_step(old(self)@, c) {
                Ok(st) => r is Ok && final(self)@ == st,
                Err(k) => {
                    &&& r matches Err(e) && e.kind == k
                    &&& final(self)@ == old(self)@
                },
            },
    {
        match self.scan_mode {
            ScanMode::Normal => {
                self.normal_scan(c);
                Ok(())
            },
            ScanMode::StringLiteral => {
                self.string_scan(c);
                Ok(())
            },
            ScanMode::Number => {
                self.number_scan(c);
                Ok(())
            },
            ScanMode::PossibleComment => {
                self.check_for_comment(c);
                Ok(())
            },
            ScanMode::LineComment => {
                self.line_comment_handling(c);
                Ok(())
            },
            ScanMode::BlockComment => {
                self.block_comment_handling(c);
                Ok(())
            },
            ScanMode::Other => {
                self.identifier_and_keyword_scan(c);
                Ok(())
            },
            ScanMode::Escape => self.escape_scan(c),
            ScanMode::PossibleAssignment => {
                self.check_for_assignment(c);
                Ok(())
            },
            ScanMode::PossibleRange => {
                self.check_for_range(c);
                Ok(())
            },
        }
    }

    /// Flush or reject the state left at end of input, yielding the tokens.
    fn finish(&mut self) -> (r: Result<Vec<Token>, ScanError>)
        requires
            old(self).wf(),
        ensures
            final(self).wf(),
            match scan_finish(old(self)@) {
                Ok(toks) => {
                    &&& r matches Ok(v) && v.deep_view() == toks
                    &&& final(self)@ == init_scan_state()
                },
                Err(k) => {
                    &&& r matches Err(e) && e.kind == k
                    &&& final(self)@ == old(self)@
                },
            },
    {
        match self.scan_mode {
            ScanMode::StringLiteral => {
                return Err(
                    scan_error(ScanErrorKind::UnterminatedString, "end of input inside a string"),
                );
            },
            ScanMode::Escape => {
                return Err(
                    scan_error(ScanErrorKind::UnterminatedEscape, "end of input inside an escape"),
                );
            },
            ScanMode::BlockComment => {
                return Err(
                    scan_error(
                        ScanErrorKind::UnterminatedComment,
                        "end of input inside a block comment",
                    ),
                );
            },
            ScanMode::Number => {
                let d = Digits::from_chars(&self.buffer);
                self.push_token(Token::Number(d));
            },
            ScanMode::Other => {
                self.eval_buffer();
            },
            ScanMode::PossibleComment => {
                self.push_token(Token::Operator(Operator::Divide));
            },
            ScanMode::PossibleAssignment => {
                self.push_token(Token::Colon);
            },
            ScanMode::PossibleRange => {
                // A lone final dot is a one-character lexeme.
                let mut dot: Vec<char> = Vec::new();
                dot.push('.');
                match lookup_keyword(&dot) {
                    Some(kw) => self.push_token(Token::KeyWord(kw)),
                    None => {
                        let text = chars_to_string(&dot);
                        self.push_token(Token::Identifier(text));
                    },
                }
                proof {
                    assert(dot@ =~= seq!['.']);
                }
            },
            ScanMode::Normal => {},
            ScanMode::LineComment => {},
        }
        self.buffer.clear();
        self.scan_mode = ScanMode::Normal;
        let mut out: Vec<Token> = Vec::new();
        core::mem::swap(&mut out, &mut self.tokens);
        proof {
            assert(final(self)@ =~= init_scan_state());
        }
        Ok(out)
    }

    /// Scan a complete source text, yielding its tokens in source order, or
    /// the first lexical error. On success the scanner is again fresh. No
    /// block comment may be open around the text, so that the nesting counter
    /// is sure to fit in a `usize`: a fresh scanner, and one whose last scan
    /// succeeded, satisfy that.
    pub fn scan(&mut self, source: &str) -> (r: Result<Vec<Token>, ScanError>)
        requires
            old(self).wf(),
            old(self)@.depth == 0,
        ensures
            final(self).wf(),
            match scan_text(old(self)@, source@) {
                Ok(toks) => {
                    &&& r matches Ok(v) && v.deep_view() == toks
                    &&& final(self)@ == init_scan_state()
                },
                Err(k) => r matches Err(e) && e.kind == k,
            },
    {
        let chars = str_chars(source);
        let ghost s = source@;
        let mut i: usize = 0;
        proof {
            assert(s.skip(0) =~= s);
        }
        while i < chars.len()
            invariant
                self.wf(),
                i <= chars@.len(),
                s == source@,
                chars@ == s,
                old(self)@.depth == 0,
                self@.depth <= i,
                scan_from(old(self)@, s) == scan_from(self@, s.skip(i as int)),
            decreases chars@.len() - i,
        {
            let c = chars[i];
            let ghost mid = self@;
            proof {
                lemma_scan_step_depth(mid, c);
            }
            let step = self.step_char(c);
            proof {
                assert(s.skip(i as int)[0] == s[i as int]);
                assert(s.skip(i as int).drop_first() =~= s.skip(i as int + 1));
            }
            match step {
                Ok(()) => {},
                Err(e) => {
                    proof {
                        assert(scan_from(mid, s.skip(i as int)) == scan_from(old(self)@, s));
                        assert(scan_from(mid, s.skip(i as int)) is Err);
                        assert(scan_text(old(self)@, source@) is Err);
                    }
                    return Err(e);
                },
            }
            i += 1;
        }
        proof {
            assert(s.skip(chars@.len() as int) =~= Seq::<char>::empty());
        }
        self.finish()
    }
}

// ---------------------------------------------------------------------------
// Laws of the scanner
// ---------------------------------------------------------------------------

/// Scanning is a pure function of the source text: identical inputs yield
/// identical token sequences. Together with `Scanner::scan` leaving a fresh
/// scanner fresh again on success, repeated invocations of the scanner on
/// identical input yield identical results.
pub proof fn lemma_scan_deterministic(s1: Seq<char>, s2: Seq<char>)
    requires
        s1 == s2,
    ensures
        scan_spec(s1) == scan_spec(s2),
{
}

/// A well-formed token: an identifier carries at least one character and
/// never equals a reserved word; every other token is well formed as it is.
pub open spec fn wf_token(t: TokenView) -> bool {
    match t {
        TokenView::Identifier(s) => s.len() >= 1 && keyword_of(s) is None,
        _ => true,
    }
}

/// Every token of the sequence is well formed.
pub open spec fn tokens_wf(ts: Seq<TokenView>) -> bool {
    forall|i: int| 0 <= i < ts.len() ==> wf_token(#[trigger] ts[i])
}

/// One step of the automaton emits only well-formed tokens and keeps the
/// state well formed.
proof fn lemma_scan_step_tokens_wf(st: ScanState, c: char)
    requires
        scan_state_wf(st),
        tokens_wf(st.tokens),
    ensures
        scan_step(st, c) matches Ok(st2) ==> scan_state_wf(st2) && tokens_wf(st2.tokens),
{
    if scan_step(st, c) is Ok {
        let st2 = scan_step(st, c).unwrap();
        assert forall|i: int| 0 <= i < st2.tokens.len() implies wf_token(
            #[trigger] st2.tokens[i],
        ) by {
            if i < st.tokens.len() {
                assert(st2.tokens[i] == st.tokens[i]);
            }
        }
    }
}

/// Flushing at end of input emits only well-formed tokens.
proof fn lemma_scan_finish_tokens_wf(st: ScanState)
    requires
        scan_state_wf(st),
        tokens_wf(st.tokens),
    ensures
        scan_finish(st) matches Ok(toks) ==> tokens_wf(toks),
{
    if scan_finish(st) is Ok {
        let toks = scan_finish(st).unwrap();
        assert forall|i: int| 0 <= i < toks.len() implies wf_token(#[trigger] toks[i]) by {
            if i < st.tokens.len() {
                assert(toks[i] == st.tokens[i]);
            }
        }
    }
}

proof fn lemma_scan_from_tokens_wf(st: ScanState, s: Seq<char>)
    requires
        scan_state_wf(st),
        tokens_wf(st.tokens),
    ensures
        scan_from(st, s) matches Ok(st2) ==> scan_state_wf(st2) && tokens_wf(st2.tokens),
    decreases s.len(),
{
    if s.len() > 0 {
        lemma_scan_step_tokens_wf(st, s[0]);
        match scan_step(st, s[0]) {
            Ok(st2) => lemma_scan_from_tokens_wf(st2, s.drop_first()),
            Err(_) => {},
        }
    }
}

/// Every token a successful scan of a source text yields is well formed: an
/// identifier carries at least one character and never equals a reserved
/// word.
pub proof fn lemma_scan_tokens_wf(s: Seq<char>)
    ensures
        scan_spec(s) matches Ok(toks) ==> tokens_wf(toks),
{
    lemma_scan_from_tokens_wf(init_scan_state(), s);
    match scan_from(init_scan_state(), s) {
        Ok(st2) => lemma_scan_finish_tokens_wf(st2),
        Err(_) => {},
    }
}

/// Scanning a digit string accumulates exactly those digits in the buffer.
proof fn lemma_scan_digits(st: ScanState, s: Seq<char>)
    requires
        st.mode is Number,
        forall|i: int| 0 <= i < s.len() ==> is_digit(#[trigger] s[i]),
    ensures
        scan_from(st, s) == Ok::<ScanState, ScanErrorKind>(
            ScanState { buffer: st.buffer + s, ..st },
        ),
    decreases s.len(),
{
    if s.len() == 0 {
        assert(st.buffer + s =~= st.buffer);
        assert((ScanState { buffer: st.buffer + s, ..st }) =~= st);
    } else {
        let st2 = ScanState { buffer: st.buffer.push(s[0]), ..st };
        lemma_scan_digits(st2, s.drop_first());
        assert(st.buffer.push(s[0]) + s.drop_first() =~= st.buffer + s);
        assert((ScanState { buffer: st2.buffer + s.drop_first(), ..st2 }) =~= (ScanState {
            buffer: st.buffer + s,
            ..st
        }));
    }
}

/// For a numeric literal composed of digits only, the emitted `Number`
/// token's value equals the mathematical value of the digit string.
pub proof fn lemma_number_token_value(s: Seq<char>)
    requires
        s.len() >= 1,
        forall|i: int| 0 <= i < s.len() ==> is_digit(#[trigger] s[i]),
    ensures
        scan_spec(s) == Ok::<Seq<TokenView>, ScanErrorKind>(
            seq![TokenView::Number(decimal_value(s))],
        ),
{
    let st0 = init_scan_state();
    let st1 = normal_step(st0, s[0]);
    assert(single_char_token(s[0]) is None);
    assert(st1 == (ScanState { mode: ScanMode::Number, buffer: seq![s[0]], ..st0 }));
    lemma_scan_digits(st1, s.drop_first());
    assert(seq![s[0]] + s.drop_first() =~= s);
    let st2 = ScanState { buffer: s, ..st1 };
    assert(scan_from(st0, s) == Ok::<ScanState, ScanErrorKind>(st2));
    assert(scan_finish(st2) == Ok::<Seq<TokenView>, ScanErrorKind>(
        st0.tokens.push(TokenView::Number(decimal_value(s))),
    ));
    assert(st0.tokens.push(TokenView::Number(decimal_value(s))) =~= seq![
        TokenView::Number(decimal_value(s)),
    ]);
}

} // verus!
