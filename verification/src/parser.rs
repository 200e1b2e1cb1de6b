//! Token-level parser for Mini-PL: a statement-dispatch state machine with a
//! per-statement sub-machine and a nested-loop context stack, producing a
//! typed abstract syntax tree, with a flat expression grammar resolved by a
//! three-case expression rule.

use vstd::prelude::*;

use crate::scanner::Digits;
use crate::scanner::KeyWord;
use crate::scanner::Operator;
use crate::scanner::Token;
use crate::scanner::TokenView;
use crate::util::Direction;
use crate::util::Sink;
use crate::util::Source;

verus! {

// ---------------------------------------------------------------------------
// The abstract syntax tree
// ---------------------------------------------------------------------------

//  <stmt> ::=
//    "var" <var_ident> ":" <type> [ ":=" <expr> ]
//  | <var_ident> ":=" <expr>
//  | "for" <var_ident> "in" <expr> ".." <expr> "do" <stmts> "end" "for"
//  | "read" <var_ident>
//  | "print" <expr>
//  | "assert" "(" <expr> ")"
#[derive(Debug, PartialEq, Eq)]
pub enum Statement {
    Declaration(String, Type, Option<Expression>),
    Assignment(String, Expression),
    For(String, Expression, Expression, Vec<Statement>),
    Read(String),
    Print(Expression),
    Assert(Expression),
}

// <expr> ::= <opnd> <op> <opnd>
//         |  <unary_op> <opnd>
//         |  <opnd>
#[derive(Debug, PartialEq, Eq)]
pub enum Expression {
    Binary(Operand, BinaryOperator, Operand),
    Unary(UnaryOperator, Operand),
    Singleton(Operand),
}

// <opnd> ::=
//   <int>
// | <string>
// | <var_ident>
// | "(" expr ")"
#[derive(Debug, PartialEq, Eq)]
pub enum Operand {
    Int(Digits),
    StringLiteral(String),
    Variable(String),
    Bool,
    Expr(Box<Expression>),
}

#[derive(Clone, Copy, Debug, PartialEq, Eq, Structural)]
pub enum BinaryOperator {
    Plus,
    Minus,
    Multiply,
    Divide,
    LessThan,
    Equals,
    And,
}

#[derive(Clone, Copy, Debug, PartialEq, Eq, Structural)]
pub enum UnaryOperator {
    Not,
}

#[derive(Clone, Copy, Debug, PartialEq, Eq, Structural)]
pub enum Type {
    Int,
    Str,
    Bool,
}

// ---------------------------------------------------------------------------
// Mathematical models of the tree
// ---------------------------------------------------------------------------

/// The model of a statement: names as character sequences, numbers as the
/// values they denote.
#[verifier::ext_equal]
pub enum StatementView {
    Declaration(Seq<char>, Type, Option<ExpressionView>),
    Assignment(Seq<char>, ExpressionView),
    For(Seq<char>, ExpressionView, ExpressionView, Seq<StatementView>),
    Read(Seq<char>),
    Print(ExpressionView),
    Assert(ExpressionView),
}

/// The model of an expression.
#[verifier::ext_equal]
pub enum ExpressionView {
    Binary(OperandView, BinaryOperator, OperandView),
    Unary(UnaryOperator, OperandView),
    Singleton(OperandView),
}

/// The model of an operand.
#[verifier::ext_equal]
pub enum OperandView {
    Int(nat),
    StringLiteral(Seq<char>),
    Variable(Seq<char>),
    Bool,
    Expr(Box<ExpressionView>),
}

/// The model of an operand value.
pub open spec fn operand_view(o: Operand) -> OperandView
    decreases o,
{
    match o {
        Operand::Int(d) => OperandView::Int(d@),
        Operand::StringLiteral(s) => OperandView::StringLiteral(s@),
        Operand::Variable(s) => OperandView::Variable(s@),
        Operand::Bool => OperandView::Bool,
        Operand::Expr(e) => OperandView::Expr(Box::new(expression_view(*e))),
    }
}

/// The model of an expression value.
pub open spec fn expression_view(e: Expression) -> ExpressionView
    decreases e,
{
    match e {
        Expression::Binary(l, op, r) => ExpressionView::Binary(
            operand_view(l),
            op,
            operand_view(r),
        ),
        Expression::Unary(op, o) => ExpressionView::Unary(op, operand_view(o)),
        Expression::Singleton(o) => ExpressionView::Singleton(operand_view(o)),
    }
}

/// The model of a statement value.
pub open spec fn statement_view(s: Statement) -> StatementView
    decreases s,
{
    match s {
        Statement::Declaration(n, t, e) => StatementView::Declaration(
            n@,
            t,
            match e {
                Some(x) => Some(expression_view(x)),
                None => None,
            },
        ),
        Statement::Assignment(n, e) => StatementView::Assignment(n@, expression_view(e)),
        Statement::For(n, from, to, body) => StatementView::For(
            n@,
            expression_view(from),
            expression_view(to),
            vec_statements_view(body),
        ),
        Statement::Read(n) => StatementView::Read(n@),
        Statement::Print(e) => StatementView::Print(expression_view(e)),
        Statement::Assert(e) => StatementView::Assert(expression_view(e)),
    }
}

/// The model of the statements a vector holds.
pub open spec fn vec_statements_view(v: Vec<Statement>) -> Seq<StatementView>
    decreases v,
{
    statements_view(v@)
}

/// The model of a sequence of statements, element by element.
pub open spec fn statements_view(ss: Seq<Statement>) -> Seq<StatementView>
    decreases ss,
{
    if ss.len() == 0 {
        Seq::empty()
    } else {
        statements_view(ss.subrange(0, ss.len() - 1)).push(statement_view(ss[ss.len() - 1]))
    }
}

/// Appending a statement appends its model.
pub proof fn lemma_statements_view_push(ss: Seq<Statement>, s: Statement)
    ensures
        statements_view(ss.push(s)) == statements_view(ss).push(statement_view(s)),
{
    assert(ss.push(s).subrange(0, ss.len() as int) =~= ss);
    assert(statements_view(ss.push(s)) =~= statements_view(ss).push(statement_view(s)));
}

/// The models of a sequence of tokens, one for one.
pub open spec fn tokens_view(ts: Seq<Token>) -> Seq<TokenView> {
    Seq::new(ts.len(), |i: int| ts[i]@)
}

// ---------------------------------------------------------------------------
// Syntax errors
// ---------------------------------------------------------------------------

/// The kinds of syntax error the parser can report.
#[derive(Clone, Copy, Debug, PartialEq, Eq, Structural)]
pub enum ParseErrorKind {
    /// A statement begins with a token that can begin no statement.
    BadStatementStart,
    /// A different token stood where a specific token was expected.
    UnexpectedToken,
    /// A second `..` in a single `for` header.
    DuplicateRange,
    /// A `for` header reached `do` without a well-placed `..`.
    BadForRange,
    /// `end` was not followed by `for`.
    EndWithoutFor,
    /// `end for` with no open loop.
    UnmatchedEndFor,
    /// End of input with an open loop or an unterminated statement.
    UnexpectedEndOfInput,
    /// A token span that has no expression shape.
    MalformedExpression,
}

/// A syntax error: a kind discriminator and a human-readable detail message.
#[derive(Debug, PartialEq, Eq)]
pub struct ParseError {
    pub kind: ParseErrorKind,
    pub detail: String,
}

// ---------------------------------------------------------------------------
// The expression sub-parser, at the specification level
// ---------------------------------------------------------------------------

/// The tokens that may stand inside an expression.
pub open spec fn is_expression_token(t: TokenView) -> bool {
    ||| t is Bracket
    ||| t is Operator
    ||| t is Identifier
    ||| t is Number
    ||| t is StringLiteral
}

/// The binary operator an operator token denotes, if any.
pub open spec fn binary_op_of(op: Operator) -> Option<BinaryOperator> {
    match op {
        Operator::Plus => Some(BinaryOperator::Plus),
        Operator::Minus => Some(BinaryOperator::Minus),
        Operator::Multiply => Some(BinaryOperator::Multiply),
        Operator::Divide => Some(BinaryOperator::Divide),
        Operator::LessThan => Some(BinaryOperator::LessThan),
        Operator::Equals => Some(BinaryOperator::Equals),
        Operator::And => Some(BinaryOperator::And),
        Operator::Not => None,
    }
}

/// The index of the `)` closing the bracket that `depth` many `(` before
/// position `i` have opened, if any.
pub open spec fn find_close(ts: Seq<TokenView>, i: int, depth: int) -> Option<int>
    decreases ts.len() - i,
{
    if !(0 <= i < ts.len()) {
        None
    } else if ts[i] == TokenView::Bracket(Direction::Left) {
        find_close(ts, i + 1, depth + 1)
    } else if ts[i] == TokenView::Bracket(Direction::Right) {
        if depth == 1 {
            Some(i)
        } else {
            find_close(ts, i + 1, depth - 1)
        }
    } else {
        find_close(ts, i + 1, depth)
    }
}

/// Parse one operand at the start of a token span: a numeric literal, a
/// string literal, a variable, or a parenthesized sub-expression. Yields the
/// operand and how many tokens it spans.
pub open spec fn spec_parse_operand(ts: Seq<TokenView>) -> Result<
    (OperandView, int),
    ParseErrorKind,
>
    decreases ts.len(), 0nat,
{
    if ts.len() == 0 {
        Err(ParseErrorKind::MalformedExpression)
    } else {
        match ts[0] {
            TokenView::Number(v) => Ok((OperandView::Int(v), 1int)),
            TokenView::StringLiteral(s) => Ok((OperandView::StringLiteral(s), 1int)),
            TokenView::Identifier(n) => Ok((OperandView::Variable(n), 1int)),
            TokenView::Bracket(Direction::Left) => match find_close(ts, 1, 1) {
                Some(j) => {
                    if 1 <= j < ts.len() {
                        match spec_parse_expression(ts.subrange(1, j)) {
                            Ok(e) => Ok((OperandView::Expr(Box::new(e)), j + 1)),
                            Err(k) => Err(k),
                        }
                    } else {
                        Err(ParseErrorKind::MalformedExpression)
                    }
                },
                None => Err(ParseErrorKind::MalformedExpression),
            },
            _ => Err(ParseErrorKind::MalformedExpression),
        }
    }
}

/// Parse a whole token span as one expression: a single operand, `!` and an
/// operand, or operand, binary operator, operand; nothing else.
pub open spec fn spec_parse_expression(ts: Seq<TokenView>) -> Result<
    ExpressionView,
    ParseErrorKind,
>
    decreases ts.len(), 1nat,
{
    if ts.len() >= 1 && ts[0] == TokenView::Operator(Operator::Not) {
        match spec_parse_operand(ts.subrange(1, ts.len() as int)) {
            Ok((o, n)) => {
                if 1 + n == ts.len() {
                    Ok(ExpressionView::Unary(UnaryOperator::Not, o))
                } else {
                    Err(ParseErrorKind::MalformedExpression)
                }
            },
            Err(k) => Err(k),
        }
    } else {
        match spec_parse_operand(ts) {
            Ok((o1, n)) => {
                if n == ts.len() {
                    Ok(ExpressionView::Singleton(o1))
                } else if !(0 < n < ts.len()) {
                    Err(ParseErrorKind::MalformedExpression)
                } else {
                    match ts[n] {
                        TokenView::Operator(op) => match binary_op_of(op) {
                            Some(b) => match spec_parse_operand(
                                ts.subrange(n + 1, ts.len() as int),
                            ) {
                                Ok((o2, m)) => {
                                    if n + 1 + m == ts.len() {
                                        Ok(ExpressionView::Binary(o1, b, o2))
                                    } else {
                                        Err(ParseErrorKind::MalformedExpression)
                                    }
                                },
                                Err(k) => Err(k),
                            },
                            None => Err(ParseErrorKind::MalformedExpression),
                        },
                        _ => Err(ParseErrorKind::MalformedExpression),
                    }
                }
            },
            Err(k) => Err(k),
        }
    }
}

// ---------------------------------------------------------------------------
// The statement machine, at the specification level
// ---------------------------------------------------------------------------

/// The states of the statement-dispatch machine: one per statement kind being
/// gathered, plus the closing states of a `for` loop.
#[derive(Clone, Copy, Debug, PartialEq, Eq, Structural)]
pub enum ParseState {
    Normal,
    Declaration,
    Assignment,
    For,
    Read,
    Print,
    Assert,
    EndFor,
    ExpectSemicolon,
}

/// A partially built `for` loop: its header and the body gathered so far.
#[verifier::ext_equal]
pub struct FrameView {
    pub name: Seq<char>,
    pub from: ExpressionView,
    pub to: ExpressionView,
    pub body: Seq<StatementView>,
}

/// The full state of the parser: the machine state, the current-statement
/// token buffer, the stack of open `for` loops, and the position of the `..`
/// within a `for` header.
#[verifier::ext_equal]
pub struct ParserView {
    pub state: ParseState,
    pub buffer: Seq<TokenView>,
    pub frames: Seq<FrameView>,
    pub range_ptr: nat,
}

/// The state of a freshly created parser.
pub open spec fn init_parser_view() -> ParserView {
    ParserView {
        state: ParseState::Normal,
        buffer: Seq::empty(),
        frames: Seq::empty(),
        range_ptr: 0,
    }
}

/// The text of an identifier token (empty for any other token).
pub open spec fn tv_ident(t: TokenView) -> Seq<char> {
    match t {
        TokenView::Identifier(s) => s,
        _ => Seq::empty(),
    }
}

/// Whether a keyword names a declared type.
pub open spec fn is_type_keyword(t: TokenView) -> bool {
    t == TokenView::KeyWord(KeyWord::Int) || t == TokenView::KeyWord(KeyWord::String) || t
        == TokenView::KeyWord(KeyWord::Bool)
}

/// The declared type a keyword token names (`int` for any other token).
pub open spec fn tv_type(t: TokenView) -> Type {
    match t {
        TokenView::KeyWord(KeyWord::String) => Type::Str,
        TokenView::KeyWord(KeyWord::Bool) => Type::Bool,
        _ => Type::Int,
    }
}

/// Route a completed statement: to the output when no loop is open, into the
/// body of the innermost open loop otherwise. The token buffer is cleared.
pub open spec fn route_statement(p: ParserView, s: StatementView) -> (ParserView, Option<
    StatementView,
>) {
    if p.frames.len() == 0 {
        (ParserView { buffer: Seq::empty(), ..p }, Some(s))
    } else {
        let k = p.frames.len() - 1;
        let f = p.frames[k];
        (
            ParserView {
                buffer: Seq::empty(),
                frames: p.frames.update(k, FrameView { body: f.body.push(s), ..f }),
                ..p
            },
            None,
        )
    }
}

/// The step result: the next parser state and at most one statement emitted
/// to the output.
pub type StepResult = Result<(ParserView, Option<StatementView>), ParseErrorKind>;

/// `Normal`: await the first token of a statement. An identifier opens an
/// assignment, a statement keyword opens its sub-machine, a stray `;` is an
/// empty statement.
pub open spec fn spec_normal_parse(p: ParserView, t: TokenView) -> StepResult {
    match t {
        TokenView::Identifier(_) => Ok(
            (ParserView { state: ParseState::Assignment, buffer: p.buffer.push(t), ..p }, None),
        ),
        TokenView::KeyWord(kw) => match kw {
            KeyWord::Var => Ok((ParserView { state: ParseState::Declaration, ..p }, None)),
            KeyWord::For => Ok((ParserView { state: ParseState::For, ..p }, None)),
            KeyWord::Read => Ok((ParserView { state: ParseState::Read, ..p }, None)),
            KeyWord::Print => Ok((ParserView { state: ParseState::Print, ..p }, None)),
            KeyWord::Assert => Ok((ParserView { state: ParseState::Assert, ..p }, None)),
            KeyWord::End => Ok((ParserView { state: ParseState::EndFor, ..p }, None)),
            _ => Err(ParseErrorKind::BadStatementStart),
        },
        TokenView::Semicolon => Ok((p, None)),
        _ => Err(ParseErrorKind::BadStatementStart),
    }
}

/// `Declaration`: identifier, `:`, a type keyword, optionally `:=` and an
/// expression, ended by `;`.
pub open spec fn spec_variable_definition_parse(p: ParserView, t: TokenView) -> StepResult {
    let n = p.buffer.len() as int;
    if n == 0 {
        if t is Identifier {
            Ok((ParserView { buffer: p.buffer.push(t), ..p }, None))
        } else {
            Err(ParseErrorKind::UnexpectedToken)
        }
    } else if n == 1 {
        if t is Colon {
            Ok((ParserView { buffer: p.buffer.push(t), ..p }, None))
        } else {
            Err(ParseErrorKind::UnexpectedToken)
        }
    } else if n == 2 {
        if is_type_keyword(t) {
            Ok((ParserView { buffer: p.buffer.push(t), ..p }, None))
        } else {
            Err(ParseErrorKind::UnexpectedToken)
        }
    } else if n == 3 {
        if t is Assignment {
            Ok((ParserView { buffer: p.buffer.push(t), ..p }, None))
        } else if t is Semicolon {
            let stmt = StatementView::Declaration(tv_ident(p.buffer[0]), tv_type(p.buffer[2]), None);
            let (p2, out) = route_statement(p, stmt);
            Ok((ParserView { state: ParseState::Normal, ..p2 }, out))
        } else {
            Err(ParseErrorKind::UnexpectedToken)
        }
    } else if t is Semicolon {
        match spec_parse_expression(p.buffer.subrange(4, n)) {
            Ok(e) => {
                let stmt = StatementView::Declaration(
                    tv_ident(p.buffer[0]),
                    tv_type(p.buffer[2]),
                    Some(e),
                );
                let (p2, out) = route_statement(p, stmt);
                Ok((ParserView { state: ParseState::Normal, ..p2 }, out))
            },
            Err(k) => Err(k),
        }
    } else if is_expression_token(t) {
        Ok((ParserView { buffer: p.buffer.push(t), ..p }, None))
    } else {
        Err(ParseErrorKind::UnexpectedToken)
    }
}

/// `Assignment`: the leading identifier is buffered; expect `:=`, then
/// expression tokens until `;`.
pub open spec fn spec_assignment_parse(p: ParserView, t: TokenView) -> StepResult {
    if p.buffer.len() == 1 {
        if t is Assignment {
            Ok((ParserView { buffer: p.buffer.push(t), ..p }, None))
        } else {
            Err(ParseErrorKind::UnexpectedToken)
        }
    } else if t is Semicolon {
        match spec_parse_expression(p.buffer.subrange(2, p.buffer.len() as int)) {
            Ok(e) => {
                let stmt = StatementView::Assignment(tv_ident(p.buffer[0]), e);
                let (p2, out) = route_statement(p, stmt);
                Ok((ParserView { state: ParseState::Normal, ..p2 }, out))
            },
            Err(k) => Err(k),
        }
    } else if is_expression_token(t) {
        Ok((ParserView { buffer: p.buffer.push(t), ..p }, None))
    } else {
        Err(ParseErrorKind::UnexpectedToken)
    }
}

/// `For`: identifier, `in`, expression tokens, exactly one `..`, more
/// expression tokens, then `do`, which pushes a fresh loop frame.
pub open spec fn spec_for_loop_parse(p: ParserView, t: TokenView) -> StepResult {
    let n = p.buffer.len() as int;
    if n == 0 {
        if t is Identifier {
            Ok((ParserView { buffer: p.buffer.push(t), ..p }, None))
        } else {
            Err(ParseErrorKind::UnexpectedToken)
        }
    } else if n == 1 {
        if t == TokenView::KeyWord(KeyWord::In) {
            Ok((ParserView { buffer: p.buffer.push(t), ..p }, None))
        } else {
            Err(ParseErrorKind::UnexpectedToken)
        }
    } else if t == TokenView::KeyWord(KeyWord::Do) {
        if p.range_ptr < 3 {
            Err(ParseErrorKind::BadForRange)
        } else {
            match spec_parse_expression(p.buffer.subrange(2, p.range_ptr as int)) {
                Ok(from) => match spec_parse_expression(
                    p.buffer.subrange(p.range_ptr as int + 1, n),
                ) {
                    Ok(to) => Ok(
                        (
                            ParserView {
                                state: ParseState::Normal,
                                buffer: Seq::empty(),
                                frames: p.frames.push(
                                    FrameView {
                                        name: tv_ident(p.buffer[0]),
                                        from: from,
                                        to: to,
                                        body: Seq::empty(),
                                    },
                                ),
                                range_ptr: 0,
                            },
                            None,
                        ),
                    ),
                    Err(k) => Err(k),
                },
                Err(k) => Err(k),
            }
        }
    } else if t is Range {
        if p.range_ptr == 0 {
            Ok(
                (
                    ParserView {
                        buffer: p.buffer.push(t),
                        range_ptr: p.buffer.len(),
                        ..p
                    },
                    None,
                ),
            )
        } else {
            Err(ParseErrorKind::DuplicateRange)
        }
    } else if is_expression_token(t) {
        Ok((ParserView { buffer: p.buffer.push(t), ..p }, None))
    } else {
        Err(ParseErrorKind::UnexpectedToken)
    }
}

/// `Read`: an identifier, then `;`.
pub open spec fn spec_read_parse(p: ParserView, t: TokenView) -> StepResult {
    if p.buffer.len() == 0 {
        if t is Identifier {
            Ok((ParserView { buffer: p.buffer.push(t), ..p }, None))
        } else {
            Err(ParseErrorKind::UnexpectedToken)
        }
    } else if t is Semicolon {
        let stmt = StatementView::Read(tv_ident(p.buffer[0]));
        let (p2, out) = route_statement(p, stmt);
        Ok((ParserView { state: ParseState::Normal, ..p2 }, out))
    } else {
        Err(ParseErrorKind::UnexpectedToken)
    }
}

/// `Print`: expression tokens until `;`.
pub open spec fn spec_print_parse(p: ParserView, t: TokenView) -> StepResult {
    if t is Semicolon {
        match spec_parse_expression(p.buffer.subrange(0, p.buffer.len() as int)) {
            Ok(e) => {
                let (p2, out) = route_statement(p, StatementView::Print(e));
                Ok((ParserView { state: ParseState::Normal, ..p2 }, out))
            },
            Err(k) => Err(k),
        }
    } else if is_expression_token(t) {
        Ok((ParserView { buffer: p.buffer.push(t), ..p }, None))
    } else {
        Err(ParseErrorKind::UnexpectedToken)
    }
}

/// `Assert`: `(`, expression tokens, `)`, then `;`; the outer brackets are
/// stripped.
pub open spec fn spec_assert_parse(p: ParserView, t: TokenView) -> StepResult {
    let n = p.buffer.len() as int;
    if n == 0 {
        if t == TokenView::Bracket(Direction::Left) {
            Ok((ParserView { buffer: p.buffer.push(t), ..p }, None))
        } else {
            Err(ParseErrorKind::UnexpectedToken)
        }
    } else if t is Semicolon {
        if n >= 2 && p.buffer[n - 1] == TokenView::Bracket(Direction::Right) {
            match spec_parse_expression(p.buffer.subrange(1, n - 1)) {
                Ok(e) => {
                    let (p2, out) = route_statement(p, StatementView::Assert(e));
                    Ok((ParserView { state: ParseState::Normal, ..p2 }, out))
                },
                Err(k) => Err(k),
            }
        } else {
            Err(ParseErrorKind::UnexpectedToken)
        }
    } else if is_expression_token(t) {
        Ok((ParserView { buffer: p.buffer.push(t), ..p }, None))
    } else {
        Err(ParseErrorKind::UnexpectedToken)
    }
}

/// `EndFor`: expect `for`, pop the innermost open loop, build its statement,
/// and route it like any completed statement.
pub open spec fn spec_expect_end_for(p: ParserView, t: TokenView) -> StepResult {
    if t == TokenView::KeyWord(KeyWord::For) {
        if p.frames.len() == 0 {
            Err(ParseErrorKind::UnmatchedEndFor)
        } else {
            let f = p.frames.last();
            let popped = ParserView { frames: p.frames.drop_last(), ..p };
            let stmt = StatementView::For(f.name, f.from, f.to, f.body);
            let (p2, out) = route_statement(popped, stmt);
            Ok((ParserView { state: ParseState::ExpectSemicolon, ..p2 }, out))
        }
    } else {
        Err(ParseErrorKind::EndWithoutFor)
    }
}

/// `ExpectSemicolon`: the `;` that closes a `for` statement.
pub open spec fn spec_expect_semicolon(p: ParserView, t: TokenView) -> StepResult {
    if t is Semicolon {
        Ok((ParserView { state: ParseState::Normal, ..p }, None))
    } else {
        Err(ParseErrorKind::UnexpectedToken)
    }
}

/// One step of the statement machine: dispatch on the current state.
pub open spec fn parse_step(p: ParserView, t: TokenView) -> StepResult {
    match p.state {
        ParseState::Normal => spec_normal_parse(p, t),
        ParseState::Declaration => spec_variable_definition_parse(p, t),
        ParseState::Assignment => spec_assignment_parse(p, t),
        ParseState::For => spec_for_loop_parse(p, t),
        ParseState::Read => spec_read_parse(p, t),
        ParseState::Print => spec_print_parse(p, t),
        ParseState::Assert => spec_assert_parse(p, t),
        ParseState::EndFor => spec_expect_end_for(p, t),
        ParseState::ExpectSemicolon => spec_expect_semicolon(p, t),
    }
}

/// The statements one step emits, as a sequence.
pub open spec fn emitted_seq(out: Option<StatementView>) -> Seq<StatementView> {
    match out {
        Some(s) => seq![s],
        None => Seq::empty(),
    }
}

/// Run the statement machine over a whole token sequence, gathering the
/// statements it emits.
pub open spec fn parse_run(p: ParserView, ts: Seq<TokenView>) -> Result<
    (ParserView, Seq<StatementView>),
    ParseErrorKind,
>
    decreases ts.len(),
{
    if ts.len() == 0 {
        Ok((p, Seq::empty()))
    } else {
        match parse_step(p, ts[0]) {
            Ok((p2, out)) => match parse_run(p2, ts.drop_first()) {
                Ok((pf, rest)) => Ok((pf, emitted_seq(out) + rest)),
                Err(k) => Err(k),
            },
            Err(k) => Err(k),
        }
    }
}

/// End of input is well placed only in `Normal` state with no open loop.
pub open spec fn parse_finish(p: ParserView) -> Result<(), ParseErrorKind> {
    if p.state == ParseState::Normal && p.frames.len() == 0 {
        Ok(())
    } else {
        Err(ParseErrorKind::UnexpectedEndOfInput)
    }
}

/// What parsing a complete token sequence yields from a fresh parser: the
/// statement sequence in order of emission, or the first syntax error.
pub open spec fn parse_spec(ts: Seq<TokenView>) -> Result<Seq<StatementView>, ParseErrorKind> {
    match parse_run(init_parser_view(), ts) {
        Ok((pf, stmts)) => match parse_finish(pf) {
            Ok(()) => Ok(stmts),
            Err(k) => Err(k),
        },
        Err(k) => Err(k),
    }
}

// ---------------------------------------------------------------------------
// The expression sub-parser
// ---------------------------------------------------------------------------

/// A syntax error with a fixed detail message.
fn parse_error(kind: ParseErrorKind, msg: &str) -> (e: ParseError)
    ensures
        e.kind == kind,
{
    ParseError { kind: kind, detail: msg.to_owned() }
}

/// The models of a token subsequence are the subsequence of the models.
proof fn lemma_tokens_view_subrange(ts: Seq<Token>, i: int, j: int)
    requires
        0 <= i <= j <= ts.len(),
    ensures
        tokens_view(ts.subrange(i, j)) == tokens_view(ts).subrange(i, j),
{
    assert(tokens_view(ts.subrange(i, j)) =~= tokens_view(ts).subrange(i, j));
}

/// A successfully parsed operand spans at least one token and at most the
/// whole span.
proof fn lemma_parse_operand_len(ts: Seq<TokenView>)
    ensures
        spec_parse_operand(ts) matches Ok((o, n)) ==> 1 <= n <= ts.len(),
{
}

/// The index of the `)` matching the `(` that opens the span, if any.
fn find_close_exec(tokens: &[Token]) -> (r: Option<usize>)
    requires
        tokens@.len() >= 1,
    ensures
        match find_close(tokens_view(tokens@), 1, 1) {
            Some(j) => r matches Some(u) && u as int == j,
            None => r is None,
        },
{
    let ghost tv = tokens_view(tokens@);
    let mut i: usize = 1;
    let mut depth: usize = 1;
    while i < tokens.len()
        invariant
            1 <= i <= tokens@.len(),
            1 <= depth <= i,
            tv == tokens_view(tokens@),
            find_close(tv, 1, 1) == find_close(tv, i as int, depth as int),
        decreases tokens@.len() - i,
    {
        match &tokens[i] {
            Token::Bracket(Direction::Left) => {
                depth = depth + 1;
            },
            Token::Bracket(Direction::Right) => {
                if depth == 1 {
                    return Some(i);
                }
                depth = depth - 1;
            },
            _ => {},
        }
        i = i + 1;
    }
    None
}

/// A partially built `for` loop, as the parser gathers it: the loop variable,
/// the bounds, and the body statements found so far.
type Frame = (String, Expression, Expression, Vec<Statement>);

/// The model of a partially built loop.
pub open spec fn frame_view(f: Frame) -> FrameView {
    FrameView {
        name: f.0@,
        from: expression_view(f.1),
        to: expression_view(f.2),
        body: statements_view(f.3@),
    }
}

/// The models of a stack of partially built loops.
pub open spec fn frames_view(fs: Seq<Frame>) -> Seq<FrameView> {
    Seq::new(fs.len(), |i: int| frame_view(fs[i]))
}

/// The parser: a statement-dispatch state machine over tokens. Its view is
/// the `ParserView` the specification-level machine manipulates.
pub struct Parser {
    /// The machine state, choosing the handling of the next token.
    state: ParseState,
    /// Tokens gathered for the statement being parsed.
    buffer: Vec<Token>,
    /// The stack of open `for` loops, innermost last.
    for_buffer: Vec<Frame>,
    /// Where the `..` stands in the buffered `for` header; 0 while none was
    /// seen.
    for_range_pointer: usize,
}

impl View for Parser {
    type V = ParserView;

    closed spec fn view(&self) -> ParserView {
        ParserView {
            state: self.state,
            buffer: tokens_view(self.buffer@),
            frames: frames_view(self.for_buffer@),
            range_ptr: self.for_range_pointer as nat,
        }
    }
}

/// The invariant every reachable parser state satisfies: each machine state
/// owns a buffer of the shape its transitions expect.
pub open spec fn parser_wf(p: ParserView) -> bool {
    match p.state {
        ParseState::Normal => p.buffer.len() == 0 && p.range_ptr == 0,
        ParseState::Declaration => {
            &&& p.range_ptr == 0
            &&& p.buffer.len() >= 1 ==> p.buffer[0] is Identifier
            &&& p.buffer.len() >= 3 ==> is_type_keyword(p.buffer[2])
        },
        ParseState::Assignment => p.range_ptr == 0 && p.buffer.len() >= 1 && p.buffer[0]
            is Identifier,
        ParseState::For => {
            &&& p.buffer.len() >= 1 ==> p.buffer[0] is Identifier
            &&& p.range_ptr == 0 || (2 <= p.range_ptr < p.buffer.len())
        },
        ParseState::Read => {
            &&& p.range_ptr == 0
            &&& p.buffer.len() <= 1
            &&& p.buffer.len() == 1 ==> p.buffer[0] is Identifier
        },
        ParseState::Print => p.range_ptr == 0,
        ParseState::Assert => p.range_ptr == 0,
        ParseState::EndFor => p.range_ptr == 0 && p.buffer.len() == 0,
        ParseState::ExpectSemicolon => p.range_ptr == 0 && p.buffer.len() == 0,
    }
}

impl Parser {
    /// The parser's state is one the machine can reach.
    pub open spec fn wf(&self) -> bool {
        parser_wf(self@)
    }

    /// A fresh parser, awaiting the first token of a statement.
    pub fn new() -> (p: Parser)
        ensures
            p@ == init_parser_view(),
            p.wf(),
    {
        let p = Parser {
            state: ParseState::Normal,
            buffer: Vec::new(),
            for_buffer: Vec::new(),
            for_range_pointer: 0,
        };
        proof {
            assert(p@ =~= init_parser_view());
        }
        p
    }

    /// Buffer one token of the statement being parsed.
    fn push_buffer(&mut self, t: Token)
        ensures
            final(self)@ == (ParserView { buffer: old(self)@.buffer.push(t@), ..old(self)@ }),
    {
        let ghost tv = t@;
        self.buffer.push(t);
        proof {
            assert(tokens_view(self.buffer@) =~= tokens_view(old(self).buffer@).push(tv));
            assert(self@ =~= (ParserView { buffer: old(self)@.buffer.push(tv), ..old(self)@ }));
        }
    }

    /// Route a completed statement: to the output when no loop is open, into
    /// the body of the innermost open loop otherwise.
    fn handle_statement<O: Sink<Statement>>(&mut self, statement: Statement, out: &mut O)
        ensures
            ({
                let (p2, emitted) = route_statement(old(self)@, statement_view(statement));
                &&& final(self)@ == p2
                &&& statements_view(final(out).contents()) == statements_view(
                    old(out).contents(),
                ) + emitted_seq(emitted)
            }),
    {
        let ghost sv = statement_view(statement);
        let ghost route = route_statement(old(self)@, sv);
        if self.for_buffer.len() == 0 {
            proof {
                lemma_statements_view_push(out.contents(), statement);
            }
            out.put(statement);
            proof {
                assert(statements_view(out.contents()) =~= statements_view(old(out).contents())
                    + emitted_seq(route.1));
            }
        } else {
            match self.for_buffer.pop() {
                Some(f) => {
                    let ghost fv = frame_view(f);
                    let ghost k = old(self)@.frames.len() - 1;
                    let (name, from, to, mut body) = f;
                    proof {
                        lemma_statements_view_push(body@, statement);
                    }
                    body.push(statement);
                    self.for_buffer.push((name, from, to, body));
                    proof {
                        assert(old(self)@.frames[k] == fv);
                        assert(frames_view(self.for_buffer@) =~= old(self)@.frames.update(
                            k,
                            FrameView { body: fv.body.push(sv), ..fv },
                        ));
                        assert(statements_view(out.contents()) =~= statements_view(
                            old(out).contents(),
                        ) + emitted_seq(route.1));
                    }
                },
                None => {
                    proof {
                        assert(false);
                    }
                },
            }
        }
        self.buffer.clear();
        proof {
            assert(tokens_view(self.buffer@) =~= Seq::<TokenView>::empty());
            assert(self@ =~= route.0);
        }
    }

    /// Parse a whole token span as one expression: a single operand, `!` and
    /// an operand, or operand, binary operator, operand; nothing else.
    pub fn parse_expression(tokens: &[Token]) -> (r: Result<Expression, ParseError>)
        ensures
            match spec_parse_expression(tokens_view(tokens@)) {
                Ok(ev) => r matches Ok(e) && expression_view(e) == ev,
                Err(k) => r matches Err(pe) && pe.kind == k,
            },
        decreases tokens@.len(), 1nat,
    {
        let ghost tv = tokens_view(tokens@);
        let starts_not = tokens.len() >= 1 && matches!(&tokens[0], Token::Operator(Operator::Not));
        if starts_not {
            let rest = vstd::slice::slice_subrange(tokens, 1, tokens.len());
            proof {
                lemma_tokens_view_subrange(tokens@, 1, tokens@.len() as int);
                lemma_parse_operand_len(tokens_view(rest@));
            }
            match Self::parse_operand(rest) {
                Ok((o, n)) => {
                    if 1 + n == tokens.len() {
                        Ok(Expression::Unary(UnaryOperator::Not, o))
                    } else {
                        Err(
                            parse_error(
                                ParseErrorKind::MalformedExpression,
                                "tokens follow a unary expression",
                            ),
                        )
                    }
                },
                Err(e) => Err(e),
            }
        } else {
            proof {
                lemma_parse_operand_len(tv);
            }
            match Self::parse_operand(tokens) {
                Ok((o1, n)) => {
                    if n == tokens.len() {
                        Ok(Expression::Singleton(o1))
                    } else {
                        match &tokens[n] {
                            Token::Operator(op) => match binary_op_exec(*op) {
                                Some(b) => {
                                    let rest = vstd::slice::slice_subrange(
                                        tokens,
                                        n + 1,
                                        tokens.len(),
                                    );
                                    proof {
                                        lemma_tokens_view_subrange(
                                            tokens@,
                                            n + 1,
                                            tokens@.len() as int,
                                        );
                                        lemma_parse_operand_len(tokens_view(rest@));
                                    }
                                    match Self::parse_operand(rest) {
                                        Ok((o2, m)) => {
                                            if n + 1 + m == tokens.len() {
                                                Ok(Expression::Binary(o1, b, o2))
                                            } else {
                                                Err(
                                                    parse_error(
                                                        ParseErrorKind::MalformedExpression,
                                                        "tokens follow a binary expression",
                                                    ),
                                                )
                                            }
                                        },
                                        Err(e) => Err(e),
                                    }
                                },
                                None => Err(
                                    parse_error(
                                        ParseErrorKind::MalformedExpression,
                                        "a unary operator stands between operands",
                                    ),
                                ),
                            },
                            _ => Err(
                                parse_error(
                                    ParseErrorKind::MalformedExpression,
                                    "two operands follow each other",
                                ),
                            ),
                        }
                    }
                },
                Err(e) => Err(e),
            }
        }
    }

    /// Parse one operand at the start of a token span, yielding the operand
    /// and how many tokens it spans.
    fn parse_operand(tokens: &[Token]) -> (r: Result<(Operand, usize), ParseError>)
        ensures
            match spec_parse_operand(tokens_view(tokens@)) {
                Ok((ov, n)) => r matches Ok((o, m)) && operand_view(o) == ov && m as int == n,
                Err(k) => r matches Err(pe) && pe.kind == k,
            },
        decreases tokens@.len(), 0nat,
    {
        if tokens.len() == 0 {
            return Err(parse_error(ParseErrorKind::MalformedExpression, "an expression is empty"));
        }
        match &tokens[0] {
            Token::Number(d) => Ok((Operand::Int(d.clone()), 1)),
            Token::StringLiteral(s) => Ok((Operand::StringLiteral(s.clone()), 1)),
            Token::Identifier(s) => Ok((Operand::Variable(s.clone()), 1)),
            Token::Bracket(Direction::Left) => match find_close_exec(tokens) {
                Some(j) => {
                    if 1 <= j && j < tokens.len() {
                        let inner = vstd::slice::slice_subrange(tokens, 1, j);
                        proof {
                            lemma_tokens_view_subrange(tokens@, 1, j as int);
                        }
                        match Self::parse_expression(inner) {
                            Ok(e) => Ok((Operand::Expr(Box::new(e)), j + 1)),
                            Err(e) => Err(e),
                        }
                    } else {
                        Err(
                            parse_error(
                                ParseErrorKind::MalformedExpression,
                                "a bracket closes nothing",
                            ),
                        )
                    }
                },
                None => Err(
                    parse_error(ParseErrorKind::MalformedExpression, "a bracket is never closed"),
                ),
            },
            _ => Err(
                parse_error(
                    ParseErrorKind::MalformedExpression,
                    "a token that is no operand starts an operand",
                ),
            ),
        }
    }
}

/// The text of an identifier token.
fn ident_text(t: &Token) -> (r: String)
    requires
        t@ is Identifier,
    ensures
        r@ == tv_ident(t@),
{
    match t {
        Token::Identifier(s) => s.clone(),
        _ => vstd::pervasive::unreached(),
    }
}

/// The declared type a keyword token names.
fn type_of_token(t: &Token) -> (r: Type)
    requires
        is_type_keyword(t@),
    ensures
        r == tv_type(t@),
{
    match t {
        Token::KeyWord(KeyWord::Int) => Type::Int,
        Token::KeyWord(KeyWord::String) => Type::Str,
        Token::KeyWord(KeyWord::Bool) => Type::Bool,
        _ => vstd::pervasive::unreached(),
    }
}

/// Whether the token may stand inside an expression.
fn token_is_expression(t: &Token) -> (r: bool)
    ensures
        r == is_expression_token(t@),
{
    matches!(
        t,
        Token::Bracket(_) | Token::Operator(_) | Token::Identifier(_) | Token::Number(_)
            | Token::StringLiteral(_)
    )
}

impl Parser {
    fn normal_parse(&mut self, t: Token) -> (r: Result<(), ParseError>)
        requires
            old(self).wf(),
            old(self)@.state is Normal,
        ensures
            final(self).wf(),
            match spec_normal_parse(old(self)@, t@) {
                Ok((p2, emitted)) => r is Ok && final(self)@ == p2 && emitted is None,
                Err(k) => {
                    &&& r matches Err(e) && e.kind == k
                    &&& final(self)@ == old(self)@
                },
            },
    {
        match t {
            Token::Identifier(_) => {
                self.push_buffer(t);
                self.state = ParseState::Assignment;
                Ok(())
            },
            Token::KeyWord(keyword) => match keyword {
                KeyWord::Var => {
                    self.state = ParseState::Declaration;
                    Ok(())
                },
                KeyWord::For => {
                    self.state = ParseState::For;
                    Ok(())
                },
                KeyWord::Read => {
                    self.state = ParseState::Read;
                    Ok(())
                },
                KeyWord::Print => {
                    self.state = ParseState::Print;
                    Ok(())
                },
                KeyWord::Assert => {
                    self.state = ParseState::Assert;
                    Ok(())
                },
                KeyWord::End => {
                    self.state = ParseState::EndFor;
                    Ok(())
                },
                _ => Err(
                    parse_error(
                        ParseErrorKind::BadStatementStart,
                        "a statement cannot start with this keyword",
                    ),
                ),
            },
            // Empty statements are allowed and produce nothing.
            Token::Semicolon => Ok(()),
            _ => Err(
                parse_error(ParseErrorKind::BadStatementStart, "no statement starts with this token"),
            ),
        }
    }

    // "var" <var_ident> ":" <type> [ ":=" <expr> ] ";"
    fn variable_definition_parse<O: Sink<Statement>>(
        &mut self,
        t: Token,
        out: &mut O,
    ) -> (r: Result<(), ParseError>)
        requires
            old(self).wf(),
            old(self)@.state is Declaration,
        ensures
            final(self).wf(),
            match spec_variable_definition_parse(old(self)@, t@) {
                Ok((p2, emitted)) => {
                    &&& r is Ok
                    &&& final(self)@ == p2
                    &&& statements_view(final(out).contents()) == statements_view(
                        old(out).contents(),
                    ) + emitted_seq(emitted)
                },
                Err(k) => {
                    &&& r matches Err(e) && e.kind == k
                    &&& final(self)@ == old(self)@
                    &&& final(out).contents() == old(out).contents()
                },
            },
    {
        let n = self.buffer.len();
        if n == 0 {
            if matches!(t, Token::Identifier(_)) {
                self.push_buffer(t);
                Ok(())
            } else {
                Err(parse_error(ParseErrorKind::UnexpectedToken, "expected an identifier"))
            }
        } else if n == 1 {
            if matches!(t, Token::Colon) {
                self.push_buffer(t);
                Ok(())
            } else {
                Err(parse_error(ParseErrorKind::UnexpectedToken, "expected a colon"))
            }
        } else if n == 2 {
            let is_type = matches!(
                t,
                Token::KeyWord(KeyWord::Int) | Token::KeyWord(KeyWord::String)
                    | Token::KeyWord(KeyWord::Bool)
            );
            if is_type {
                self.push_buffer(t);
                Ok(())
            } else {
                Err(parse_error(ParseErrorKind::UnexpectedToken, "expected a type signature"))
            }
        } else if n == 3 {
            if matches!(t, Token::Assignment) {
                self.push_buffer(t);
                Ok(())
            } else if matches!(t, Token::Semicolon) {
                let name = ident_text(&self.buffer[0]);
                let ty = type_of_token(&self.buffer[2]);
                let stmt = Statement::Declaration(name, ty, None);
                self.handle_statement(stmt, out);
                self.state = ParseState::Normal;
                Ok(())
            } else {
                Err(
                    parse_error(
                        ParseErrorKind::UnexpectedToken,
                        "expected an initializer or a semicolon",
                    ),
                )
            }
        } else if matches!(t, Token::Semicolon) {
            let name = ident_text(&self.buffer[0]);
            let ty = type_of_token(&self.buffer[2]);
            proof {
                lemma_tokens_view_subrange(self.buffer@, 4, self.buffer@.len() as int);
            }
            let sl = vstd::slice::slice_subrange(self.buffer.as_slice(), 4, self.buffer.len());
            match Self::parse_expression(sl) {
                Ok(e) => {
                    let stmt = Statement::Declaration(name, ty, Some(e));
                    self.handle_statement(stmt, out);
                    self.state = ParseState::Normal;
                    Ok(())
                },
                Err(e) => Err(e),
            }
        } else if token_is_expression(&t) {
            self.push_buffer(t);
            Ok(())
        } else {
            Err(parse_error(ParseErrorKind::UnexpectedToken, "expected an expression token"))
        }
    }

    // <var_ident> ":=" <expr> ";"  (the identifier is already buffered)
    fn assignment_parse<O: Sink<Statement>>(&mut self, t: Token, out: &mut O) -> (r: Result<
        (),
        ParseError,
    >)
        requires
            old(self).wf(),
            old(self)@.state is Assignment,
        ensures
            final(self).wf(),
            match spec_assignment_parse(old(self)@, t@) {
                Ok((p2, emitted)) => {
                    &&& r is Ok
                    &&& final(self)@ == p2
                    &&& statements_view(final(out).contents()) == statements_view(
                        old(out).contents(),
                    ) + emitted_seq(emitted)
                },
                Err(k) => {
                    &&& r matches Err(e) && e.kind == k
                    &&& final(self)@ == old(self)@
                    &&& final(out).contents() == old(out).contents()
                },
            },
    {
        if self.buffer.len() == 1 {
            if matches!(t, Token::Assignment) {
                self.push_buffer(t);
                Ok(())
            } else {
                Err(parse_error(ParseErrorKind::UnexpectedToken, "expected an assignment sign"))
            }
        } else if matches!(t, Token::Semicolon) {
            let name = ident_text(&self.buffer[0]);
            proof {
                lemma_tokens_view_subrange(self.buffer@, 2, self.buffer@.len() as int);
            }
            let sl = vstd::slice::slice_subrange(self.buffer.as_slice(), 2, self.buffer.len());
            match Self::parse_expression(sl) {
                Ok(e) => {
                    let stmt = Statement::Assignment(name, e);
                    self.handle_statement(stmt, out);
                    self.state = ParseState::Normal;
                    Ok(())
                },
                Err(e) => Err(e),
            }
        } else if token_is_expression(&t) {
            self.push_buffer(t);
            Ok(())
        } else {
            Err(parse_error(ParseErrorKind::UnexpectedToken, "expected an expression token"))
        }
    }

    // "for" <var_ident> "in" <expr> ".." <expr> "do"
    fn for_loop_parse(&mut self, t: Token) -> (r: Result<(), ParseError>)
        requires
            old(self).wf(),
            old(self)@.state is For,
        ensures
            final(self).wf(),
            match spec_for_loop_parse(old(self)@, t@) {
                Ok((p2, emitted)) => r is Ok && final(self)@ == p2 && emitted is None,
                Err(k) => {
                    &&& r matches Err(e) && e.kind == k
                    &&& final(self)@ == old(self)@
                },
            },
    {
        let n = self.buffer.len();
        if n == 0 {
            if matches!(t, Token::Identifier(_)) {
                self.push_buffer(t);
                Ok(())
            } else {
                Err(parse_error(ParseErrorKind::UnexpectedToken, "expected an identifier"))
            }
        } else if n == 1 {
            if matches!(t, Token::KeyWord(KeyWord::In)) {
                self.push_buffer(t);
                Ok(())
            } else {
                Err(parse_error(ParseErrorKind::UnexpectedToken, "expected the keyword in"))
            }
        } else if matches!(t, Token::KeyWord(KeyWord::Do)) {
            if self.for_range_pointer < 3 {
                Err(parse_error(ParseErrorKind::BadForRange, "incorrect for loop range"))
            } else {
                let name = ident_text(&self.buffer[0]);
                proof {
                    lemma_tokens_view_subrange(self.buffer@, 2, self.for_range_pointer as int);
                    lemma_tokens_view_subrange(
                        self.buffer@,
                        self.for_range_pointer as int + 1,
                        self.buffer@.len() as int,
                    );
                }
                let from_sl = vstd::slice::slice_subrange(
                    self.buffer.as_slice(),
                    2,
                    self.for_range_pointer,
                );
                match Self::parse_expression(from_sl) {
                    Ok(from) => {
                        let to_sl = vstd::slice::slice_subrange(
                            self.buffer.as_slice(),
                            self.for_range_pointer + 1,
                            self.buffer.len(),
                        );
                        match Self::parse_expression(to_sl) {
                            Ok(to) => {
                                self.for_buffer.push((name, from, to, Vec::new()));
                                self.buffer.clear();
                                self.for_range_pointer = 0;
                                self.state = ParseState::Normal;
                                proof {
                                    assert(frames_view(self.for_buffer@) =~= old(
                                        self,
                                    )@.frames.push(frames_view(self.for_buffer@).last()));
                                    assert(tokens_view(self.buffer@) =~= Seq::<
                                        TokenView,
                                    >::empty());
                                    assert(final(self)@ =~= spec_for_loop_parse(
                                        old(self)@,
                                        t@,
                                    ).unwrap().0);
                                }
                                Ok(())
                            },
                            Err(e) => Err(e),
                        }
                    },
                    Err(e) => Err(e),
                }
            }
        } else if matches!(t, Token::Range) {
            if self.for_range_pointer == 0 {
                self.for_range_pointer = self.buffer.len();
                self.push_buffer(t);
                Ok(())
            } else {
                Err(
                    parse_error(
                        ParseErrorKind::DuplicateRange,
                        "found more than one range in a for loop",
                    ),
                )
            }
        } else if token_is_expression(&t) {
            self.push_buffer(t);
            Ok(())
        } else {
            Err(parse_error(ParseErrorKind::UnexpectedToken, "expected an expression token"))
        }
    }

    // "read" <var_ident> ";"
    fn read_parse<O: Sink<Statement>>(&mut self, t: Token, out: &mut O) -> (r: Result<
        (),
        ParseError,
    >)
        requires
            old(self).wf(),
            old(self)@.state is Read,
        ensures
            final(self).wf(),
            match spec_read_parse(old(self)@, t@) {
                Ok((p2, emitted)) => {
                    &&& r is Ok
                    &&& final(self)@ == p2
                    &&& statements_view(final(out).contents()) == statements_view(
                        old(out).contents(),
                    ) + emitted_seq(emitted)
                },
                Err(k) => {
                    &&& r matches Err(e) && e.kind == k
                    &&& final(self)@ == old(self)@
                    &&& final(out).contents() == old(out).contents()
                },
            },
    {
        if self.buffer.len() == 0 {
            if matches!(t, Token::Identifier(_)) {
                self.push_buffer(t);
                Ok(())
            } else {
                Err(parse_error(ParseErrorKind::UnexpectedToken, "expected an identifier"))
            }
        } else if matches!(t, Token::Semicolon) {
            let name = ident_text(&self.buffer[0]);
            let stmt = Statement::Read(name);
            self.handle_statement(stmt, out);
            self.state = ParseState::Normal;
            Ok(())
        } else {
            Err(parse_error(ParseErrorKind::UnexpectedToken, "expected a semicolon"))
        }
    }

    // "print" <expr> ";"
    fn print_parse<O: Sink<Statement>>(&mut self, t: Token, out: &mut O) -> (r: Result<
        (),
        ParseError,
    >)
        requires
            old(self).wf(),
            old(self)@.state is Print,
        ensures
            final(self).wf(),
            match spec_print_parse(old(self)@, t@) {
                Ok((p2, emitted)) => {
                    &&& r is Ok
                    &&& final(self)@ == p2
                    &&& statements_view(final(out).contents()) == statements_view(
                        old(out).contents(),
                    ) + emitted_seq(emitted)
                },
                Err(k) => {
                    &&& r matches Err(e) && e.kind == k
                    &&& final(self)@ == old(self)@
                    &&& final(out).contents() == old(out).contents()
                },
            },
    {
        if matches!(t, Token::Semicolon) {
            proof {
                lemma_tokens_view_subrange(self.buffer@, 0, self.buffer@.len() as int);
            }
            let sl = vstd::slice::slice_subrange(self.buffer.as_slice(), 0, self.buffer.len());
            match Self::parse_expression(sl) {
                Ok(e) => {
                    let stmt = Statement::Print(e);
                    self.handle_statement(stmt, out);
                    self.state = ParseState::Normal;
                    Ok(())
                },
                Err(e) => Err(e),
            }
        } else if token_is_expression(&t) {
            self.push_buffer(t);
            Ok(())
        } else {
            Err(parse_error(ParseErrorKind::UnexpectedToken, "expected an expression token"))
        }
    }

    // "assert" "(" <expr> ")" ";"
    fn assert_parse<O: Sink<Statement>>(&mut self, t: Token, out: &mut O) -> (r: Result<
        (),
        ParseError,
    >)
        requires
            old(self).wf(),
            old(self)@.state is Assert,
        ensures
            final(self).wf(),
            match spec_assert_parse(old(self)@, t@) {
                Ok((p2, emitted)) => {
                    &&& r is Ok
                    &&& final(self)@ == p2
                    &&& statements_view(final(out).contents()) == statements_view(
                        old(out).contents(),
                    ) + emitted_seq(emitted)
                },
                Err(k) => {
                    &&& r matches Err(e) && e.kind == k
                    &&& final(self)@ == old(self)@
                    &&& final(out).contents() == old(out).contents()
                },
            },
    {
        let n = self.buffer.len();
        if n == 0 {
            if matches!(t, Token::Bracket(Direction::Left)) {
                self.push_buffer(t);
                Ok(())
            } else {
                Err(parse_error(ParseErrorKind::UnexpectedToken, "expected an opening bracket"))
            }
        } else if matches!(t, Token::Semicolon) {
            let closed = n >= 2 && matches!(&self.buffer[n - 1], Token::Bracket(Direction::Right));
            if closed {
                proof {
                    lemma_tokens_view_subrange(self.buffer@, 1, self.buffer@.len() - 1);
                }
                let sl = vstd::slice::slice_subrange(self.buffer.as_slice(), 1, n - 1);
                match Self::parse_expression(sl) {
                    Ok(e) => {
                        let stmt = Statement::Assert(e);
                        self.handle_statement(stmt, out);
                        self.state = ParseState::Normal;
                        Ok(())
                    },
                    Err(e) => Err(e),
                }
            } else {
                Err(parse_error(ParseErrorKind::UnexpectedToken, "expected a closing bracket"))
            }
        } else if token_is_expression(&t) {
            self.push_buffer(t);
            Ok(())
        } else {
            Err(parse_error(ParseErrorKind::UnexpectedToken, "expected an expression token"))
        }
    }

    // "end" was read; expect "for", close the innermost loop.
    fn expect_end_for<O: Sink<Statement>>(&mut self, t: Token, out: &mut O) -> (r: Result<
        (),
        ParseError,
    >)
        requires
            old(self).wf(),
            old(self)@.state is EndFor,
        ensures
            final(self).wf(),
            match spec_expect_end_for(old(self)@, t@) {
                Ok((p2, emitted)) => {
                    &&& r is Ok
                    &&& final(self)@ == p2
                    &&& statements_view(final(out).contents()) == statements_view(
                        old(out).contents(),
                    ) + emitted_seq(emitted)
                },
                Err(k) => {
                    &&& r matches Err(e) && e.kind == k
                    &&& final(self)@ == old(self)@
                    &&& final(out).contents() == old(out).contents()
                },
            },
    {
        if matches!(t, Token::KeyWord(KeyWord::For)) {
            match self.for_buffer.pop() {
                Some(f) => {
                    proof {
                        assert(frames_view(self.for_buffer@) =~= old(self)@.frames.drop_last());
                        assert(frame_view(f) == old(self)@.frames.last());
                    }
                    let (name, from, to, body) = f;
                    let stmt = Statement::For(name, from, to, body);
                    self.handle_statement(stmt, out);
                    self.state = ParseState::ExpectSemicolon;
                    Ok(())
                },
                None => Err(
                    parse_error(
                        ParseErrorKind::UnmatchedEndFor,
                        "an end for closes no open loop",
                    ),
                ),
            }
        } else {
            Err(parse_error(ParseErrorKind::EndWithoutFor, "expected for after end"))
        }
    }

    // The ";" that closes a "for" statement.
    fn expect_semicolon(&mut self, t: Token) -> (r: Result<(), ParseError>)
        requires
            old(self).wf(),
            old(self)@.state is ExpectSemicolon,
        ensures
            final(self).wf(),
            match spec_expect_semicolon(old(self)@, t@) {
                Ok((p2, emitted)) => r is Ok && final(self)@ == p2 && emitted is None,
                Err(k) => {
                    &&& r matches Err(e) && e.kind == k
                    &&& final(self)@ == old(self)@
                },
            },
    {
        if matches!(t, Token::Semicolon) {
            self.state = ParseState::Normal;
            Ok(())
        } else {
            Err(parse_error(ParseErrorKind::UnexpectedToken, "expected a semicolon"))
        }
    }

    /// Handle one token according to the current machine state, emitting any
    /// completed top-level statement into `out`.
    pub fn feed<O: Sink<Statement>>(&mut self, t: Token, out: &mut O) -> (r: Result<
        (),
        ParseError,
    >)
        requires
            old(self).wf(),
        ensures
            final(self).wf(),
            match parse_step(old(self)@, t@) {
                Ok((p2, emitted)) => {
                    &&& r is Ok
                    &&& final(self)@ == p2
                    &&& statements_view(final(out).contents()) == statements_view(
                        old(out).contents(),
                    ) + emitted_seq(emitted)
                },
                Err(k) => {
                    &&& r matches Err(e) && e.kind == k
                    &&& final(self)@ == old(self)@
                    &&& final(out).contents() == old(out).contents()
                },
            },
    {
        let r = match self.state {
            ParseState::Normal => self.normal_parse(t),
            ParseState::Declaration => self.variable_definition_parse(t, out),
            ParseState::Assignment => self.assignment_parse(t, out),
            ParseState::For => self.for_loop_parse(t),
            ParseState::Read => self.read_parse(t, out),
            ParseState::Print => self.print_parse(t, out),
            ParseState::Assert => self.assert_parse(t, out),
            ParseState::EndFor => self.expect_end_for(t, out),
            ParseState::ExpectSemicolon => self.expect_semicolon(t),
        };
        proof {
            assert(statements_view(out.contents()) =~= statements_view(out.contents())
                + Seq::<StatementView>::empty());
        }
        r
    }

    /// End of input: well placed only awaiting a new statement with no open
    /// loop.
    pub fn finish(&self) -> (r: Result<(), ParseError>)
        ensures
            match parse_finish(self@) {
                Ok(()) => r is Ok,
                Err(k) => r matches Err(e) && e.kind == k,
            },
    {
        if self.state == ParseState::Normal && self.for_buffer.len() == 0 {
            Ok(())
        } else {
            Err(
                parse_error(
                    ParseErrorKind::UnexpectedEndOfInput,
                    "input ended inside a statement or an open loop",
                ),
            )
        }
    }
}

/// Pull every token from `tokens` and push each completed top-level statement
/// into `statements`: the statement sequence the token sequence denotes, in
/// order of emission, or the first syntax error.
pub fn parse<I, O>(tokens: &mut I, statements: &mut O) -> (r: Result<(), ParseError>) where
    I: Source<Token>,
    O: Sink<Statement>,

    ensures
        match parse_spec(tokens_view(old(tokens).contents())) {
            Ok(stmts) => {
                &&& r is Ok
                &&& statements_view(final(statements).contents()) == statements_view(
                    old(statements).contents(),
                ) + stmts
            },
            Err(k) => r matches Err(e) && e.kind == k,
        },
{
    let ghost all = tokens_view(old(tokens).contents());
    let mut parser = Parser::new();
    let ghost mut emitted: Seq<StatementView> = Seq::empty();
    proof {
        assert(statements_view(statements.contents()) + Seq::<StatementView>::empty()
            =~= statements_view(statements.contents()));
        match parse_run(init_parser_view(), all) {
            Ok((pf, rest)) => {
                assert(Seq::<StatementView>::empty() + rest =~= rest);
            },
            Err(_) => {},
        }
    }
    loop
        invariant
            parser.wf(),
            all == tokens_view(old(tokens).contents()),
            statements_view(statements.contents()) == statements_view(old(statements).contents())
                + emitted,
            match parse_run(parser@, tokens_view(tokens.contents())) {
                Ok((pf, rest)) => parse_run(init_parser_view(), all) == Ok::<
                    (ParserView, Seq<StatementView>),
                    ParseErrorKind,
                >((pf, emitted + rest)),
                Err(k) => parse_run(init_parser_view(), all) == Err::<
                    (ParserView, Seq<StatementView>),
                    ParseErrorKind,
                >(k),
            },
        ensures
            parser.wf(),
            statements_view(statements.contents()) == statements_view(old(statements).contents())
                + emitted,
            parse_run(init_parser_view(), all) == Ok::<
                (ParserView, Seq<StatementView>),
                ParseErrorKind,
            >((parser@, emitted)),
        decreases tokens.contents().len(),
    {
        let ghost remaining = tokens_view(tokens.contents());
        match tokens.take() {
            None => {
                proof {
                    assert(remaining =~= Seq::<TokenView>::empty());
                    assert(emitted + Seq::<StatementView>::empty() =~= emitted);
                }
                break ;
            },
            Some(t) => {
                proof {
                    assert(remaining[0] == t@);
                    assert(tokens_view(tokens.contents()) =~= remaining.drop_first());
                }
                let ghost pre = parser@;
                let ghost step = parse_step(pre, t@);
                match parser.feed(t, statements) {
                    Ok(()) => {
                        proof {
                            let e1 = emitted_seq(step.unwrap().1);
                            match parse_run(parser@, tokens_view(tokens.contents())) {
                                Ok((pf, rest)) => {
                                    assert((emitted + e1) + rest =~= emitted + (e1 + rest));
                                },
                                Err(_) => {},
                            }
                            emitted = emitted + e1;
                        }
                    },
                    Err(e) => {
                        return Err(e);
                    },
                }
            },
        }
    }
    match parser.finish() {
        Ok(()) => Ok(()),
        Err(e) => Err(e),
    }
}

// ---------------------------------------------------------------------------
// Laws of the parser
// ---------------------------------------------------------------------------

/// A well-formed name: at least one character, never a reserved word.
pub open spec fn wf_name(n: Seq<char>) -> bool {
    n.len() >= 1 && crate::scanner::keyword_of(n) is None
}

/// A well-formed operand: every variable it holds is a well-formed name, down
/// through parenthesized sub-expressions. No sub-expression is empty: every
/// operand holds a value by construction.
pub open spec fn wf_operand(o: OperandView) -> bool
    decreases o,
{
    match o {
        OperandView::Variable(n) => wf_name(n),
        OperandView::Expr(e) => wf_expression(*e),
        _ => true,
    }
}

/// A well-formed expression: all its operands are well formed.
pub open spec fn wf_expression(e: ExpressionView) -> bool
    decreases e,
{
    match e {
        ExpressionView::Binary(l, _, r) => wf_operand(l) && wf_operand(r),
        ExpressionView::Unary(_, o) => wf_operand(o),
        ExpressionView::Singleton(o) => wf_operand(o),
    }
}

/// A well-formed statement: its names are well formed and its expressions and
/// nested statements are well formed.
pub open spec fn wf_statement(s: StatementView) -> bool
    decreases s,
{
    match s {
        StatementView::Declaration(n, _, e) => wf_name(n) && (match e {
            Some(x) => wf_expression(x),
            None => true,
        }),
        StatementView::Assignment(n, e) => wf_name(n) && wf_expression(e),
        StatementView::For(n, from, to, body) => wf_name(n) && wf_expression(from)
            && wf_expression(to) && wf_statements(body),
        StatementView::Read(n) => wf_name(n),
        StatementView::Print(e) => wf_expression(e),
        StatementView::Assert(e) => wf_expression(e),
    }
}

/// Every statement of the sequence is well formed.
pub open spec fn wf_statements(ss: Seq<StatementView>) -> bool
    decreases ss,
{
    if ss.len() == 0 {
        true
    } else {
        wf_statement(ss[ss.len() - 1]) && wf_statements(ss.subrange(0, ss.len() - 1))
    }
}

/// `wf_statements` holds exactly of sequences whose every element is well
/// formed.
proof fn lemma_wf_statements_index(ss: Seq<StatementView>)
    ensures
        wf_statements(ss) <==> (forall|i: int| 0 <= i < ss.len() ==> wf_statement(
            #[trigger] ss[i],
        )),
    decreases ss.len(),
{
    if ss.len() > 0 {
        let pre = ss.subrange(0, ss.len() - 1);
        lemma_wf_statements_index(pre);
        if wf_statements(ss) {
            assert forall|i: int| 0 <= i < ss.len() implies wf_statement(#[trigger] ss[i]) by {
                if i < ss.len() - 1 {
                    assert(wf_statement(pre[i]));
                    assert(pre[i] == ss[i]);
                }
            }
        }
        if forall|i: int| 0 <= i < ss.len() ==> wf_statement(#[trigger] ss[i]) {
            assert forall|i: int| 0 <= i < pre.len() implies wf_statement(#[trigger] pre[i]) by {
                assert(pre[i] == ss[i]);
            }
            assert(wf_statements(pre));
        }
    }
}

proof fn lemma_wf_statements_push(ss: Seq<StatementView>, s: StatementView)
    requires
        wf_statements(ss),
        wf_statement(s),
    ensures
        wf_statements(ss.push(s)),
{
    assert(ss.push(s).subrange(0, ss.len() as int) =~= ss);
}

proof fn lemma_wf_statements_concat(a: Seq<StatementView>, b: Seq<StatementView>)
    requires
        wf_statements(a),
        wf_statements(b),
    ensures
        wf_statements(a + b),
{
    lemma_wf_statements_index(a);
    lemma_wf_statements_index(b);
    lemma_wf_statements_index(a + b);
    assert forall|i: int| 0 <= i < (a + b).len() implies wf_statement(#[trigger] (a + b)[i]) by {
        if i < a.len() {
            assert((a + b)[i] == a[i]);
        } else {
            assert((a + b)[i] == b[i - a.len()]);
        }
    }
}

/// A well-formed frame: the header pieces and the body gathered so far.
pub open spec fn wf_frame(f: FrameView) -> bool {
    wf_name(f.name) && wf_expression(f.from) && wf_expression(f.to) && wf_statements(f.body)
}

/// Every open loop frame is well formed.
pub open spec fn wf_frames(fs: Seq<FrameView>) -> bool {
    forall|i: int| 0 <= i < fs.len() ==> wf_frame(#[trigger] fs[i])
}

/// The parser's gathered contents are well formed: buffered tokens and open
/// frames alike.
pub open spec fn parser_contents_wf(p: ParserView) -> bool {
    crate::scanner::tokens_wf(p.buffer) && wf_frames(p.frames)
}

/// The expression sub-parser yields well-formed expressions from well-formed
/// tokens.
proof fn lemma_parse_operand_wf(ts: Seq<TokenView>)
    requires
        crate::scanner::tokens_wf(ts),
    ensures
        spec_parse_operand(ts) matches Ok((o, n)) ==> wf_operand(o),
    decreases ts.len(), 0nat,
{
    if ts.len() > 0 {
        match ts[0] {
            TokenView::Bracket(Direction::Left) => match find_close(ts, 1, 1) {
                Some(j) => {
                    if 1 <= j < ts.len() {
                        assert forall|i: int| 0 <= i < j - 1 implies crate::scanner::wf_token(
                            #[trigger] ts.subrange(1, j)[i],
                        ) by {
                            assert(ts.subrange(1, j)[i] == ts[i + 1]);
                        }
                        lemma_parse_expression_wf(ts.subrange(1, j));
                    }
                },
                None => {},
            },
            _ => {},
        }
    }
}

proof fn lemma_parse_expression_wf(ts: Seq<TokenView>)
    requires
        crate::scanner::tokens_wf(ts),
    ensures
        spec_parse_expression(ts) matches Ok(e) ==> wf_expression(e),
    decreases ts.len(), 1nat,
{
    if ts.len() >= 1 && ts[0] == TokenView::Operator(Operator::Not) {
        assert forall|i: int| 0 <= i < ts.len() - 1 implies crate::scanner::wf_token(
            #[trigger] ts.subrange(1, ts.len() as int)[i],
        ) by {
            assert(ts.subrange(1, ts.len() as int)[i] == ts[i + 1]);
        }
        lemma_parse_operand_wf(ts.subrange(1, ts.len() as int));
    } else {
        lemma_parse_operand_wf(ts);
        match spec_parse_operand(ts) {
            Ok((o1, n)) => {
                if n != ts.len() && 0 < n < ts.len() {
                    assert forall|i: int| 0 <= i < ts.len() - n - 1 implies crate::scanner::wf_token(
                        #[trigger] ts.subrange(n + 1, ts.len() as int)[i],
                    ) by {
                        assert(ts.subrange(n + 1, ts.len() as int)[i] == ts[i + n + 1]);
                    }
                    lemma_parse_operand_wf(ts.subrange(n + 1, ts.len() as int));
                }
            },
            Err(_) => {},
        }
    }
}

/// Routing keeps contents well formed and emits only well-formed statements.
proof fn lemma_route_wf(p: ParserView, s: StatementView)
    requires
        wf_frames(p.frames),
        wf_statement(s),
    ensures
        ({
            let (p2, out) = route_statement(p, s);
            &&& wf_frames(p2.frames)
            &&& p2.buffer.len() == 0
            &&& (out matches Some(x) ==> wf_statement(x))
        }),
{
    if p.frames.len() > 0 {
        let k = p.frames.len() - 1;
        let f = p.frames[k];
        lemma_wf_statements_push(f.body, s);
        let fs2 = route_statement(p, s).0.frames;
        assert forall|i: int| 0 <= i < fs2.len() implies wf_frame(#[trigger] fs2[i]) by {
            if i != k {
                assert(fs2[i] == p.frames[i]);
            }
        }
    }
}

/// One step of the machine keeps the parser well formed and emits only
/// well-formed statements, as long as the tokens are well formed.
proof fn lemma_parse_step_wf(p: ParserView, t: TokenView)
    requires
        parser_wf(p),
        parser_contents_wf(p),
        crate::scanner::wf_token(t),
    ensures
        parse_step(p, t) matches Ok((p2, out)) ==> {
            &&& parser_wf(p2)
            &&& parser_contents_wf(p2)
            &&& (out matches Some(s) ==> wf_statement(s))
        },
{
    let n = p.buffer.len() as int;
    assert forall|ts: Seq<TokenView>, x: TokenView|
        crate::scanner::tokens_wf(ts) && crate::scanner::wf_token(x) implies crate::scanner::tokens_wf(
        #[trigger] ts.push(x),
    ) by {
        assert forall|i: int| 0 <= i < ts.push(x).len() implies crate::scanner::wf_token(
            #[trigger] ts.push(x)[i],
        ) by {
            if i < ts.len() {
                assert(ts.push(x)[i] == ts[i]);
            } else {
                assert(ts.push(x)[i] == x);
            }
        }
    }
    match p.state {
        ParseState::Declaration => {
            if n == 3 && t is Semicolon {
                lemma_route_wf(
                    p,
                    StatementView::Declaration(tv_ident(p.buffer[0]), tv_type(p.buffer[2]), None),
                );
            } else if n >= 4 && t is Semicolon {
                lemma_subrange_tokens_wf(p.buffer, 4, n);
                lemma_parse_expression_wf(p.buffer.subrange(4, n));
                match spec_parse_expression(p.buffer.subrange(4, n)) {
                    Ok(e) => lemma_route_wf(
                        p,
                        StatementView::Declaration(
                            tv_ident(p.buffer[0]),
                            tv_type(p.buffer[2]),
                            Some(e),
                        ),
                    ),
                    Err(_) => {},
                }
            }
        },
        ParseState::Assignment => {
            if n != 1 && t is Semicolon {
                lemma_subrange_tokens_wf(p.buffer, 2, n);
                lemma_parse_expression_wf(p.buffer.subrange(2, n));
                match spec_parse_expression(p.buffer.subrange(2, n)) {
                    Ok(e) => lemma_route_wf(
                        p,
                        StatementView::Assignment(tv_ident(p.buffer[0]), e),
                    ),
                    Err(_) => {},
                }
            }
        },
        ParseState::For => {
            if n >= 2 && t == TokenView::KeyWord(KeyWord::Do) && p.range_ptr >= 3 {
                lemma_subrange_tokens_wf(p.buffer, 2, p.range_ptr as int);
                lemma_parse_expression_wf(p.buffer.subrange(2, p.range_ptr as int));
                lemma_subrange_tokens_wf(p.buffer, p.range_ptr as int + 1, n);
                lemma_parse_expression_wf(p.buffer.subrange(p.range_ptr as int + 1, n));
            }
        },
        ParseState::Read => {
            if n >= 1 && t is Semicolon {
                lemma_route_wf(p, StatementView::Read(tv_ident(p.buffer[0])));
            }
        },
        ParseState::Print => {
            if t is Semicolon {
                lemma_subrange_tokens_wf(p.buffer, 0, n);
                lemma_parse_expression_wf(p.buffer.subrange(0, n));
                match spec_parse_expression(p.buffer.subrange(0, n)) {
                    Ok(e) => lemma_route_wf(p, StatementView::Print(e)),
                    Err(_) => {},
                }
            }
        },
        ParseState::Assert => {
            if n >= 2 && t is Semicolon && p.buffer[n - 1] == TokenView::Bracket(
                Direction::Right,
            ) {
                lemma_subrange_tokens_wf(p.buffer, 1, n - 1);
                lemma_parse_expression_wf(p.buffer.subrange(1, n - 1));
                match spec_parse_expression(p.buffer.subrange(1, n - 1)) {
                    Ok(e) => lemma_route_wf(p, StatementView::Assert(e)),
                    Err(_) => {},
                }
            }
        },
        ParseState::EndFor => {
            if t == TokenView::KeyWord(KeyWord::For) && p.frames.len() > 0 {
                let f = p.frames.last();
                let popped = ParserView { frames: p.frames.drop_last(), ..p };
                assert(wf_frame(f));
                assert forall|i: int| 0 <= i < popped.frames.len() implies wf_frame(
                    #[trigger] popped.frames[i],
                ) by {
                    assert(popped.frames[i] == p.frames[i]);
                }
                lemma_route_wf(popped, StatementView::For(f.name, f.from, f.to, f.body));
            }
        },
        _ => {},
    }
}

proof fn lemma_subrange_tokens_wf(ts: Seq<TokenView>, i: int, j: int)
    requires
        crate::scanner::tokens_wf(ts),
        0 <= i <= j <= ts.len(),
    ensures
        crate::scanner::tokens_wf(ts.subrange(i, j)),
{
    assert forall|k: int| 0 <= k < j - i implies crate::scanner::wf_token(
        #[trigger] ts.subrange(i, j)[k],
    ) by {
        assert(ts.subrange(i, j)[k] == ts[i + k]);
    }
}

#[verifier::rlimit(50)]
proof fn lemma_parse_run_wf(p: ParserView, ts: Seq<TokenView>)
    requires
        parser_wf(p),
        parser_contents_wf(p),
        crate::scanner::tokens_wf(ts),
    ensures
        parse_run(p, ts) matches Ok((pf, ss)) ==> wf_statements(ss),
    decreases ts.len(),
{
    if ts.len() > 0 {
        lemma_parse_step_wf(p, ts[0]);
        match parse_step(p, ts[0]) {
            Ok((p2, out)) => {
                lemma_subrange_tokens_wf(ts, 1, ts.len() as int);
                assert(ts.drop_first() =~= ts.subrange(1, ts.len() as int));
                lemma_parse_run_wf(p2, ts.drop_first());
                match parse_run(p2, ts.drop_first()) {
                    Ok((pf, rest)) => {
                        match out {
                            Some(s) => {
                                assert(wf_statement(s));
                                assert(emitted_seq(out) == seq![s]);
                                assert(seq![s][0] == s);
                                assert(seq![s].subrange(0, 0).len() == 0);
                                assert(wf_statements(seq![s].subrange(0, 0)));
                                assert(wf_statements(seq![s]));
                            },
                            None => {},
                        }
                        lemma_wf_statements_concat(emitted_seq(out), rest);
                    },
                    Err(_) => {},
                }
            },
            Err(_) => {},
        }
    }
}

/// Every statement a successful parse of well-formed tokens yields is well
/// formed: names are nonempty and never reserved words, and no sub-expression
/// is empty, down through nested loop bodies. Every valid source program has
/// such a parse: the scanner's tokens are well formed (see
/// `lemma_scan_tokens_wf`).
pub proof fn lemma_parse_statements_wf(ts: Seq<TokenView>)
    requires
        crate::scanner::tokens_wf(ts),
    ensures
        parse_spec(ts) matches Ok(ss) ==> wf_statements(ss),
{
    assert(parser_contents_wf(init_parser_view()));
    lemma_parse_run_wf(init_parser_view(), ts);
}

/// The parser state `p` with one more open loop frame below all of its own:
/// the surroundings a parser has when it works inside that loop's body.
pub open spec fn with_bottom(p: ParserView, f: FrameView) -> ParserView {
    ParserView { frames: seq![f] + p.frames, ..p }
}

/// Routing a statement with one more frame at the bottom of the stack routes
/// into that frame when the stack was empty, and exactly as before otherwise;
/// nothing reaches the output.
proof fn lemma_route_bottom(p: ParserView, f: FrameView, s: StatementView)
    ensures
        ({
            let (p2, out) = route_statement(p, s);
            route_statement(with_bottom(p, f), s) == (
                with_bottom(p2, FrameView { body: f.body + emitted_seq(out), ..f }),
                None::<StatementView>,
            )
        }),
{
    let (p2, out) = route_statement(p, s);
    let wb = with_bottom(p, f);
    if p.frames.len() == 0 {
        assert(wb.frames.len() == 1);
        assert(wb.frames[0] == f);
        let f2 = FrameView { body: f.body.push(s), ..f };
        assert(wb.frames.update(0, f2) =~= seq![f2] + p2.frames);
        assert(f.body + emitted_seq(out) =~= f.body.push(s));
        assert(route_statement(wb, s).0 =~= with_bottom(
            p2,
            FrameView { body: f.body + emitted_seq(out), ..f },
        ));
    } else {
        let k = p.frames.len() - 1;
        let top = p.frames[k];
        assert(wb.frames[k + 1] == top);
        let f2 = FrameView { body: top.body.push(s), ..top };
        assert(wb.frames.update(k + 1, f2) =~= seq![f] + p.frames.update(k, f2));
        assert(f.body + emitted_seq(out) =~= f.body);
        assert(route_statement(wb, s).0 =~= with_bottom(
            p2,
            FrameView { body: f.body + emitted_seq(out), ..f },
        ));
    }
}

/// One successful step with one more frame at the bottom of the stack: the
/// machine moves exactly as before, and whatever it would have emitted goes
/// into that frame's body instead.
proof fn lemma_parse_step_bottom(p: ParserView, f: FrameView, t: TokenView)
    requires
        parse_step(p, t) is Ok,
    ensures
        ({
            let (p2, out) = parse_step(p, t).unwrap();
            parse_step(with_bottom(p, f), t) == Ok::<(ParserView, Option<StatementView>), ParseErrorKind>(
                (with_bottom(p2, FrameView { body: f.body + emitted_seq(out), ..f }), None),
            )
        }),
{
    let (p2, out) = parse_step(p, t).unwrap();
    let wb = with_bottom(p, f);
    // A step that emits nothing keeps the bottom frame as it is.
    assert(f.body + Seq::<StatementView>::empty() =~= f.body);
    assert((FrameView { body: f.body + Seq::<StatementView>::empty(), ..f }) =~= f);
    match p.state {
        ParseState::Normal => {
            assert(parse_step(wb, t).unwrap().0 =~= with_bottom(p2, f));
        },
        ParseState::Declaration => {
            let n = p.buffer.len() as int;
            if n == 3 && t is Semicolon {
                let stmt = StatementView::Declaration(
                    tv_ident(p.buffer[0]),
                    tv_type(p.buffer[2]),
                    None,
                );
                lemma_route_bottom(p, f, stmt);
                assert(parse_step(wb, t).unwrap().0 =~= with_bottom(
                    p2,
                    FrameView { body: f.body + emitted_seq(out), ..f },
                ));
            } else if n >= 4 && t is Semicolon {
                match spec_parse_expression(p.buffer.subrange(4, n)) {
                    Ok(e) => {
                        let stmt = StatementView::Declaration(
                            tv_ident(p.buffer[0]),
                            tv_type(p.buffer[2]),
                            Some(e),
                        );
                        lemma_route_bottom(p, f, stmt);
                        assert(parse_step(wb, t).unwrap().0 =~= with_bottom(
                            p2,
                            FrameView { body: f.body + emitted_seq(out), ..f },
                        ));
                    },
                    Err(_) => {},
                }
            } else {
                assert(parse_step(wb, t).unwrap().0 =~= with_bottom(p2, f));
            }
        },
        ParseState::Assignment => {
            if p.buffer.len() != 1 && t is Semicolon {
                match spec_parse_expression(p.buffer.subrange(2, p.buffer.len() as int)) {
                    Ok(e) => {
                        let stmt = StatementView::Assignment(tv_ident(p.buffer[0]), e);
                        lemma_route_bottom(p, f, stmt);
                        assert(parse_step(wb, t).unwrap().0 =~= with_bottom(
                            p2,
                            FrameView { body: f.body + emitted_seq(out), ..f },
                        ));
                    },
                    Err(_) => {},
                }
            } else {
                assert(parse_step(wb, t).unwrap().0 =~= with_bottom(p2, f));
            }
        },
        ParseState::For => {
            let n = p.buffer.len() as int;
            if n >= 2 && t == TokenView::KeyWord(KeyWord::Do) && p.range_ptr >= 3 {
                assert((seq![f] + p.frames).push(parse_step(p, t).unwrap().0.frames.last())
                    =~= seq![f] + p.frames.push(parse_step(p, t).unwrap().0.frames.last()));
                assert(parse_step(wb, t).unwrap().0 =~= with_bottom(p2, f));
            } else {
                assert(parse_step(wb, t).unwrap().0 =~= with_bottom(p2, f));
            }
        },
        ParseState::Read => {
            if p.buffer.len() != 0 && t is Semicolon {
                let stmt = StatementView::Read(tv_ident(p.buffer[0]));
                lemma_route_bottom(p, f, stmt);
                assert(parse_step(wb, t).unwrap().0 =~= with_bottom(
                    p2,
                    FrameView { body: f.body + emitted_seq(out), ..f },
                ));
            } else {
                assert(parse_step(wb, t).unwrap().0 =~= with_bottom(p2, f));
            }
        },
        ParseState::Print => {
            if t is Semicolon {
                match spec_parse_expression(p.buffer.subrange(0, p.buffer.len() as int)) {
                    Ok(e) => {
                        lemma_route_bottom(p, f, StatementView::Print(e));
                        assert(parse_step(wb, t).unwrap().0 =~= with_bottom(
                            p2,
                            FrameView { body: f.body + emitted_seq(out), ..f },
                        ));
                    },
                    Err(_) => {},
                }
            } else {
                assert(parse_step(wb, t).unwrap().0 =~= with_bottom(p2, f));
            }
        },
        ParseState::Assert => {
            let n = p.buffer.len() as int;
            if n >= 2 && t is Semicolon && p.buffer[n - 1] == TokenView::Bracket(
                Direction::Right,
            ) {
                match spec_parse_expression(p.buffer.subrange(1, n - 1)) {
                    Ok(e) => {
                        lemma_route_bottom(p, f, StatementView::Assert(e));
                        assert(parse_step(wb, t).unwrap().0 =~= with_bottom(
                            p2,
                            FrameView { body: f.body + emitted_seq(out), ..f },
                        ));
                    },
                    Err(_) => {},
                }
            } else {
                assert(parse_step(wb, t).unwrap().0 =~= with_bottom(p2, f));
            }
        },
        ParseState::EndFor => {
            if t == TokenView::KeyWord(KeyWord::For) {
                // A step that succeeded found an open loop to close.
                assert(p.frames.len() > 0);
                let top = p.frames.last();
                assert(wb.frames.last() == top);
                assert(wb.frames.drop_last() =~= seq![f] + p.frames.drop_last());
                let popped = ParserView { frames: p.frames.drop_last(), ..p };
                let stmt = StatementView::For(top.name, top.from, top.to, top.body);
                lemma_route_bottom(popped, f, stmt);
                assert((ParserView { frames: wb.frames.drop_last(), ..wb }) =~= with_bottom(
                    popped,
                    f,
                ));
                assert(parse_step(wb, t).unwrap().0 =~= with_bottom(
                    p2,
                    FrameView { body: f.body + emitted_seq(out), ..f },
                ));
            }
        },
        ParseState::ExpectSemicolon => {
            assert(parse_step(wb, t).unwrap().0 =~= with_bottom(p2, f));
        },
    }
}

/// A whole successful run with one more frame at the bottom of the stack:
/// the machine moves exactly as before, the frame gathers everything the run
/// would have emitted, in order, and nothing reaches the output. Open loops
/// close in LIFO order: a pop only ever reaches the machine's own frames,
/// never the one below them.
pub proof fn lemma_parse_run_bottom(p: ParserView, f: FrameView, ts: Seq<TokenView>)
    requires
        parse_run(p, ts) is Ok,
    ensures
        ({
            let (q, emitted) = parse_run(p, ts).unwrap();
            parse_run(with_bottom(p, f), ts) == Ok::<(ParserView, Seq<StatementView>), ParseErrorKind>(
                (with_bottom(q, FrameView { body: f.body + emitted, ..f }), Seq::empty()),
            )
        }),
    decreases ts.len(),
{
    let (q, emitted) = parse_run(p, ts).unwrap();
    if ts.len() == 0 {
        assert(f.body + emitted =~= f.body);
        assert(with_bottom(q, FrameView { body: f.body + emitted, ..f }) =~= with_bottom(p, f));
    } else {
        let (p2, out) = parse_step(p, ts[0]).unwrap();
        lemma_parse_step_bottom(p, f, ts[0]);
        let f2 = FrameView { body: f.body + emitted_seq(out), ..f };
        lemma_parse_run_bottom(p2, f2, ts.drop_first());
        let (qq, rest) = parse_run(p2, ts.drop_first()).unwrap();
        assert(q == qq && emitted == emitted_seq(out) + rest);
        assert((f.body + emitted_seq(out)) + rest =~= f.body + (emitted_seq(out) + rest));
        assert((FrameView { body: f2.body + rest, ..f2 }) =~= (FrameView {
            body: f.body + emitted,
            ..f
        }));
    }
}

/// Every step of the machine keeps its state reachable.
proof fn lemma_parse_step_machine_wf(p: ParserView, t: TokenView)
    requires
        parser_wf(p),
    ensures
        parse_step(p, t) matches Ok((p2, _)) ==> parser_wf(p2),
{
}

proof fn lemma_parse_run_machine_wf(p: ParserView, ts: Seq<TokenView>)
    requires
        parser_wf(p),
    ensures
        parse_run(p, ts) matches Ok((q, _)) ==> parser_wf(q),
    decreases ts.len(),
{
    if ts.len() > 0 {
        lemma_parse_step_machine_wf(p, ts[0]);
        match parse_step(p, ts[0]) {
            Ok((p2, _)) => lemma_parse_run_machine_wf(p2, ts.drop_first()),
            Err(_) => {},
        }
    }
}

/// A successful run of one token sequence followed by another is the run of
/// their concatenation.
proof fn lemma_parse_run_concat(p: ParserView, ts1: Seq<TokenView>, ts2: Seq<TokenView>)
    requires
        parse_run(p, ts1) is Ok,
    ensures
        ({
            let (q, e1) = parse_run(p, ts1).unwrap();
            parse_run(p, ts1 + ts2) == match parse_run(q, ts2) {
                Ok((qf, e2)) => Ok::<(ParserView, Seq<StatementView>), ParseErrorKind>(
                    (qf, e1 + e2),
                ),
                Err(k) => Err(k),
            }
        }),
    decreases ts1.len(),
{
    let (q, e1) = parse_run(p, ts1).unwrap();
    if ts1.len() == 0 {
        assert(ts1 + ts2 =~= ts2);
        match parse_run(q, ts2) {
            Ok((qf, e2)) => {
                assert(e1 + e2 =~= e2);
            },
            Err(_) => {},
        }
    } else {
        let (p2, out) = parse_step(p, ts1[0]).unwrap();
        assert((ts1 + ts2)[0] == ts1[0]);
        assert((ts1 + ts2).drop_first() =~= ts1.drop_first() + ts2);
        lemma_parse_run_concat(p2, ts1.drop_first(), ts2);
        let (qq, r1) = parse_run(p2, ts1.drop_first()).unwrap();
        match parse_run(q, ts2) {
            Ok((qf, e2)) => {
                assert(emitted_seq(out) + (r1 + e2) =~= (emitted_seq(out) + r1) + e2);
            },
            Err(_) => {},
        }
    }
}

/// A successful complete parse leaves the machine in its initial state: in
/// `Normal` with no open loop and, the state being reachable, an empty token
/// buffer. Together with `lemma_parse_deterministic`, repeated invocations of
/// the parser on identical input yield identical statement sequences.
pub proof fn lemma_parse_leaves_machine_fresh(ts: Seq<TokenView>)
    requires
        parse_spec(ts) is Ok,
    ensures
        parse_run(init_parser_view(), ts) matches Ok((pf, _)) && pf == init_parser_view(),
{
    lemma_parse_run_machine_wf(init_parser_view(), ts);
    let (pf, _) = parse_run(init_parser_view(), ts).unwrap();
    assert(pf =~= init_parser_view());
}

/// The law of nested loops. Suppose the tokens `ts` parse standalone, as a
/// complete program, into the statements `S`. A parser that has just consumed
/// a whole `for` header — its stack holds one open frame with an empty body —
/// and then reads `ts` followed by `end`, `for`, `;` finishes cleanly and
/// emits exactly one statement: the loop whose body is exactly `S`, the
/// statements that stand between its `do` and its matching `end for`. Nested
/// loops inside `ts` close in LIFO order against their own `for`s (see
/// `lemma_parse_run_bottom`) and land in the enclosing body.
pub proof fn lemma_for_loop_body(f: FrameView, ts: Seq<TokenView>)
    requires
        f.body == Seq::<StatementView>::empty(),
        parse_spec(ts) is Ok,
    ensures
        parse_run(
            ParserView {
                state: ParseState::Normal,
                buffer: Seq::empty(),
                frames: seq![f],
                range_ptr: 0,
            },
            ts + seq![
                TokenView::KeyWord(KeyWord::End),
                TokenView::KeyWord(KeyWord::For),
                TokenView::Semicolon,
            ],
        ) == Ok::<(ParserView, Seq<StatementView>), ParseErrorKind>(
            (
                init_parser_view(),
                seq![
                    StatementView::For(f.name, f.from, f.to, parse_spec(ts).unwrap()),
                ],
            ),
        ),
{
    let init = init_parser_view();
    let s = parse_spec(ts).unwrap();
    let (pf, emitted) = parse_run(init, ts).unwrap();
    assert(emitted == s);
    // A clean finish means the parser stands in `Normal` with no open loop,
    // and a reachable `Normal` state has an empty buffer.
    lemma_parse_run_machine_wf(init, ts);
    assert(pf =~= init);
    // With the header's frame below, the run gathers `s` into its body.
    lemma_parse_run_bottom(init, f, ts);
    let header = with_bottom(init, f);
    assert(header =~= (ParserView {
        state: ParseState::Normal,
        buffer: Seq::empty(),
        frames: seq![f],
        range_ptr: 0,
    }));
    let f2 = FrameView { body: f.body + s, ..f };
    assert(f2.body =~= s);
    let mid = with_bottom(init, f2);
    assert(parse_run(header, ts) == Ok::<(ParserView, Seq<StatementView>), ParseErrorKind>(
        (mid, Seq::empty()),
    ));
    // The three closing tokens pop the frame, emit the loop, and return to
    // `Normal`.
    let closing = seq![
        TokenView::KeyWord(KeyWord::End),
        TokenView::KeyWord(KeyWord::For),
        TokenView::Semicolon,
    ];
    let st1 = parse_step(mid, closing[0]).unwrap().0;
    assert(st1 == (ParserView { state: ParseState::EndFor, ..mid }));
    assert(mid.frames.last() == f2);
    assert(mid.frames.drop_last() =~= Seq::<FrameView>::empty());
    let stmt = StatementView::For(f.name, f.from, f.to, s);
    assert(parse_step(st1, closing[1]) matches Ok((p2, out)) && out == Some(stmt)
        && p2 == (ParserView { state: ParseState::ExpectSemicolon, ..init })) by {
        assert(StatementView::For(f2.name, f2.from, f2.to, f2.body) == stmt);
        assert((ParserView {
            state: ParseState::ExpectSemicolon,
            ..route_statement(
                ParserView { frames: mid.frames.drop_last(), ..mid },
                stmt,
            ).0
        }) =~= (ParserView { state: ParseState::ExpectSemicolon, ..init }));
    }
    let st2 = ParserView { state: ParseState::ExpectSemicolon, ..init };
    assert(parse_step(st2, closing[2]) matches Ok((p3, out3)) && out3 is None && p3 =~= init);
    // Assemble the run over the three closing tokens, innermost first.
    let rest2 = closing.drop_first();
    let rest1 = rest2.drop_first();
    assert(rest1 =~= seq![TokenView::Semicolon]);
    assert(rest1.drop_first() =~= Seq::<TokenView>::empty());
    assert(parse_run(init, rest1.drop_first()) == Ok::<
        (ParserView, Seq<StatementView>),
        ParseErrorKind,
    >((init, Seq::empty())));
    assert(rest1[0] == TokenView::Semicolon);
    assert(parse_run(st2, rest1) == Ok::<(ParserView, Seq<StatementView>), ParseErrorKind>(
        (init, Seq::empty()),
    )) by {
        assert(parse_step(st2, rest1[0]) matches Ok((p3, out3)) && out3 is None && p3 == init);
        assert(Seq::<StatementView>::empty() + Seq::<StatementView>::empty() =~= Seq::<
            StatementView,
        >::empty());
    }
    assert(rest2 =~= seq![TokenView::KeyWord(KeyWord::For), TokenView::Semicolon]);
    assert(rest2[0] == TokenView::KeyWord(KeyWord::For));
    assert(rest2.drop_first() == rest1);
    assert(parse_run(st1, rest2) == Ok::<(ParserView, Seq<StatementView>), ParseErrorKind>(
        (init, seq![stmt]),
    )) by {
        assert(parse_step(st1, rest2[0]) matches Ok((p2, out)) && out == Some(stmt) && p2 == st2);
        assert(seq![stmt] + Seq::<StatementView>::empty() =~= seq![stmt]);
    }
    assert(closing[0] == TokenView::KeyWord(KeyWord::End));
    assert(parse_run(mid, closing) == Ok::<(ParserView, Seq<StatementView>), ParseErrorKind>(
        (init, seq![stmt]),
    )) by {
        assert(parse_step(mid, closing[0]) matches Ok((q1, out1)) && out1 is None && q1 == st1);
        assert(Seq::<StatementView>::empty() + seq![stmt] =~= seq![stmt]);
    }
    lemma_parse_run_concat(header, ts, closing);
    assert(Seq::<StatementView>::empty() + seq![stmt] =~= seq![stmt]);
}

/// A run over a single token is the step it takes.
proof fn lemma_parse_run_one(p: ParserView, t: TokenView)
    requires
        parse_step(p, t) is Ok,
    ensures
        ({
            let (p2, out) = parse_step(p, t).unwrap();
            parse_run(p, seq![t]) == Ok::<(ParserView, Seq<StatementView>), ParseErrorKind>(
                (p2, emitted_seq(out)),
            )
        }),
{
    let (p2, out) = parse_step(p, t).unwrap();
    assert(seq![t][0] == t);
    assert(seq![t].drop_first() =~= Seq::<TokenView>::empty());
    assert(parse_run(p2, seq![t].drop_first()) == Ok::<
        (ParserView, Seq<StatementView>),
        ParseErrorKind,
    >((p2, Seq::empty())));
    assert(emitted_seq(out) + Seq::<StatementView>::empty() =~= emitted_seq(out));
    assert(parse_run(p, seq![t]) == Ok::<(ParserView, Seq<StatementView>), ParseErrorKind>(
        (p2, emitted_seq(out)),
    ));
}

/// Inside a `for` header past its `in`, expression tokens only gather in the
/// buffer.
proof fn lemma_for_gather(p: ParserView, ts: Seq<TokenView>)
    requires
        p.state is For,
        p.buffer.len() >= 2,
        forall|i: int| 0 <= i < ts.len() ==> is_expression_token(#[trigger] ts[i]),
    ensures
        parse_run(p, ts) == Ok::<(ParserView, Seq<StatementView>), ParseErrorKind>(
            (ParserView { buffer: p.buffer + ts, ..p }, Seq::empty()),
        ),
    decreases ts.len(),
{
    if ts.len() == 0 {
        assert(p.buffer + ts =~= p.buffer);
        assert((ParserView { buffer: p.buffer + ts, ..p }) =~= p);
    } else {
        let p2 = ParserView { buffer: p.buffer.push(ts[0]), ..p };
        assert(parse_step(p, ts[0]) == Ok::<(ParserView, Option<StatementView>), ParseErrorKind>(
            (p2, None),
        ));
        lemma_for_gather(p2, ts.drop_first());
        assert(p.buffer.push(ts[0]) + ts.drop_first() =~= p.buffer + ts);
        assert(Seq::<StatementView>::empty() + Seq::<StatementView>::empty() =~= Seq::<
            StatementView,
        >::empty());
    }
}

/// The law of nested loops over source-order tokens: a whole `for` statement
/// — `for x in e1 .. e2 do`, then the body's tokens, then `end for ;` —
/// parses to exactly one statement, the loop whose bounds are the header's
/// two expressions and whose body is exactly what the tokens between the `do`
/// and the matching `end for` parse to on their own.
#[verifier::rlimit(100)]
pub proof fn lemma_for_statement(
    name: Seq<char>,
    from_toks: Seq<TokenView>,
    to_toks: Seq<TokenView>,
    body_toks: Seq<TokenView>,
)
    requires
        from_toks.len() >= 1,
        forall|i: int| 0 <= i < from_toks.len() ==> is_expression_token(#[trigger] from_toks[i]),
        forall|i: int| 0 <= i < to_toks.len() ==> is_expression_token(#[trigger] to_toks[i]),
        spec_parse_expression(from_toks) is Ok,
        spec_parse_expression(to_toks) is Ok,
        parse_spec(body_toks) is Ok,
    ensures
        parse_spec(
            seq![
                TokenView::KeyWord(KeyWord::For),
                TokenView::Identifier(name),
                TokenView::KeyWord(KeyWord::In),
            ] + from_toks + seq![TokenView::Range] + to_toks + seq![TokenView::KeyWord(KeyWord::Do)]
                + (body_toks + seq![
                TokenView::KeyWord(KeyWord::End),
                TokenView::KeyWord(KeyWord::For),
                TokenView::Semicolon,
            ]),
        ) == Ok::<Seq<StatementView>, ParseErrorKind>(
            seq![
                StatementView::For(
                    name,
                    spec_parse_expression(from_toks).unwrap(),
                    spec_parse_expression(to_toks).unwrap(),
                    parse_spec(body_toks).unwrap(),
                ),
            ],
        ),
{
    let init = init_parser_view();
    let h1 = seq![
        TokenView::KeyWord(KeyWord::For),
        TokenView::Identifier(name),
        TokenView::KeyWord(KeyWord::In),
    ];
    let fromv = spec_parse_expression(from_toks).unwrap();
    let tov = spec_parse_expression(to_toks).unwrap();
    let s = parse_spec(body_toks).unwrap();
    let closing = seq![
        TokenView::KeyWord(KeyWord::End),
        TokenView::KeyWord(KeyWord::For),
        TokenView::Semicolon,
    ];
    // The three tokens that open the header.
    let p_a = ParserView { state: ParseState::For, ..init };
    let p_b = ParserView { buffer: p_a.buffer.push(h1[1]), ..p_a };
    let p_c = ParserView { buffer: p_b.buffer.push(h1[2]), ..p_b };
    assert(parse_run(init, h1) == Ok::<(ParserView, Seq<StatementView>), ParseErrorKind>(
        (p_c, Seq::empty()),
    )) by {
        let r1 = h1.drop_first();
        let r0 = r1.drop_first();
        assert(r1 =~= seq![h1[1], h1[2]]);
        assert(r0 =~= seq![h1[2]]);
        assert(r0[0] == h1[2]);
        assert(r0.drop_first() =~= Seq::<TokenView>::empty());
        assert(Seq::<StatementView>::empty() + Seq::<StatementView>::empty() =~= Seq::<
            StatementView,
        >::empty());
        assert(parse_step(p_b, h1[2]) == Ok::<
            (ParserView, Option<StatementView>),
            ParseErrorKind,
        >((p_c, None)));
        assert(parse_run(p_c, r0.drop_first()) == Ok::<
            (ParserView, Seq<StatementView>),
            ParseErrorKind,
        >((p_c, Seq::empty())));
        assert(parse_run(p_b, r0) == Ok::<(ParserView, Seq<StatementView>), ParseErrorKind>(
            (p_c, Seq::empty()),
        ));
        assert(r1[0] == h1[1]);
        assert(parse_step(p_a, h1[1]) == Ok::<
            (ParserView, Option<StatementView>),
            ParseErrorKind,
        >((p_b, None)));
        assert(parse_run(p_a, r1) == Ok::<(ParserView, Seq<StatementView>), ParseErrorKind>(
            (p_c, Seq::empty()),
        ));
        assert(parse_step(init, h1[0]) == Ok::<
            (ParserView, Option<StatementView>),
            ParseErrorKind,
        >((p_a, None)));
    }
    // The lower bound's tokens gather.
    assert(p_c.buffer.len() == 2);
    lemma_for_gather(p_c, from_toks);
    let p_d = ParserView { buffer: p_c.buffer + from_toks, ..p_c };
    lemma_parse_run_concat(init, h1, from_toks);
    assert(Seq::<StatementView>::empty() + Seq::<StatementView>::empty() =~= Seq::<
        StatementView,
    >::empty());
    assert(parse_run(init, h1 + from_toks) == Ok::<
        (ParserView, Seq<StatementView>),
        ParseErrorKind,
    >((p_d, Seq::empty())));
    // The range sign.
    let rp = p_d.buffer.len();
    assert(rp == 2 + from_toks.len());
    let p_e = ParserView { buffer: p_d.buffer.push(TokenView::Range), range_ptr: rp, ..p_d };
    assert(parse_step(p_d, TokenView::Range) == Ok::<
        (ParserView, Option<StatementView>),
        ParseErrorKind,
    >((p_e, None)));
    lemma_parse_run_one(p_d, TokenView::Range);
    lemma_parse_run_concat(init, h1 + from_toks, seq![TokenView::Range]);
    assert(parse_run(init, h1 + from_toks + seq![TokenView::Range]) == Ok::<
        (ParserView, Seq<StatementView>),
        ParseErrorKind,
    >((p_e, Seq::empty())));
    // The upper bound's tokens gather.
    lemma_for_gather(p_e, to_toks);
    let p_f = ParserView { buffer: p_e.buffer + to_toks, ..p_e };
    lemma_parse_run_concat(init, h1 + from_toks + seq![TokenView::Range], to_toks);
    assert(parse_run(init, h1 + from_toks + seq![TokenView::Range] + to_toks) == Ok::<
        (ParserView, Seq<StatementView>),
        ParseErrorKind,
    >((p_f, Seq::empty())));
    // `do` closes the header and pushes the loop's frame.
    let f = FrameView { name: name, from: fromv, to: tov, body: Seq::empty() };
    let header_state = ParserView {
        state: ParseState::Normal,
        buffer: Seq::empty(),
        frames: seq![f],
        range_ptr: 0,
    };
    assert(parse_step(p_f, TokenView::KeyWord(KeyWord::Do)) == Ok::<
        (ParserView, Option<StatementView>),
        ParseErrorKind,
    >((header_state, None))) by {
        assert(p_f.buffer[0] == TokenView::Identifier(name));
        assert(p_f.buffer.subrange(2, p_f.range_ptr as int) =~= from_toks);
        assert(p_f.buffer.subrange(p_f.range_ptr as int + 1, p_f.buffer.len() as int)
            =~= to_toks);
        assert(init.frames.push(f) =~= seq![f]);
        assert(parse_step(p_f, TokenView::KeyWord(KeyWord::Do)).unwrap().0 =~= header_state);
    }
    lemma_parse_run_one(p_f, TokenView::KeyWord(KeyWord::Do));
    lemma_parse_run_concat(
        init,
        h1 + from_toks + seq![TokenView::Range] + to_toks,
        seq![TokenView::KeyWord(KeyWord::Do)],
    );
    let header_toks = h1 + from_toks + seq![TokenView::Range] + to_toks + seq![
        TokenView::KeyWord(KeyWord::Do),
    ];
    assert(parse_run(init, header_toks) == Ok::<
        (ParserView, Seq<StatementView>),
        ParseErrorKind,
    >((header_state, Seq::empty())));
    // The body gathers into the frame and `end for ;` emits the loop.
    lemma_for_loop_body(f, body_toks);
    assert(parse_run(header_state, body_toks + closing) == Ok::<
        (ParserView, Seq<StatementView>),
        ParseErrorKind,
    >((init, seq![StatementView::For(name, fromv, tov, s)])));
    lemma_parse_run_concat(init, header_toks, body_toks + closing);
    assert(Seq::<StatementView>::empty() + seq![StatementView::For(name, fromv, tov, s)]
        =~= seq![StatementView::For(name, fromv, tov, s)]);
}

/// Parsing is a pure function of the token sequence alone: identical token
/// sequences yield identical statement sequences, through whichever source
/// the tokens arrive and into whichever sink the statements go (see `parse`).
/// Repeated invocations of the parser on identical input therefore yield
/// identical results.
pub proof fn lemma_parse_deterministic(ts1: Seq<TokenView>, ts2: Seq<TokenView>)
    requires
        ts1 == ts2,
    ensures
        parse_spec(ts1) == parse_spec(ts2),
{
}

/// The binary operator an operator token denotes, if any.
fn binary_op_exec(op: Operator) -> (r: Option<BinaryOperator>)
    ensures
        r == binary_op_of(op),
{
    match op {
        Operator::Plus => Some(BinaryOperator::Plus),
        Operator::Minus => Some(BinaryOperator::Minus),
        Operator::Multiply => Some(BinaryOperator::Multiply),
        Operator::Divide => Some(BinaryOperator::Divide),
        Operator::LessThan => Some(BinaryOperator::LessThan),
        Operator::Equals => Some(BinaryOperator::Equals),
        Operator::And => Some(BinaryOperator::And),
        Operator::Not => None,
    }
}

} // verus!
