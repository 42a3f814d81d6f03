//! The parser and the semantic validator.
//!
//! Parsing is precedence climbing with one token of lookahead: a primary
//! expression (a literal, or a parenthesised group) is extended while the
//! lookahead binds tighter than the current level. Adjacent bare strings
//! concatenate into a single literal, which is what lets an unquoted phrase
//! stand as one free-text query. Every infix node is validated against the
//! task fields' types the moment it is built, so an ill-typed comparison
//! aborts the parse and no malformed tree ever comes out.
//!
//! The whole pipeline is pinned by [`spec_parse`]: a fuel-bounded
//! specification interpreter over the token sequence, which the executable
//! parser provably follows.

use vstd::prelude::*;
use crate::ast::{Expression, ExprModel, InfixExpression, InfixModel, AST};
use crate::lexer::{spec_lex, Lexer};
use crate::text::str_eq;
use crate::token::{dec_wf, is_op_token, spec_describe, spec_precedence, DecimalModel, Token, TokenModel};

verus! {

/// Why a query failed to parse: a message, and, where one was tracked, the
/// position and character at fault.
#[derive(Debug)]
pub struct ParseError {
    pos: usize,
    ch: char,
    msg: String,
}

/// Mathematical model of a [`ParseError`].
pub struct ParseErrorModel {
    pub pos: int,
    pub ch: char,
    pub msg: Seq<char>,
}

impl View for ParseError {
    type V = ParseErrorModel;

    closed spec fn view(&self) -> ParseErrorModel {
        ParseErrorModel { pos: self.pos as int, ch: self.ch, msg: self.msg@ }
    }
}

impl ParseError {
    /// A fresh error carrying `msg`, at no particular position.
    pub fn new(msg: &str) -> (r: ParseError)
        ensures
            r@.pos == 0,
            r@.ch == '\u{0}',
            r@.msg == msg@,
    {
        ParseError { pos: 0, ch: '\u{0}', msg: msg.to_owned() }
    }

    /// A fresh error taking ownership of a composed message.
    pub fn from_message(msg: String) -> (r: ParseError)
        ensures
            r@.pos == 0,
            r@.ch == '\u{0}',
            r@.msg == msg@,
    {
        ParseError { pos: 0, ch: '\u{0}', msg }
    }

    /// The same error, placed at position `pos`.
    pub fn at(self, pos: usize) -> (r: ParseError)
        ensures
            r@.pos == pos as int,
            r@.ch == self@.ch,
            r@.msg == self@.msg,
    {
        ParseError { pos, ch: self.ch, msg: self.msg }
    }

    /// The same error, blaming the character `ch`.
    pub fn bad_char(self, ch: char) -> (r: ParseError)
        ensures
            r@.pos == self@.pos,
            r@.ch == ch,
            r@.msg == self@.msg,
    {
        ParseError { pos: self.pos, ch, msg: self.msg }
    }

    /// The message this error carries.
    pub fn message(&self) -> (r: &str)
        ensures
            r@ == self@.msg,
    {
        self.msg.as_str()
    }
}

/// The comparison type a task field calls for.
#[derive(Debug, Clone, Copy, PartialEq, Eq, Structural)]
pub enum FieldType {
    StrField,
    DateField,
    NumField,
}

/// The type of each known field name, or nothing for an unknown field.
pub open spec fn spec_field_type(name: Seq<char>) -> Option<FieldType> {
    if name == "title"@ || name == "context"@ || name == "body"@ || name == "notes"@ {
        Some(FieldType::StrField)
    } else if name == "created_date"@ || name == "completed_date"@ {
        Some(FieldType::DateField)
    } else if name == "priority"@ {
        Some(FieldType::NumField)
    } else {
        None
    }
}

/// Message for a logical operator over a non-predicate operand.
pub open spec fn msg_bad_logical() -> Seq<char> {
    "logical operators can only compare other infix expressions or string literals"@
}

/// Message for a comparison whose left side is not a bare field name.
pub open spec fn msg_bad_field_expression() -> Seq<char> {
    "invalid field expression"@
}

/// Message for a comparison against an unknown field.
pub open spec fn msg_bad_field_name(name: Seq<char>) -> Seq<char> {
    "invalid field name: "@ + name
}

/// Message for a right-hand side whose kind does not fit the field.
pub open spec fn msg_bad_value(name: Seq<char>) -> Seq<char> {
    name + " can only be compared to a string got the wrong kind of value"@
}

/// The validator's verdict on one infix node: nothing when the node is
/// acceptable, or the message it is rejected with.
///
/// A logical operator accepts an infix node or a bare string (a free-text
/// sub-query) on its left; a comparison wants a known field name on the
/// left and a literal of that field's type on the right.
pub open spec fn spec_validate(infix: InfixModel) -> Option<Seq<char>> {
    if infix.op == TokenModel::AND || infix.op == TokenModel::OR {
        match infix.left {
            ExprModel::Infix(_) => None,
            ExprModel::StrLit(_) => None,
            _ => Some(msg_bad_logical()),
        }
    } else {
        match infix.left {
            ExprModel::StrLit(name) => match spec_field_type(name) {
                Some(FieldType::StrField) => match infix.right {
                    ExprModel::StrLit(_) => None,
                    _ => Some(msg_bad_value(name)),
                },
                Some(FieldType::DateField) => match infix.right {
                    ExprModel::DateLit(_) => None,
                    _ => Some(msg_bad_value(name)),
                },
                Some(FieldType::NumField) => match infix.right {
                    ExprModel::NumLit(_) => None,
                    _ => Some(msg_bad_value(name)),
                },
                None => Some(msg_bad_field_name(name)),
            },
            _ => Some(msg_bad_field_expression()),
        }
    }
}

/// One step of the specification parser: a parsed expression together with
/// how many tokens it consumed, a typed failure, or an exhausted fuel
/// bound. The executable parser always terminates, so its contracts only
/// ever mention the first two.
pub enum SpStep {
    Parsed { exp: ExprModel, used: int },
    Failed { msg: Seq<char> },
    OutOfFuel,
}

/// Message for an empty input where an expression was expected.
pub open spec fn msg_end_of_input() -> Seq<char> {
    "unexpected end of input"@
}

/// Message for a token that cannot begin an expression.
pub open spec fn msg_no_prefix(label: Seq<char>) -> Seq<char> {
    "no prefix func found: "@ + label
}

/// Message for a group whose closing parenthesis is missing.
pub open spec fn msg_missing_rp() -> Seq<char> {
    "unclosed group expression: missing )"@
}

/// Message for input that ends inside a parenthesised group.
pub open spec fn msg_group_eof() -> Seq<char> {
    "unexpected EOF parsing group expression"@
}

/// Message for input that ends where an operator was expected.
pub open spec fn msg_infix_eof() -> Seq<char> {
    "Attempted infix found EOF"@
}

/// Message for a non-operator token in operator position.
pub open spec fn msg_not_operator(label: Seq<char>) -> Seq<char> {
    label + " is not a valid operator"@
}

/// Message for concatenating onto something that is not a string literal.
pub open spec fn msg_concat_left() -> Seq<char> {
    "Expected an Expression::StrLiteral. If using a multi-word string in comparison make sure to quote it."@
}

/// The primary expression at the head of `toks`: a literal, or a
/// parenthesised group.
pub open spec fn sp_primary(toks: Seq<TokenModel>, fuel: nat) -> SpStep
    decreases fuel,
{
    if fuel == 0 {
        SpStep::OutOfFuel
    } else if toks.len() == 0 {
        SpStep::Failed { msg: msg_end_of_input() }
    } else {
        match toks[0] {
            TokenModel::Str(s) => SpStep::Parsed { exp: ExprModel::StrLit(s), used: 1 },
            TokenModel::Date(t) => SpStep::Parsed { exp: ExprModel::DateLit(t), used: 1 },
            TokenModel::Float(d) => SpStep::Parsed { exp: ExprModel::NumLit(d), used: 1 },
            TokenModel::LP => match sp_group(toks.skip(1), (fuel - 1) as nat) {
                SpStep::Parsed { exp, used } => SpStep::Parsed { exp, used: used + 1 },
                e => e,
            },
            t => SpStep::Failed { msg: msg_no_prefix(spec_describe(t)) },
        }
    }
}

/// The rest of a parenthesised group, the opening parenthesis already
/// consumed: a full expression, then the closing parenthesis.
pub open spec fn sp_group(toks: Seq<TokenModel>, fuel: nat) -> SpStep
    decreases fuel,
{
    if fuel == 0 {
        SpStep::OutOfFuel
    } else {
        match sp_expr(toks, 0, (fuel - 1) as nat) {
            SpStep::Parsed { exp, used } => if used < toks.len() && toks[used] == TokenModel::RP {
                SpStep::Parsed { exp, used: used + 1 }
            } else if used < toks.len() {
                SpStep::Failed { msg: msg_missing_rp() }
            } else {
                SpStep::Failed { msg: msg_group_eof() }
            },
            e => e,
        }
    }
}

/// One infix step: the operator at the head of `toks`, then its right
/// operand at the operator's own precedence, then validation.
pub open spec fn sp_infix(left: ExprModel, toks: Seq<TokenModel>, fuel: nat) -> SpStep
    decreases fuel,
{
    if fuel == 0 {
        SpStep::OutOfFuel
    } else if toks.len() == 0 {
        SpStep::Failed { msg: msg_infix_eof() }
    } else if !is_op_token(toks[0]) {
        SpStep::Failed { msg: msg_not_operator(spec_describe(toks[0])) }
    } else {
        let op = toks[0];
        match sp_expr(toks.skip(1), spec_precedence(op), (fuel - 1) as nat) {
            SpStep::Parsed { exp, used } => {
                let node = InfixModel { left, op, right: exp };
                match spec_validate(node) {
                    None => SpStep::Parsed { exp: ExprModel::Infix(Box::new(node)), used: used + 1 },
                    Some(m) => SpStep::Failed { msg: m },
                }
            },
            e => e,
        }
    }
}

/// The climbing loop: while the lookahead binds tighter than `prec` (or
/// `prec` is the string level, so adjacent strings always join), extend
/// `left` by an infix step or by string concatenation.
pub open spec fn sp_climb(left: ExprModel, toks: Seq<TokenModel>, prec: int, fuel: nat) -> SpStep
    decreases fuel,
{
    if fuel == 0 {
        SpStep::OutOfFuel
    } else if toks.len() == 0 {
        SpStep::Parsed { exp: left, used: 0 }
    } else if !(prec < spec_precedence(toks[0]) || prec == 1) {
        SpStep::Parsed { exp: left, used: 0 }
    } else if is_op_token(toks[0]) {
        match sp_infix(left, toks, (fuel - 1) as nat) {
            SpStep::Parsed { exp, used } => match sp_climb(
                exp,
                toks.skip(used),
                prec,
                (fuel - 1) as nat,
            ) {
                SpStep::Parsed { exp: e2, used: u2 } => SpStep::Parsed { exp: e2, used: used + u2 },
                e => e,
            },
            e => e,
        }
    } else if toks[0] is Str {
        match left {
            ExprModel::StrLit(s1) => {
                let joined = ExprModel::StrLit(s1 + seq![' '] + toks[0]->Str_0);
                match sp_climb(joined, toks.skip(1), prec, (fuel - 1) as nat) {
                    SpStep::Parsed { exp: e2, used: u2 } => SpStep::Parsed { exp: e2, used: 1 + u2 },
                    e => e,
                }
            },
            _ => SpStep::Failed { msg: msg_concat_left() },
        }
    } else {
        SpStep::Parsed { exp: left, used: 0 }
    }
}

/// A full expression: a primary, then the climb at `prec`.
pub open spec fn sp_expr(toks: Seq<TokenModel>, prec: int, fuel: nat) -> SpStep
    decreases fuel,
{
    if fuel == 0 {
        SpStep::OutOfFuel
    } else {
        match sp_primary(toks, (fuel - 1) as nat) {
            SpStep::Parsed { exp, used } => match sp_climb(
                exp,
                toks.skip(used),
                prec,
                (fuel - 1) as nat,
            ) {
                SpStep::Parsed { exp: e2, used: u2 } => SpStep::Parsed { exp: e2, used: used + u2 },
                e => e,
            },
            e => e,
        }
    }
}

/// What parsing a token sequence yields. The fuel bound is generous enough
/// for the executable parser to reach it on every input, so this is total
/// on everything the parser can meet: it never comes out as `OutOfFuel`.
pub open spec fn spec_parse(toks: Seq<TokenModel>) -> SpStep {
    sp_expr(toks, 0, (3 * toks.len() + 3) as nat)
}

/// What parsing a whole query text yields.
pub open spec fn spec_parse_text(query: Seq<char>) -> SpStep {
    spec_parse(spec_lex(query))
}

/// Once any fuel settles the primary parse, more fuel gives the same
/// answer.
pub proof fn lemma_mono_primary(toks: Seq<TokenModel>, f1: nat, f2: nat)
    requires
        f1 <= f2,
        !(sp_primary(toks, f1) is OutOfFuel),
    ensures
        sp_primary(toks, f2) == sp_primary(toks, f1),
    decreases f1,
{
    if toks.len() > 0 && toks[0] is LP {
        if !(sp_group(toks.skip(1), (f1 - 1) as nat) is OutOfFuel) {
            lemma_mono_group(toks.skip(1), (f1 - 1) as nat, (f2 - 1) as nat);
        }
    }
}

/// Once any fuel settles a group parse, more fuel gives the same answer.
pub proof fn lemma_mono_group(toks: Seq<TokenModel>, f1: nat, f2: nat)
    requires
        f1 <= f2,
        !(sp_group(toks, f1) is OutOfFuel),
    ensures
        sp_group(toks, f2) == sp_group(toks, f1),
    decreases f1,
{
    if !(sp_expr(toks, 0, (f1 - 1) as nat) is OutOfFuel) {
        lemma_mono_expr(toks, 0, (f1 - 1) as nat, (f2 - 1) as nat);
    }
}

/// Once any fuel settles an infix step, more fuel gives the same answer.
pub proof fn lemma_mono_infix(left: ExprModel, toks: Seq<TokenModel>, f1: nat, f2: nat)
    requires
        f1 <= f2,
        !(sp_infix(left, toks, f1) is OutOfFuel),
    ensures
        sp_infix(left, toks, f2) == sp_infix(left, toks, f1),
    decreases f1,
{
    if toks.len() > 0 && is_op_token(toks[0]) {
        if !(sp_expr(toks.skip(1), spec_precedence(toks[0]), (f1 - 1) as nat) is OutOfFuel) {
            lemma_mono_expr(
                toks.skip(1),
                spec_precedence(toks[0]),
                (f1 - 1) as nat,
                (f2 - 1) as nat,
            );
        }
    }
}

/// Once any fuel settles the climb, more fuel gives the same answer.
pub proof fn lemma_mono_climb(left: ExprModel, toks: Seq<TokenModel>, prec: int, f1: nat, f2: nat)
    requires
        f1 <= f2,
        !(sp_climb(left, toks, prec, f1) is OutOfFuel),
    ensures
        sp_climb(left, toks, prec, f2) == sp_climb(left, toks, prec, f1),
    decreases f1,
{
    if toks.len() == 0 {
    } else if !(prec < spec_precedence(toks[0]) || prec == 1) {
    } else if is_op_token(toks[0]) {
        if !(sp_infix(left, toks, (f1 - 1) as nat) is OutOfFuel) {
            lemma_mono_infix(left, toks, (f1 - 1) as nat, (f2 - 1) as nat);
            match sp_infix(left, toks, (f1 - 1) as nat) {
                SpStep::Parsed { exp, used } => {
                    if !(sp_climb(exp, toks.skip(used), prec, (f1 - 1) as nat) is OutOfFuel) {
                        lemma_mono_climb(
                            exp,
                            toks.skip(used),
                            prec,
                            (f1 - 1) as nat,
                            (f2 - 1) as nat,
                        );
                    }
                },
                _ => {},
            }
        }
    } else if toks[0] is Str {
        match left {
            ExprModel::StrLit(s1) => {
                let joined = ExprModel::StrLit(s1 + seq![' '] + toks[0]->Str_0);
                if !(sp_climb(joined, toks.skip(1), prec, (f1 - 1) as nat) is OutOfFuel) {
                    lemma_mono_climb(joined, toks.skip(1), prec, (f1 - 1) as nat, (f2 - 1) as nat);
                }
            },
            _ => {},
        }
    }
}

/// Once any fuel settles an expression parse, more fuel gives the same
/// answer.
pub proof fn lemma_mono_expr(toks: Seq<TokenModel>, prec: int, f1: nat, f2: nat)
    requires
        f1 <= f2,
        !(sp_expr(toks, prec, f1) is OutOfFuel),
    ensures
        sp_expr(toks, prec, f2) == sp_expr(toks, prec, f1),
    decreases f1,
{
    if !(sp_primary(toks, (f1 - 1) as nat) is OutOfFuel) {
        lemma_mono_primary(toks, (f1 - 1) as nat, (f2 - 1) as nat);
        match sp_primary(toks, (f1 - 1) as nat) {
            SpStep::Parsed { exp, used } => {
                if !(sp_climb(exp, toks.skip(used), prec, (f1 - 1) as nat) is OutOfFuel) {
                    lemma_mono_climb(exp, toks.skip(used), prec, (f1 - 1) as nat, (f2 - 1) as nat);
                }
            },
            _ => {},
        }
    }
}

/// The semantic pass: each infix node is checked here as the parser builds
/// it.
pub struct Validator;

impl Validator {
    /// Accept the node only if its right side is a string literal.
    pub fn string_field(field_name: &str, right: &Expression) -> (r: Result<(), ParseError>)
        ensures
            match r {
                Ok(()) => right@ is StrLit,
                Err(e) => !(right@ is StrLit) && e@.msg == msg_bad_value(field_name@) && e@.pos
                    == 0 && e@.ch == '\u{0}',
            },
    {
        match right {
            Expression::StrLiteral(_) => Ok(()),
            _ => Err(
                ParseError::from_message(
                    field_name.to_owned().concat(
                        " can only be compared to a string got the wrong kind of value",
                    ),
                ),
            ),
        }
    }

    /// Accept the node only if its right side is a date literal.
    pub fn date_field(field_name: &str, right: &Expression) -> (r: Result<(), ParseError>)
        ensures
            match r {
                Ok(()) => right@ is DateLit,
                Err(e) => !(right@ is DateLit) && e@.msg == msg_bad_value(field_name@) && e@.pos
                    == 0 && e@.ch == '\u{0}',
            },
    {
        match right {
            Expression::DateLiteral(_) => Ok(()),
            _ => Err(
                ParseError::from_message(
                    field_name.to_owned().concat(
                        " can only be compared to a string got the wrong kind of value",
                    ),
                ),
            ),
        }
    }

    /// Accept the node only if its right side is a number literal.
    pub fn number_field(field_name: &str, right: &Expression) -> (r: Result<(), ParseError>)
        ensures
            match r {
                Ok(()) => right@ is NumLit,
                Err(e) => !(right@ is NumLit) && e@.msg == msg_bad_value(field_name@) && e@.pos
                    == 0 && e@.ch == '\u{0}',
            },
    {
        match right {
            Expression::NumLiteral(_) => Ok(()),
            _ => Err(
                ParseError::from_message(
                    field_name.to_owned().concat(
                        " can only be compared to a string got the wrong kind of value",
                    ),
                ),
            ),
        }
    }

    /// Check a comparison node: known field on the left, a literal of the
    /// field's type on the right.
    pub fn validate_comparison(infix: &InfixExpression) -> (r: Result<(), ParseError>)
        requires
            !(infix@.op == TokenModel::AND || infix@.op == TokenModel::OR),
        ensures
            match r {
                Ok(()) => spec_validate(infix@) is None,
                Err(e) => spec_validate(infix@) == Some(e@.msg) && e@.pos == 0 && e@.ch
                    == '\u{0}',
            },
    {
        match &infix.left {
            Expression::StrLiteral(field) => {
                if str_eq(field.as_str(), "title") || str_eq(field.as_str(), "context") || str_eq(
                    field.as_str(),
                    "body",
                ) || str_eq(field.as_str(), "notes") {
                    Validator::string_field(field.as_str(), &infix.right)
                } else if str_eq(field.as_str(), "created_date") || str_eq(
                    field.as_str(),
                    "completed_date",
                ) {
                    Validator::date_field(field.as_str(), &infix.right)
                } else if str_eq(field.as_str(), "priority") {
                    Validator::number_field(field.as_str(), &infix.right)
                } else {
                    Err(
                        ParseError::from_message(
                            String::from_str("invalid field name: ").concat(field.as_str()),
                        ),
                    )
                }
            },
            _ => Err(ParseError::new("invalid field expression")),
        }
    }

    /// Check a logical node: the left side must itself be a predicate,
    /// that is an infix node or a free-text string literal.
    pub fn validate_logical(infix: &InfixExpression) -> (r: Result<(), ParseError>)
        requires
            infix@.op == TokenModel::AND || infix@.op == TokenModel::OR,
        ensures
            match r {
                Ok(()) => spec_validate(infix@) is None,
                Err(e) => spec_validate(infix@) == Some(e@.msg) && e@.pos == 0 && e@.ch
                    == '\u{0}',
            },
    {
        match &infix.left {
            Expression::Infix(_) => Ok(()),
            Expression::StrLiteral(_) => Ok(()),
            _ => Err(
                ParseError::new(
                    "logical operators can only compare other infix expressions or string literals",
                ),
            ),
        }
    }

    /// Check one freshly built infix node.
    pub fn validate(infix: &InfixExpression) -> (r: Result<(), ParseError>)
        ensures
            match r {
                Ok(()) => spec_validate(infix@) is None,
                Err(e) => spec_validate(infix@) == Some(e@.msg) && e@.pos == 0 && e@.ch
                    == '\u{0}',
            },
    {
        match &infix.operator {
            Token::AND => Validator::validate_logical(infix),
            Token::OR => Validator::validate_logical(infix),
            _ => Validator::validate_comparison(infix),
        }
    }
}

/// The parser: a token sequence and a cursor with one token of lookahead.
pub struct Parser {
    tokens: Vec<Token>,
    pos: usize,
}

impl Parser {
    /// The token sequence being parsed.
    pub closed spec fn spec_toks(&self) -> Seq<TokenModel> {
        self.tokens@.map_values(|t: Token| t@)
    }

    /// How many tokens have been consumed.
    pub closed spec fn spec_pos(&self) -> int {
        self.pos as int
    }

    /// The tokens not yet consumed.
    pub open spec fn rem(&self) -> Seq<TokenModel> {
        self.spec_toks().skip(self.spec_pos())
    }

    /// The cursor never leaves the token sequence.
    pub closed spec fn wf(&self) -> bool {
        self.pos <= self.tokens@.len()
    }

    /// Lex `query` and stand ready to parse its tokens.
    pub fn new(query: &str) -> (r: Parser)
        ensures
            r.wf(),
            r.spec_toks() == spec_lex(query@),
            r.spec_pos() == 0,
    {
        let tokens = Lexer::tokens(query);
        Parser { tokens, pos: 0 }
    }

    /// Consume and return the next token, if any is left.
    fn next_token(&mut self) -> (r: Option<Token>)
        requires
            old(self).wf(),
        ensures
            final(self).wf(),
            final(self).spec_toks() == old(self).spec_toks(),
            match r {
                None => old(self).rem().len() == 0 && final(self).spec_pos() == old(self).spec_pos(),
                Some(t) => old(self).rem().len() > 0 && t@ == old(self).rem()[0] && final(self).spec_pos() == old(self).spec_pos() + 1,
            },
    {
        if self.pos < self.tokens.len() {
            let t = self.tokens[self.pos].duplicate();
            self.pos = self.pos + 1;
            Some(t)
        } else {
            None
        }
    }

    /// Parse one whole query held by this parser.
    pub fn parse(&mut self) -> (r: Result<AST, ParseError>)
        requires
            old(self).wf(),
        ensures
            final(self).wf(),
            match r {
                Ok(ast) => spec_parse(old(self).rem()) == (SpStep::Parsed {
                    exp: ast@,
                    used: final(self).spec_pos() - old(self).spec_pos(),
                }),
                Err(pe) => spec_parse(old(self).rem()) == (SpStep::Failed { msg: pe@.msg })
                    && pe@.pos == 0 && pe@.ch == '\u{0}',
            },
    {
        match self.parse_expression(0) {
            Ok(e) => Ok(AST { expression: e }),
            Err(pe) => Err(pe),
        }
    }

    /// Parse an expression at binding level `prec`: a primary expression,
    /// extended by climbing while the lookahead binds tighter.
    fn parse_expression(&mut self, prec: u8) -> (r: Result<Expression, ParseError>)
        requires
            old(self).wf(),
        ensures
            final(self).wf(),
            final(self).spec_toks() == old(self).spec_toks(),
            old(self).spec_pos() <= final(self).spec_pos(),
            match r {
                Ok(e) => sp_expr(old(self).rem(), prec as int, (3 * old(self).rem().len()
                    + 3) as nat) == (SpStep::Parsed {
                    exp: e@,
                    used: final(self).spec_pos() - old(self).spec_pos(),
                }) && old(self).spec_pos() < final(self).spec_pos(),
                Err(pe) => sp_expr(old(self).rem(), prec as int, (3 * old(self).rem().len()
                    + 3) as nat) == (SpStep::Failed { msg: pe@.msg }) && pe@.pos == 0 && pe@.ch
                    == '\u{0}',
            },
        decreases old(self).spec_toks().len() - old(self).spec_pos(), 3int,
    {
        let ghost toks0 = self.rem();
        let ghost n = toks0.len() as int;
        let left = match self.parse_primary() {
            Ok(e) => e,
            Err(pe) => {
                return Err(pe);
            },
        };
        let ghost pos1 = self.spec_pos();
        let ghost toks1 = self.rem();
        let ghost u1 = pos1 - old(self).spec_pos();
        let r = self.parse_climb(left, prec);
        proof {
            assert(toks1 =~= toks0.skip(u1));
            lemma_mono_climb(
                sp_primary_exp(toks0, (3 * n + 2) as nat),
                toks1,
                prec as int,
                (3 * toks1.len() + 3) as nat,
                (3 * n + 2) as nat,
            );
        }
        r
    }

    /// Parse a primary expression: a literal token, or a parenthesised
    /// group introduced by `(`.
    fn parse_primary(&mut self) -> (r: Result<Expression, ParseError>)
        requires
            old(self).wf(),
        ensures
            final(self).wf(),
            final(self).spec_toks() == old(self).spec_toks(),
            old(self).spec_pos() <= final(self).spec_pos(),
            match r {
                Ok(e) => sp_primary(old(self).rem(), (3 * old(self).rem().len() + 2) as nat)
                    == (SpStep::Parsed {
                    exp: e@,
                    used: final(self).spec_pos() - old(self).spec_pos(),
                }) && old(self).spec_pos() < final(self).spec_pos(),
                Err(pe) => sp_primary(old(self).rem(), (3 * old(self).rem().len() + 2) as nat)
                    == (SpStep::Failed { msg: pe@.msg }) && pe@.pos == 0 && pe@.ch == '\u{0}',
            },
        decreases old(self).spec_toks().len() - old(self).spec_pos(), 2int,
    {
        let ghost toks0 = self.rem();
        match self.next_token() {
            None => Err(ParseError::new("unexpected end of input")),
            Some(t) => match t {
                Token::Str(s) => Ok(Expression::StrLiteral(s)),
                Token::Float(d) => Ok(Expression::NumLiteral(d)),
                Token::Date(ts) => Ok(Expression::DateLiteral(ts)),
                Token::LP => {
                    let ghost toks1 = self.rem();
                    let res = self.parse_grouped_expression();
                    proof {
                        assert(toks1 =~= toks0.skip(1));
                    }
                    res
                },
                other => Err(
                    ParseError::from_message(
                        String::from_str("no prefix func found: ").concat(other.describe()),
                    ),
                ),
            },
        }
    }

    /// Parse the rest of a group whose `(` has just been consumed: a full
    /// expression, then the matching `)`.
    fn parse_grouped_expression(&mut self) -> (r: Result<Expression, ParseError>)
        requires
            old(self).wf(),
        ensures
            final(self).wf(),
            final(self).spec_toks() == old(self).spec_toks(),
            old(self).spec_pos() <= final(self).spec_pos(),
            match r {
                Ok(e) => sp_group(old(self).rem(), (3 * old(self).rem().len() + 4) as nat)
                    == (SpStep::Parsed {
                    exp: e@,
                    used: final(self).spec_pos() - old(self).spec_pos(),
                }) && old(self).spec_pos() < final(self).spec_pos(),
                Err(pe) => sp_group(old(self).rem(), (3 * old(self).rem().len() + 4) as nat)
                    == (SpStep::Failed { msg: pe@.msg }) && pe@.pos == 0 && pe@.ch == '\u{0}',
            },
        decreases old(self).spec_toks().len() - old(self).spec_pos(), 4int,
    {
        let exp = match self.parse_expression(0) {
            Ok(e) => e,
            Err(pe) => {
                return Err(pe);
            },
        };
        if self.pos < self.tokens.len() {
            let is_rp = match &self.tokens[self.pos] {
                Token::RP => true,
                _ => false,
            };
            if is_rp {
                self.pos = self.pos + 1;
                Ok(exp)
            } else {
                Err(ParseError::new("unclosed group expression: missing )"))
            }
        } else {
            Err(ParseError::new("unexpected EOF parsing group expression"))
        }
    }

    /// Consume an operator and its right operand, build the infix node,
    /// and validate it before handing it back.
    fn parse_infix_exp(&mut self, left: Expression) -> (r: Result<Expression, ParseError>)
        requires
            old(self).wf(),
        ensures
            final(self).wf(),
            final(self).spec_toks() == old(self).spec_toks(),
            old(self).spec_pos() <= final(self).spec_pos(),
            match r {
                Ok(e) => sp_infix(left@, old(self).rem(), (3 * old(self).rem().len()
                    + 2) as nat) == (SpStep::Parsed {
                    exp: e@,
                    used: final(self).spec_pos() - old(self).spec_pos(),
                }) && old(self).spec_pos() < final(self).spec_pos(),
                Err(pe) => sp_infix(left@, old(self).rem(), (3 * old(self).rem().len()
                    + 2) as nat) == (SpStep::Failed { msg: pe@.msg }) && pe@.pos == 0 && pe@.ch
                    == '\u{0}',
            },
        decreases old(self).spec_toks().len() - old(self).spec_pos(), 1int,
    {
        let ghost toks0 = self.rem();
        let op = match self.next_token() {
            None => {
                return Err(ParseError::new("Attempted infix found EOF"));
            },
            Some(t) => t,
        };
        if !op.is_operator() {
            return Err(
                ParseError::from_message(
                    op.describe().to_owned().concat(" is not a valid operator"),
                ),
            );
        }
        let opprec = op.precedence();
        let ghost toks1 = self.rem();
        let right = match self.parse_expression(opprec) {
            Ok(e) => e,
            Err(pe) => {
                proof {
                    assert(toks1 =~= toks0.skip(1));
                    lemma_mono_expr(
                        toks1,
                        opprec as int,
                        (3 * toks1.len() + 3) as nat,
                        (3 * toks0.len() + 1) as nat,
                    );
                }
                return Err(pe);
            },
        };
        proof {
            assert(toks1 =~= toks0.skip(1));
            lemma_mono_expr(
                toks1,
                opprec as int,
                (3 * toks1.len() + 3) as nat,
                (3 * toks0.len() + 1) as nat,
            );
        }
        let node = InfixExpression { left, operator: op, right };
        match Validator::validate(&node) {
            Ok(()) => Ok(Expression::Infix(Box::new(node))),
            Err(pe) => Err(pe),
        }
    }

    /// The climbing loop: while the lookahead binds tighter than `prec`
    /// (or `prec` is the string level), extend `left` by an infix node or
    /// by string concatenation.
    fn parse_climb(&mut self, left: Expression, prec: u8) -> (r: Result<Expression, ParseError>)
        requires
            old(self).wf(),
        ensures
            final(self).wf(),
            final(self).spec_toks() == old(self).spec_toks(),
            old(self).spec_pos() <= final(self).spec_pos(),
            match r {
                Ok(e) => sp_climb(left@, old(self).rem(), prec as int, (3 * old(self).rem().len() + 3) as nat) == (SpStep::Parsed {
                    exp: e@,
                    used: final(self).spec_pos() - old(self).spec_pos(),
                }),
                Err(pe) => sp_climb(left@, old(self).rem(), prec as int, (3 * old(self).rem().len() + 3) as nat) == (SpStep::Failed { msg: pe@.msg }) && pe@.pos == 0
                    && pe@.ch == '\u{0}',
            },
        decreases old(self).spec_toks().len() - old(self).spec_pos(), 2int,
    {
        let ghost toks0 = self.rem();
        let ghost fc = (3 * toks0.len() + 3) as nat;
        if self.pos == self.tokens.len() {
            return Ok(left);
        }
        let tp = self.tokens[self.pos].precedence();
        if !(prec < tp || prec == 1) {
            return Ok(left);
        }
        let is_op = self.tokens[self.pos].is_operator();
        if is_op {
            let nl = match self.parse_infix_exp(left) {
                Ok(e) => e,
                Err(pe) => {
                    return Err(pe);
                },
            };
            let ghost toks2 = self.rem();
            let ghost used1 = self.spec_pos() - old(self).spec_pos();
            let r = self.parse_climb(nl, prec);
            proof {
                assert(toks2 =~= toks0.skip(used1));
                lemma_mono_climb(
                    nl@,
                    toks2,
                    prec as int,
                    (3 * toks2.len() + 3) as nat,
                    (fc - 1) as nat,
                );
                lemma_mono_infix(left@, toks0, (3 * toks0.len() + 2) as nat, (fc - 1) as nat);
            }
            r
        } else {
            let is_str = match &self.tokens[self.pos] {
                Token::Str(_) => true,
                _ => false,
            };
            if is_str {
                let nl = match self.concat(left) {
                    Ok(e) => e,
                    Err(pe) => {
                        return Err(pe);
                    },
                };
                let ghost toks2 = self.rem();
                let r = self.parse_climb(nl, prec);
                proof {
                    assert(toks2 =~= toks0.skip(1));
                    lemma_mono_climb(
                        nl@,
                        toks2,
                        prec as int,
                        (3 * toks2.len() + 3) as nat,
                        (fc - 1) as nat,
                    );
                }
                r
            } else {
                Ok(left)
            }
        }
    }

    /// Join the string literal `left` and the string token under the
    /// cursor into one literal, separated by a single space.
    fn concat(&mut self, left: Expression) -> (r: Result<Expression, ParseError>)
        requires
            old(self).wf(),
            old(self).rem().len() > 0,
            old(self).rem()[0] is Str,
        ensures
            final(self).wf(),
            final(self).spec_toks() == old(self).spec_toks(),
            match r {
                Ok(e) => left@ is StrLit && final(self).spec_pos() == old(self).spec_pos() + 1
                    && e@ == ExprModel::StrLit(left@->StrLit_0 + seq![' '] + old(self).rem()[0]->Str_0),
                Err(pe) => !(left@ is StrLit) && final(self).spec_pos() == old(self).spec_pos()
                    && pe@.msg == msg_concat_left() && pe@.pos == 0 && pe@.ch == '\u{0}',
            },
    {
        match left {
            Expression::StrLiteral(s1) => {
                match self.next_token() {
                    Some(Token::Str(s2)) => {
                        let joined = s1.concat(" ").concat(s2.as_str());
                        proof {
                            reveal_strlit(" ");
                            assert(" "@ =~= seq![' ']);
                        }
                        Ok(Expression::StrLiteral(joined))
                    },
                    _ => Err(ParseError::new("expected a string or field")),
                }
            },
            _ => Err(
                ParseError::new(
                    "Expected an Expression::StrLiteral. If using a multi-word string in comparison make sure to quote it.",
                ),
            ),
        }
    }
}

/// The expression a settled primary parse yields; a helper name for
/// relating the climb that follows it.
pub open spec fn sp_primary_exp(toks: Seq<TokenModel>, fuel: nat) -> ExprModel {
    match sp_primary(toks, fuel) {
        SpStep::Parsed { exp, used } => exp,
        _ => arbitrary(),
    }
}

/// Every token of the sequence is a bare string.
pub open spec fn all_string_tokens(toks: Seq<TokenModel>) -> bool {
    forall|i: int| 0 <= i < toks.len() ==> (#[trigger] toks[i]) is Str
}

/// `acc` extended by each token's text in turn, one space between words.
pub open spec fn joined_text(acc: Seq<char>, toks: Seq<TokenModel>) -> Seq<char>
    decreases toks.len(),
{
    if toks.len() == 0 {
        acc
    } else {
        joined_text(acc + seq![' '] + toks[0]->Str_0, toks.skip(1))
    }
}

/// Climbing over bare strings only concatenates: from a string literal,
/// every following string token is folded in with a single joining space.
proof fn lemma_climb_all_strings(acc: Seq<char>, toks: Seq<TokenModel>, fuel: nat)
    requires
        all_string_tokens(toks),
        fuel > toks.len(),
    ensures
        sp_climb(ExprModel::StrLit(acc), toks, 0, fuel) == (SpStep::Parsed {
            exp: ExprModel::StrLit(joined_text(acc, toks)),
            used: toks.len() as int,
        }),
    decreases toks.len(),
{
    if toks.len() > 0 {
        assert(toks[0] is Str);
        assert(forall|i: int|
            0 <= i < toks.skip(1).len() ==> (#[trigger] toks.skip(1)[i]) is Str);
        lemma_climb_all_strings(acc + seq![' '] + toks[0]->Str_0, toks.skip(1), (fuel - 1) as nat);
    }
}

/// An input of bare words alone parses to a single string literal: the
/// words joined by single spaces. This is the free-text query form, with
/// whitespace runs of the original text normalised away by the lexer.
pub proof fn lemma_parse_bare_strings(toks: Seq<TokenModel>)
    requires
        toks.len() > 0,
        all_string_tokens(toks),
    ensures
        spec_parse(toks) == (SpStep::Parsed {
            exp: ExprModel::StrLit(joined_text(toks[0]->Str_0, toks.skip(1))),
            used: toks.len() as int,
        }),
{
    let f = (3 * toks.len() + 3) as nat;
    assert(toks[0] is Str);
    assert(sp_primary(toks, (f - 1) as nat) == (SpStep::Parsed {
        exp: ExprModel::StrLit(toks[0]->Str_0),
        used: 1,
    }));
    assert(forall|i: int| 0 <= i < toks.skip(1).len() ==> (#[trigger] toks.skip(1)[i]) is Str);
    lemma_climb_all_strings(toks[0]->Str_0, toks.skip(1), (f - 1) as nat);
}

/// The word texts joined onto `acc`, one space between words.
pub open spec fn joined_words(acc: Seq<char>, ws: Seq<Seq<char>>) -> Seq<char>
    decreases ws.len(),
{
    if ws.len() == 0 {
        acc
    } else {
        joined_words(acc + seq![' '] + ws[0], ws.skip(1))
    }
}

/// Joining word texts and joining their string tokens agree.
proof fn lemma_joined_words_map(acc: Seq<char>, ws: Seq<Seq<char>>)
    ensures
        joined_text(acc, ws.map_values(|w: Seq<char>| TokenModel::Str(w))) == joined_words(acc, ws),
    decreases ws.len(),
{
    if ws.len() > 0 {
        assert(ws.map_values(|w: Seq<char>| TokenModel::Str(w)).skip(1) =~= ws.skip(1).map_values(
            |w: Seq<char>| TokenModel::Str(w),
        ));
        lemma_joined_words_map(acc + seq![' '] + ws[0], ws.skip(1));
    }
}

/// A query text of letters and spaces alone, spelling no reserved word,
/// parses to a single string literal: its words joined by single spaces —
/// the text with whitespace runs normalised.
pub proof fn lemma_free_text_query(s: Seq<char>)
    requires
        crate::lexer::only_letters_and_spaces(s),
        crate::lexer::no_reserved_words(s),
        crate::lexer::words_from(s, 0).len() > 0,
    ensures
        spec_parse_text(s) == (SpStep::Parsed {
            exp: ExprModel::StrLit(
                joined_words(
                    crate::lexer::words_from(s, 0)[0],
                    crate::lexer::words_from(s, 0).skip(1),
                ),
            ),
            used: crate::lexer::words_from(s, 0).len() as int,
        }),
{
    crate::lexer::lemma_lex_letters_from(s, 0);
    let ws = crate::lexer::words_from(s, 0);
    let toks = ws.map_values(|w: Seq<char>| TokenModel::Str(w));
    assert(spec_lex(s) == toks);
    assert(toks.len() == ws.len());
    assert(toks[0] == TokenModel::Str(ws[0]));
    lemma_parse_bare_strings(toks);
    assert(toks.skip(1) =~= ws.skip(1).map_values(|w: Seq<char>| TokenModel::Str(w)));
    lemma_joined_words_map(ws[0], ws.skip(1));
}

/// A comparison of a known string-typed field with a one-word value
/// always parses and validates, whatever the value: the tree is exactly
/// the infix node `field = value`.
pub proof fn lemma_string_field_comparison_shape(field: Seq<char>, value: Seq<char>)
    requires
        spec_field_type(field) == Some(FieldType::StrField),
    ensures
        spec_parse(
            seq![TokenModel::Str(field), TokenModel::EQ, TokenModel::Str(value)],
        ) == (SpStep::Parsed {
            exp: ExprModel::Infix(
                Box::new(
                    InfixModel {
                        left: ExprModel::StrLit(field),
                        op: TokenModel::EQ,
                        right: ExprModel::StrLit(value),
                    },
                ),
            ),
            used: 3,
        }),
{
    let toks = seq![TokenModel::Str(field), TokenModel::EQ, TokenModel::Str(value)];
    lemma_parse_field_op_literal(toks, field, TokenModel::EQ, ExprModel::StrLit(value));
}

/// `priority` compared with a number always parses and validates: the
/// tree is exactly the infix node `priority > number`.
pub proof fn lemma_priority_number_comparison(d: DecimalModel)
    ensures
        spec_parse(
            seq![TokenModel::Str("priority"@), TokenModel::GT, TokenModel::Float(d)],
        ) == (SpStep::Parsed {
            exp: ExprModel::Infix(
                Box::new(
                    InfixModel {
                        left: ExprModel::StrLit("priority"@),
                        op: TokenModel::GT,
                        right: ExprModel::NumLit(d),
                    },
                ),
            ),
            used: 3,
        }),
{
    lemma_priority_is_number_field();
    let toks = seq![TokenModel::Str("priority"@), TokenModel::GT, TokenModel::Float(d)];
    lemma_parse_field_op_literal(toks, "priority"@, TokenModel::GT, ExprModel::NumLit(d));
}

/// `priority` compared with a word is rejected by validation, whatever
/// the word: the parse fails with the type-mismatch message.
pub proof fn lemma_priority_string_mismatch(word: Seq<char>)
    ensures
        spec_parse(seq![TokenModel::Str("priority"@), TokenModel::GT, TokenModel::Str(word)])
            == (SpStep::Failed { msg: msg_bad_value("priority"@) }),
{
    lemma_priority_is_number_field();
    let toks = seq![TokenModel::Str("priority"@), TokenModel::GT, TokenModel::Str(word)];
    lemma_parse_field_op_literal(toks, "priority"@, TokenModel::GT, ExprModel::StrLit(word));
}

/// A string-typed field compared with a number is rejected by validation,
/// whatever the number: the parse fails with the type-mismatch message.
pub proof fn lemma_string_field_number_mismatch(field: Seq<char>, d: DecimalModel)
    requires
        spec_field_type(field) == Some(FieldType::StrField),
    ensures
        spec_parse(seq![TokenModel::Str(field), TokenModel::EQ, TokenModel::Float(d)])
            == (SpStep::Failed { msg: msg_bad_value(field) }),
{
    let toks = seq![TokenModel::Str(field), TokenModel::EQ, TokenModel::Float(d)];
    lemma_parse_field_op_literal(toks, field, TokenModel::EQ, ExprModel::NumLit(d));
}

/// `priority` is the one number-typed field.
proof fn lemma_priority_is_number_field()
    ensures
        spec_field_type("priority"@) == Some(FieldType::NumField),
{
    reveal_strlit("priority");
    reveal_strlit("title");
    reveal_strlit("context");
    reveal_strlit("body");
    reveal_strlit("notes");
    reveal_strlit("created_date");
    reveal_strlit("completed_date");
    assert("priority"@.len() == 8);
    assert("title"@.len() == 5);
    assert("context"@.len() == 7);
    assert("body"@.len() == 4);
    assert("notes"@.len() == 5);
    assert("created_date"@.len() == 12);
    assert("completed_date"@.len() == 14);
}

/// The shared skeleton of the three-token laws: a field name, one
/// comparison operator, one literal operand. Parsing builds exactly that
/// infix node and hands it to the validator; the outcome is the
/// validator's verdict.
proof fn lemma_parse_field_op_literal(
    toks: Seq<TokenModel>,
    field: Seq<char>,
    op: TokenModel,
    right: ExprModel,
)
    requires
        toks.len() == 3,
        toks[0] == TokenModel::Str(field),
        toks[1] == op,
        spec_precedence(op) == 3,
        !(op == TokenModel::AND || op == TokenModel::OR),
        toks[2] == (match right {
            ExprModel::StrLit(v) => TokenModel::Str(v),
            ExprModel::NumLit(d) => TokenModel::Float(d),
            ExprModel::DateLit(t) => TokenModel::Date(t),
            _ => TokenModel::EOF,
        }),
        right is StrLit || right is NumLit || right is DateLit,
    ensures
        spec_parse(toks) == (match spec_validate(
            InfixModel { left: ExprModel::StrLit(field), op, right },
        ) {
            None => SpStep::Parsed {
                exp: ExprModel::Infix(
                    Box::new(InfixModel { left: ExprModel::StrLit(field), op, right }),
                ),
                used: 3,
            },
            Some(m) => SpStep::Failed { msg: m },
        }),
{
    let t1 = toks.skip(1);
    let t2 = toks.skip(2);
    let t3 = toks.skip(3);
    assert(t1 =~= seq![toks[1], toks[2]]);
    assert(t1.skip(1) =~= t2);
    assert(t2 =~= seq![toks[2]]);
    assert(t2.skip(1) =~= t3);
    assert(t3 =~= Seq::<TokenModel>::empty());
    let node = InfixModel { left: ExprModel::StrLit(field), op, right };
    // The right-hand literal: one primary token, nothing to climb.
    assert(sp_primary(t2, 7) == (SpStep::Parsed { exp: right, used: 1 }));
    assert(sp_climb(right, t3, 3, 7) == (SpStep::Parsed { exp: right, used: 0 }));
    assert(sp_expr(t2, 3, 8) == (SpStep::Parsed { exp: right, used: 1 }));
    lemma_mono_expr(t2, 3, 8, 9);
    // The operator step: operand, then validation.
    assert(sp_infix(ExprModel::StrLit(field), t1, 10) == (match spec_validate(node) {
        None => SpStep::Parsed { exp: ExprModel::Infix(Box::new(node)), used: 2 },
        Some(m) => SpStep::Failed { msg: m },
    }));
    // The whole expression: the field, then the climb takes the operator.
    assert(sp_primary(toks, 11) == (SpStep::Parsed {
        exp: ExprModel::StrLit(field),
        used: 1,
    }));
    if spec_validate(node) is None {
        assert(sp_climb(ExprModel::Infix(Box::new(node)), t3, 0, 10) == (SpStep::Parsed {
            exp: ExprModel::Infix(Box::new(node)),
            used: 0,
        }));
    }
    lemma_mono_infix(ExprModel::StrLit(field), t1, 10, 10);
    assert(sp_climb(ExprModel::StrLit(field), t1, 0, 11) == (match spec_validate(node) {
        None => SpStep::Parsed { exp: ExprModel::Infix(Box::new(node)), used: 2 },
        Some(m) => SpStep::Failed { msg: m },
    }));
    assert(spec_parse(toks) == sp_expr(toks, 0, 12));
}

/// Every infix node of the tree carries a real operator token and passes
/// the validator. Trees the parser hands out are of this shape.
pub open spec fn validated_ast(e: ExprModel) -> bool
    decreases e,
{
    match e {
        ExprModel::Infix(b) => is_op_token(b.op) && spec_validate(*b) is None && validated_ast(
            b.left,
        ) && validated_ast(b.right),
        _ => true,
    }
}

/// The canonical token form of a tree: literals as their tokens, every
/// infix node fully parenthesised.
pub open spec fn canonical_tokens(e: ExprModel) -> Seq<TokenModel>
    decreases e,
{
    match e {
        ExprModel::StrLit(s) => seq![TokenModel::Str(s)],
        ExprModel::NumLit(d) => seq![TokenModel::Float(d)],
        ExprModel::DateLit(t) => seq![TokenModel::Date(t)],
        ExprModel::Infix(b) => seq![TokenModel::LP] + canonical_tokens(b.left) + seq![b.op]
            + canonical_tokens(b.right) + seq![TokenModel::RP],
    }
}

/// A canonical token form is never empty.
proof fn lemma_canonical_nonempty(e: ExprModel)
    ensures
        canonical_tokens(e).len() >= 1,
    decreases e,
{
}

/// Parsing a canonical form followed by anything that does not bind at
/// level `prec` consumes exactly the canonical form and yields the tree.
proof fn lemma_rt_expr(e: ExprModel, rest: Seq<TokenModel>, prec: int, fuel: nat)
    requires
        validated_ast(e),
        prec != 1,
        rest.len() > 0 ==> spec_precedence(rest[0]) <= prec,
        fuel == 3 * (canonical_tokens(e).len() + rest.len()) + 3,
    ensures
        sp_expr(canonical_tokens(e) + rest, prec, fuel) == (SpStep::Parsed {
            exp: e,
            used: canonical_tokens(e).len() as int,
        }),
    decreases e, 2int,
{
    let ce = canonical_tokens(e);
    let toks = ce + rest;
    lemma_canonical_nonempty(e);
    lemma_rt_primary(e, rest, (fuel - 1) as nat);
    // After the primary, the leftover tokens are exactly `rest`.
    assert(toks.skip(ce.len() as int) =~= rest);
    // The climb stops at once: nothing in `rest` binds at `prec`.
    assert(sp_climb(e, rest, prec, (fuel - 1) as nat) == (SpStep::Parsed { exp: e, used: 0 }));
}

/// Parsing a canonical form as a primary expression consumes exactly the
/// canonical form and yields the tree.
proof fn lemma_rt_primary(e: ExprModel, rest: Seq<TokenModel>, fuel: nat)
    requires
        validated_ast(e),
        fuel == 3 * (canonical_tokens(e).len() + rest.len()) + 2,
    ensures
        sp_primary(canonical_tokens(e) + rest, fuel) == (SpStep::Parsed {
            exp: e,
            used: canonical_tokens(e).len() as int,
        }),
    decreases e, 1int,
{
    let ce = canonical_tokens(e);
    let toks = ce + rest;
    match e {
        ExprModel::StrLit(s) => {
            assert(toks[0] == TokenModel::Str(s));
        },
        ExprModel::NumLit(d) => {
            assert(toks[0] == TokenModel::Float(d));
        },
        ExprModel::DateLit(t) => {
            assert(toks[0] == TokenModel::Date(t));
        },
        ExprModel::Infix(b) => {
            assert(toks[0] == TokenModel::LP);
            let cl = canonical_tokens(b.left);
            let cr = canonical_tokens(b.right);
            let inner = cl + seq![b.op] + cr + (seq![TokenModel::RP] + rest);
            assert(toks.skip(1) =~= inner);
            lemma_rt_inner(b, seq![TokenModel::RP] + rest, (fuel - 1) as nat);
            // The group closes on the parenthesis right after the node.
            assert(inner[cl.len() + 1 + cr.len() as int] == TokenModel::RP);
        },
    }
}

/// Parsing the inside of a canonical infix group — left form, operator,
/// right form — consumes all three and yields the infix node.
proof fn lemma_rt_inner(b: Box<InfixModel>, rest: Seq<TokenModel>, fuel: nat)
    requires
        validated_ast(ExprModel::Infix(b)),
        rest.len() > 0 ==> spec_precedence(rest[0]) == 0,
        fuel == 3 * (canonical_tokens(b.left).len() + 1 + canonical_tokens(b.right).len()
            + rest.len()) + 4,
    ensures
        sp_expr(
            canonical_tokens(b.left) + seq![b.op] + canonical_tokens(b.right) + rest,
            0,
            (fuel - 1) as nat,
        ) == (SpStep::Parsed {
            exp: ExprModel::Infix(b),
            used: canonical_tokens(b.left).len() + 1 + canonical_tokens(b.right).len() as int,
        }),
    decreases b, 0int,
{
    let cl = canonical_tokens(b.left);
    let cr = canonical_tokens(b.right);
    let toks = cl + seq![b.op] + cr + rest;
    let f = (fuel - 1) as nat;
    lemma_canonical_nonempty(b.left);
    lemma_canonical_nonempty(b.right);
    assert(cl + seq![b.op] + cr + rest =~= cl + (seq![b.op] + cr + rest));
    lemma_rt_primary(b.left, seq![b.op] + cr + rest, 3 * (cl.len() + (1 + cr.len()
        + rest.len())) + 2);
    lemma_mono_primary(
        cl + (seq![b.op] + cr + rest),
        (3 * (cl.len() + (1 + cr.len() + rest.len())) + 2) as nat,
        (f - 1) as nat,
    );
    // After the left operand, the operator is the lookahead.
    let after_left = seq![b.op] + cr + rest;
    assert(toks.skip(cl.len() as int) =~= after_left);
    assert(after_left[0] == b.op);
    assert(after_left.skip(1) =~= cr + rest);
    // The right operand parses at the operator's own precedence.
    lemma_rt_expr(b.right, rest, spec_precedence(b.op), 3 * (cr.len() + rest.len()) + 3);
    lemma_mono_expr(
        cr + rest,
        spec_precedence(b.op),
        (3 * (cr.len() + rest.len()) + 3) as nat,
        (f - 3) as nat,
    );
    // The operator step builds and validates the node.
    assert(sp_infix(b.left, after_left, (f - 2) as nat) == (SpStep::Parsed {
        exp: ExprModel::Infix(Box::new(InfixModel { left: b.left, op: b.op, right: b.right })),
        used: 1 + cr.len() as int,
    }));
    assert(Box::new(InfixModel { left: b.left, op: b.op, right: b.right }) == b);
    // Nothing after the node binds at the lowest level.
    assert(after_left.skip(1 + cr.len() as int) =~= rest);
    assert(sp_climb(ExprModel::Infix(b), rest, 0, (f - 2) as nat) == (SpStep::Parsed {
        exp: ExprModel::Infix(b),
        used: 0,
    }));
    assert(sp_climb(b.left, after_left, 0, (f - 1) as nat) == (SpStep::Parsed {
        exp: ExprModel::Infix(b),
        used: 1 + cr.len() as int,
    }));
}

/// A canonical rendering is nonempty and opens with a quote, a digit or a
/// parenthesis — never whitespace.
proof fn lemma_render_first(e: ExprModel)
    requires
        crate::ast::spec_renderable(e),
    ensures
        crate::ast::spec_render(e).len() >= 1,
        crate::ast::spec_render(e)[0] == '"' || crate::ast::spec_render(e)[0] == '('
            || crate::text::is_digit_char(crate::ast::spec_render(e)[0]),
        !crate::text::is_space_char(crate::ast::spec_render(e)[0]),
{
    match e {
        ExprModel::NumLit(d) => {
            if d.scale == 0 {
                crate::token::lemma_spec_digits_chars(d.mantissa);
            } else {
                crate::text::lemma_pow10_mono(1, d.scale);
                crate::token::lemma_spec_digits_chars(d.mantissa / crate::text::pow10(d.scale));
                assert(crate::ast::spec_render(e)[0] == crate::token::spec_digits(
                    d.mantissa / crate::text::pow10(d.scale),
                )[0]);
            }
        },
        _ => {},
    }
}

/// The spelled-out text of an operator lexes back to exactly that
/// operator token when a space follows it.
proof fn lemma_lex_op_at(s: Seq<char>, i: int, op: TokenModel)
    requires
        is_op_token(op),
        0 <= i,
        i + spec_describe(op).len() < s.len(),
        s.subrange(i, i + spec_describe(op).len()) == spec_describe(op),
        s[i + spec_describe(op).len()] == ' ',
    ensures
        crate::lexer::tok_at(s, i) == (crate::lexer::TokStep {
            tok: op,
            next: i + spec_describe(op).len(),
        }),
{
    let d = spec_describe(op);
    let j = i + d.len();
    match op {
        TokenModel::GT => {
            reveal_strlit(">");
            assert(s[i] == '>');
            assert(s[i + 1] == ' ');
        },
        TokenModel::LT => {
            reveal_strlit("<");
            assert(s[i] == '<');
            assert(s[i + 1] == ' ');
        },
        TokenModel::EQ => {
            reveal_strlit("=");
            assert(s[i] == '=');
        },
        TokenModel::LIKE => {
            reveal_strlit("^");
            assert(s[i] == '^');
            assert(s[i + 1] == ' ');
        },
        TokenModel::GTE => {
            reveal_strlit(">=");
            assert(s.subrange(i, i + 2)[0] == s[i]);
            assert(s.subrange(i, i + 2)[1] == s[i + 1]);
            assert(s[i] == '>' && s[i + 1] == '=');
            assert(s.subrange(i, i + 2) =~= seq!['>', '=']);
            assert(crate::token::spec_token_from_text(seq!['>', '=']) == TokenModel::GTE);
        },
        TokenModel::LTE => {
            reveal_strlit("<=");
            assert(s.subrange(i, i + 2)[0] == s[i]);
            assert(s.subrange(i, i + 2)[1] == s[i + 1]);
            assert(s[i] == '<' && s[i + 1] == '=');
            assert(s.subrange(i, i + 2) =~= seq!['<', '=']);
            assert(crate::token::spec_token_from_text(seq!['<', '=']) == TokenModel::LTE);
        },
        TokenModel::NE => {
            reveal_strlit("!=");
            assert(s.subrange(i, i + 2)[0] == s[i]);
            assert(s.subrange(i, i + 2)[1] == s[i + 1]);
            assert(s[i] == '!' && s[i + 1] == '=');
            assert(s.subrange(i, i + 2) =~= seq!['!', '=']);
            assert(crate::token::spec_token_from_text(seq!['!', '=']) == TokenModel::NE);
        },
        TokenModel::NLIKE => {
            reveal_strlit("^^");
            assert(s.subrange(i, i + 2)[0] == s[i]);
            assert(s.subrange(i, i + 2)[1] == s[i + 1]);
            assert(s[i] == '^' && s[i + 1] == '^');
            assert(s[i + 1] != '=');
        },
        TokenModel::AND => {
            reveal_strlit("AND");
            assert(s.subrange(i, i + 3)[0] == s[i]);
            assert(s.subrange(i, i + 3)[1] == s[i + 1]);
            assert(s.subrange(i, i + 3)[2] == s[i + 2]);
            assert(s[i] == 'A' && s[i + 1] == 'N' && s[i + 2] == 'D');
            assert(crate::text::is_letter_char(s[i]));
            crate::lexer::lemma_scan_tok_at(
                s,
                i + 1,
                i + 3,
                crate::lexer::EndKind::Word,
            );
            let w = s.subrange(i, i + 3);
            assert(w =~= seq!['A', 'N', 'D']);
            assert(crate::text::to_lower(seq!['A', 'N', 'D']) =~= seq!['a', 'n', 'd']) by {
                assert(crate::text::lower_char('A') == 'a') by {
                    vstd::utf8::char_u32_cast('a', 97);
                }
                assert(crate::text::lower_char('N') == 'n') by {
                    vstd::utf8::char_u32_cast('n', 110);
                }
                assert(crate::text::lower_char('D') == 'd') by {
                    vstd::utf8::char_u32_cast('d', 100);
                }
            }
            assert(seq!['A', 'N', 'D'].len() == 3);
            assert(crate::token::spec_token_from_text(seq!['A', 'N', 'D']) == TokenModel::AND);
        },
        TokenModel::OR => {
            reveal_strlit("OR");
            assert(s.subrange(i, i + 2)[0] == s[i]);
            assert(s.subrange(i, i + 2)[1] == s[i + 1]);
            assert(s[i] == 'O' && s[i + 1] == 'R');
            assert(crate::text::is_letter_char(s[i]));
            crate::lexer::lemma_scan_tok_at(
                s,
                i + 1,
                i + 2,
                crate::lexer::EndKind::Word,
            );
            let w = s.subrange(i, i + 2);
            assert(w =~= seq!['O', 'R']);
            assert(crate::text::to_lower(seq!['O', 'R']) =~= seq!['o', 'r']) by {
                assert(crate::text::lower_char('O') == 'o') by {
                    vstd::utf8::char_u32_cast('o', 111);
                }
                assert(crate::text::lower_char('R') == 'r') by {
                    vstd::utf8::char_u32_cast('r', 114);
                }
            }
            assert(seq!['O', 'R'] != seq!['>', '='] && seq!['O', 'R'] != seq!['<', '='] && seq![
                'O',
                'R',
            ] != seq!['!', '='] && seq!['O', 'R'] != seq!['^', '^']) by {
                assert(seq!['O', 'R'][0] == 'O');
            }
            assert(crate::token::spec_token_from_text(seq!['O', 'R']) == TokenModel::OR);
        },
        _ => {
            assert(false);
        },
    }
}

/// A window of a window of a text is the expected window of the text.
proof fn lemma_subrange_transfer(s: Seq<char>, pos: int, end: int, o1: int, o2: int)
    requires
        0 <= pos <= end <= s.len(),
        0 <= o1 <= o2 <= end - pos,
    ensures
        s.subrange(pos + o1, pos + o2) == s.subrange(pos, end).subrange(o1, o2),
{
    assert(s.subrange(pos + o1, pos + o2) =~= s.subrange(pos, end).subrange(o1, o2));
}

/// Each of seven concatenated pieces sits at its own offsets.
proof fn lemma_seven_segments(
    q1: Seq<char>,
    q2: Seq<char>,
    q3: Seq<char>,
    q4: Seq<char>,
    q5: Seq<char>,
    q6: Seq<char>,
    q7: Seq<char>,
)
    ensures
        (q1 + q2 + q3 + q4 + q5 + q6 + q7).subrange(0, q1.len() as int) == q1,
        (q1 + q2 + q3 + q4 + q5 + q6 + q7).subrange(
            q1.len() as int,
            q1.len() as int + q2.len() as int,
        ) == q2,
        (q1 + q2 + q3 + q4 + q5 + q6 + q7).subrange(
            q1.len() as int + q2.len() as int,
            q1.len() as int + q2.len() as int + q3.len() as int,
        ) == q3,
        (q1 + q2 + q3 + q4 + q5 + q6 + q7).subrange(
            q1.len() as int + q2.len() as int + q3.len() as int,
            q1.len() as int + q2.len() as int + q3.len() as int + q4.len() as int,
        ) == q4,
        (q1 + q2 + q3 + q4 + q5 + q6 + q7).subrange(
            q1.len() as int + q2.len() as int + q3.len() as int + q4.len() as int,
            q1.len() as int + q2.len() as int + q3.len() as int + q4.len() as int + q5.len() as int,
        ) == q5,
        (q1 + q2 + q3 + q4 + q5 + q6 + q7).subrange(
            q1.len() as int + q2.len() as int + q3.len() as int + q4.len() as int + q5.len() as int,
            q1.len() as int + q2.len() as int + q3.len() as int + q4.len() as int + q5.len() as int + q6.len() as int,
        ) == q6,
        (q1 + q2 + q3 + q4 + q5 + q6 + q7).subrange(
            q1.len() as int + q2.len() as int + q3.len() as int + q4.len() as int + q5.len() as int + q6.len() as int,
            q1.len() as int + q2.len() as int + q3.len() as int + q4.len() as int + q5.len() as int + q6.len() as int + q7.len() as int,
        ) == q7,
{
    let w = q1 + q2 + q3 + q4 + q5 + q6 + q7;
    assert(w.subrange(0, q1.len() as int) =~= q1);
    assert(w.subrange(q1.len() as int, q1.len() as int + q2.len() as int) =~= q2);
    assert(w.subrange(q1.len() as int + q2.len() as int, q1.len() as int + q2.len() as int + q3.len() as int) =~= q3);
    assert(w.subrange(
        q1.len() as int + q2.len() as int + q3.len() as int,
        q1.len() as int + q2.len() as int + q3.len() as int + q4.len() as int,
    ) =~= q4);
    assert(w.subrange(
        q1.len() as int + q2.len() as int + q3.len() as int + q4.len() as int,
        q1.len() as int + q2.len() as int + q3.len() as int + q4.len() as int + q5.len() as int,
    ) =~= q5);
    assert(w.subrange(
        q1.len() as int + q2.len() as int + q3.len() as int + q4.len() as int + q5.len() as int,
        q1.len() as int + q2.len() as int + q3.len() as int + q4.len() as int + q5.len() as int + q6.len() as int,
    ) =~= q6);
    assert(w.subrange(
        q1.len() as int + q2.len() as int + q3.len() as int + q4.len() as int + q5.len() as int + q6.len() as int,
        q1.len() as int + q2.len() as int + q3.len() as int + q4.len() as int + q5.len() as int + q6.len() as int + q7.len() as int,
    ) =~= q7);
}

/// Lexing a quoted string literal embedded in a larger text yields its
/// string token.
proof fn lemma_lex_render_str(s: Seq<char>, pos: int, q: Seq<char>)
    requires
        crate::ast::spec_renderable(ExprModel::StrLit(q)),
        0 <= pos,
        pos + q.len() + 2 <= s.len(),
        s.subrange(pos, pos + q.len() + 2) == crate::ast::spec_render(ExprModel::StrLit(q)),
    ensures
        crate::lexer::tok_at(s, pos) == (crate::lexer::TokStep {
            tok: TokenModel::Str(q),
            next: pos + q.len() + 2,
        }),
{
    let r = crate::ast::spec_render(ExprModel::StrLit(q));
    let end = pos + q.len() + 2;
    assert(r =~= seq!['"'] + q + seq!['"']);
    assert(s.subrange(pos, end)[0] == s[pos]);
    assert(s[pos] == '"');
    assert(r.subrange(1, 1 + q.len() as int) =~= q);
    assert(s.subrange(pos, end).subrange(1, 1 + q.len() as int) =~= s.subrange(
        pos + 1,
        pos + 1 + q.len(),
    ));
    assert(s.subrange(pos + 1, pos + 1 + q.len()) =~= q);
    assert(r[1 + q.len() as int] == '"');
    assert(s.subrange(pos, end)[1 + q.len() as int] == s[pos + 1 + q.len()]);
    assert(s[pos + 1 + q.len()] == '"');
    crate::text::lemma_find_from_cover(q, '"', 0);
    assert(forall|k: int|
        pos + 1 <= k < pos + 1 + q.len() ==> #[trigger] s[k] == q[k - pos - 1] && s[k] != '"');
    crate::lexer::lemma_scan_tok_at(s, pos + 1, pos + 1 + q.len(), crate::lexer::EndKind::Quote);
    let step = crate::lexer::tok_at(s, pos);
    assert(step.tok == TokenModel::Str(s.subrange(pos + 1, pos + 1 + q.len())));
    assert(step.tok == TokenModel::Str(q));
    assert(step.next == end);
}

/// Lexing a rendered decimal embedded in a larger text yields its number
/// token, provided the following character cannot continue a number.
proof fn lemma_lex_render_num(s: Seq<char>, pos: int, d: DecimalModel)
    requires
        dec_wf(d),
        0 <= pos,
        pos + crate::token::spec_render_decimal(d).len() <= s.len(),
        s.subrange(pos, pos + crate::token::spec_render_decimal(d).len())
            == crate::token::spec_render_decimal(d),
        pos + crate::token::spec_render_decimal(d).len() == s.len() || s[pos
            + crate::token::spec_render_decimal(d).len()] == ' ' || s[pos
            + crate::token::spec_render_decimal(d).len()] == ')',
    ensures
        crate::lexer::tok_at(s, pos) == (crate::lexer::TokStep {
            tok: TokenModel::Float(d),
            next: pos + crate::token::spec_render_decimal(d).len(),
        }),
{
    let r = crate::token::spec_render_decimal(d);
    let end = pos + r.len();
    lemma_render_first(ExprModel::NumLit(d));
    assert(s.subrange(pos, end)[0] == s[pos]);
    assert(s[pos] == r[0]);
    lemma_decimal_text_chars(d);
    assert(forall|k: int|
        pos <= k < end ==> #[trigger] s[k] == r[k - pos] && (crate::text::is_digit_char(s[k])
            || s[k] == '.'));
    assert(forall|k: int|
        pos + 1 <= k < end ==> !crate::lexer::end_holds(
            crate::lexer::EndKind::Num,
            #[trigger] s[k],
        ));
    crate::lexer::lemma_scan_tok_at(s, pos + 1, end, crate::lexer::EndKind::Num);
    let step = crate::lexer::tok_at(s, pos);
    assert(step.next == end);
    assert(s.subrange(pos, end) == r);
    lemma_number_text_classifies(r, d);
    assert(step.tok == TokenModel::Float(d));
}

/// Lexing a canonical rendering embedded in a larger text peels off
/// exactly the canonical token form, provided the rendering is followed
/// by a space, a closing parenthesis, or the end of the text.
#[verifier::rlimit(100)]
#[verifier::spinoff_prover]
proof fn lemma_lex_render_at(s: Seq<char>, pos: int, e: ExprModel)
    requires
        crate::ast::spec_renderable(e),
        0 <= pos,
        pos + crate::ast::spec_render(e).len() <= s.len(),
        s.subrange(pos, pos + crate::ast::spec_render(e).len()) == crate::ast::spec_render(e),
        pos + crate::ast::spec_render(e).len() == s.len() || s[pos + crate::ast::spec_render(
            e,
        ).len()] == ' ' || s[pos + crate::ast::spec_render(e).len()] == ')',
    ensures
        crate::lexer::spec_lex_from(s, pos) == canonical_tokens(e)
            + crate::lexer::spec_lex_from(s, pos + crate::ast::spec_render(e).len()),
    decreases e,
{
    let r = crate::ast::spec_render(e);
    let end = pos + r.len();
    lemma_render_first(e);
    assert(s.subrange(pos, end)[0] == s[pos]);
    assert(s[pos] == r[0]);
    assert(crate::lexer::skip_ws(s, pos) == pos);
    match e {
        ExprModel::StrLit(q) => {
            lemma_lex_render_str(s, pos, q);
        },
        ExprModel::NumLit(d) => {
            lemma_lex_render_num(s, pos, d);
        },
        ExprModel::DateLit(_) => {
            assert(false);
        },
        ExprModel::Infix(b) => {
            let rl = crate::ast::spec_render(b.left);
            let opt = spec_describe(b.op);
            let rr = crate::ast::spec_render(b.right);
            let p1 = pos + 1;
            let p2 = p1 + rl.len();
            let p3 = p2 + 1;
            let p4 = p3 + opt.len();
            let p5 = p4 + 1;
            let p6 = p5 + rr.len();
            assert(end == p6 + 1);
            // Map each segment of the rendering into `s`.
            lemma_seven_segments(seq!['('], rl, seq![' '], opt, seq![' '], rr, seq![')']);
            assert(r == seq!['('] + rl + seq![' '] + opt + seq![' '] + rr + seq![')']);
            lemma_subrange_transfer(s, pos, end, 0, 1);
            lemma_subrange_transfer(s, pos, end, 1, 1 + rl.len() as int);
            lemma_subrange_transfer(s, pos, end, 1 + rl.len() as int, 2 + rl.len() as int);
            lemma_subrange_transfer(s, pos, end, 2 + rl.len() as int, 2 + rl.len() as int + opt.len() as int);
            lemma_subrange_transfer(
                s,
                pos,
                end,
                2 + rl.len() as int + opt.len() as int,
                3 + rl.len() as int + opt.len() as int,
            );
            lemma_subrange_transfer(
                s,
                pos,
                end,
                3 + rl.len() as int + opt.len() as int,
                3 + rl.len() as int + opt.len() as int + rr.len() as int,
            );
            lemma_subrange_transfer(
                s,
                pos,
                end,
                3 + rl.len() as int + opt.len() as int + rr.len() as int,
                4 + rl.len() as int + opt.len() as int + rr.len() as int,
            );
            assert(s.subrange(pos, pos + 1) == seq!['(']);
            assert(s[pos] == s.subrange(pos, pos + 1)[0]);
            assert(s[pos] == '(');
            assert(s.subrange(p1, p2) == rl);
            assert(s.subrange(p2, p3) == seq![' ']);
            assert(s[p2] == s.subrange(p2, p3)[0]);
            assert(s[p2] == ' ');
            assert(s.subrange(p3, p4) == opt);
            assert(s.subrange(p4, p5) == seq![' ']);
            assert(s[p4] == s.subrange(p4, p5)[0]);
            assert(s[p4] == ' ');
            assert(s.subrange(p5, p6) == rr);
            assert(s.subrange(p6, p6 + 1) == seq![')']);
            assert(s[p6] == s.subrange(p6, p6 + 1)[0]);
            assert(s[p6] == ')');
            // The opening parenthesis.
            let step0 = crate::lexer::tok_at(s, pos);
            assert(step0.tok == TokenModel::LP && step0.next == p1);
            assert(crate::lexer::spec_lex_from(s, pos) == seq![TokenModel::LP]
                + crate::lexer::spec_lex_from(s, p1));
            // The left operand.
            lemma_lex_render_at(s, p1, b.left);
            // The space, then the operator.
            lemma_lex_op_at(s, p3, b.op);
            assert(crate::lexer::skip_ws(s, p2) == crate::lexer::skip_ws(s, p3));
            assert(crate::lexer::skip_ws(s, p3) == p3);
            assert(crate::lexer::spec_lex_from(s, p2) == seq![b.op]
                + crate::lexer::spec_lex_from(s, p4));
            // The space, then the right operand.
            lemma_render_first(b.right);
            assert(s.subrange(p5, p6)[0] == s[p5]);
            assert(!crate::text::is_space_char(s[p5]));
            assert(crate::lexer::skip_ws(s, p4) == crate::lexer::skip_ws(s, p5));
            assert(crate::lexer::spec_lex_from(s, p4) == crate::lexer::spec_lex_from(s, p5));
            lemma_lex_render_at(s, p5, b.right);
            // The closing parenthesis.
            assert(crate::lexer::skip_ws(s, p6) == p6);
            let step6 = crate::lexer::tok_at(s, p6);
            assert(step6.tok == TokenModel::RP && step6.next == end);
            assert(crate::lexer::spec_lex_from(s, p6) == seq![TokenModel::RP]
                + crate::lexer::spec_lex_from(s, end));
            // Assemble the pieces.
            let tail = crate::lexer::spec_lex_from(s, end);
            assert(seq![TokenModel::LP] + (canonical_tokens(b.left) + (seq![b.op]
                + (canonical_tokens(b.right) + (seq![TokenModel::RP] + tail)))) =~= canonical_tokens(
                e,
            ) + tail);
        },
    }
}

/// The text of a canonical decimal is digits and at most one dot.
proof fn lemma_decimal_text_chars(d: DecimalModel)
    requires
        dec_wf(d),
    ensures
        forall|k: int|
            0 <= k < crate::token::spec_render_decimal(d).len() ==> crate::text::is_digit_char(
                #[trigger] crate::token::spec_render_decimal(d)[k],
            ) || crate::token::spec_render_decimal(d)[k] == '.',
{
    let r = crate::token::spec_render_decimal(d);
    if d.scale == 0 {
        crate::token::lemma_spec_digits_chars(d.mantissa);
    } else {
        let p = crate::text::pow10(d.scale);
        crate::text::lemma_pow10_mono(1, d.scale);
        let hi = crate::token::spec_digits(d.mantissa / p);
        let lo = crate::token::spec_digits_padded(d.mantissa % p, d.scale);
        crate::token::lemma_spec_digits_chars(d.mantissa / p);
        crate::token::lemma_spec_digits_padded_chars(d.mantissa % p, d.scale);
        assert(r =~= hi + seq!['.'] + lo);
        assert(forall|k: int|
            0 <= k < r.len() ==> #[trigger] r[k] == if k < hi.len() {
                hi[k]
            } else if k == hi.len() {
                '.'
            } else {
                lo[k - hi.len() - 1]
            });
    }
}

/// The text of a canonical decimal classifies as exactly its number
/// token.
proof fn lemma_number_text_classifies(w: Seq<char>, d: DecimalModel)
    requires
        dec_wf(d),
        w == crate::token::spec_render_decimal(d),
    ensures
        crate::token::spec_token_from_text(w) == TokenModel::Float(d),
{
    lemma_decimal_text_chars(d);
    if d.scale == 0 {
        crate::token::lemma_spec_digits_chars(d.mantissa);
    } else {
        let p = crate::text::pow10(d.scale);
        crate::text::lemma_pow10_mono(1, d.scale);
        crate::token::lemma_spec_digits_chars(d.mantissa / p);
        assert(w[0] == crate::token::spec_digits(d.mantissa / p)[0]);
    }
    assert(crate::text::is_digit_char(w[0]));
    assert(w != seq!['>', '=']) by {
        if w == seq!['>', '='] {
            assert(crate::text::is_digit_char('>'));
        }
    }
    assert(w != seq!['<', '=']) by {
        if w == seq!['<', '='] {
            assert(crate::text::is_digit_char('<'));
        }
    }
    assert(w != seq!['!', '=']) by {
        if w == seq!['!', '='] {
            assert(crate::text::is_digit_char('!'));
        }
    }
    assert(w != seq!['^', '^']) by {
        if w == seq!['^', '^'] {
            assert(crate::text::is_digit_char('^'));
        }
    }
    assert(crate::text::to_lower(w) != seq!['a', 'n', 'd']) by {
        if crate::text::to_lower(w) == seq!['a', 'n', 'd'] {
            assert(crate::text::to_lower(w)[0] == crate::text::lower_char(w[0]));
            assert(crate::text::lower_char(w[0]) == w[0]);
            assert(crate::text::is_digit_char('a'));
        }
    }
    assert(crate::text::to_lower(w) != seq!['o', 'r']) by {
        if crate::text::to_lower(w) == seq!['o', 'r'] {
            assert(crate::text::to_lower(w)[0] == crate::text::lower_char(w[0]));
            assert(crate::text::lower_char(w[0]) == w[0]);
            assert(crate::text::is_digit_char('o'));
        }
    }
    assert(!crate::text::is_letter_char(w[0]));
    crate::token::lemma_find_from_absent(w, '-', 0);
    crate::token::lemma_parse_render_decimal(d);
}

/// The full round-trip law for renderable trees: lexing a validated
/// tree's canonical text gives its canonical token form, and parsing that
/// gives back exactly the tree. Date literals and strings that carry a
/// quote have no canonical text and stay outside this statement.
pub proof fn lemma_render_round_trip(e: ExprModel)
    requires
        validated_ast(e),
        crate::ast::spec_renderable(e),
    ensures
        spec_lex(crate::ast::spec_render(e)) == canonical_tokens(e),
        spec_parse_text(crate::ast::spec_render(e)) == (SpStep::Parsed {
            exp: e,
            used: canonical_tokens(e).len() as int,
        }),
{
    let r = crate::ast::spec_render(e);
    assert(r.subrange(0, r.len() as int) =~= r);
    lemma_lex_render_at(r, 0, e);
    assert(crate::lexer::skip_ws(r, r.len() as int) == r.len());
    assert(crate::lexer::spec_lex_from(r, r.len() as int) =~= Seq::<TokenModel>::empty());
    assert(canonical_tokens(e) + Seq::<TokenModel>::empty() =~= canonical_tokens(e));
    lemma_canonical_tokens_round_trip(e);
}

/// Half of the round-trip law, on the parser's side: the canonical token
/// form of a validated tree parses back to exactly that tree. Re-lexing a
/// rendered text is not covered: the library provides no renderer.
pub proof fn lemma_canonical_tokens_round_trip(e: ExprModel)
    requires
        validated_ast(e),
    ensures
        spec_parse(canonical_tokens(e)) == (SpStep::Parsed {
            exp: e,
            used: canonical_tokens(e).len() as int,
        }),
{
    assert(canonical_tokens(e) + Seq::<TokenModel>::empty() =~= canonical_tokens(e));
    lemma_rt_expr(
        e,
        Seq::<TokenModel>::empty(),
        0,
        (3 * canonical_tokens(e).len() + 3) as nat,
    );
}

/// Parse a query text into a validated expression tree.
///
/// Succeeds exactly when the specification parser over the lexed tokens
/// does, and then returns precisely the tree it prescribes.
pub fn parse(query: &str) -> (r: Result<AST, ParseError>)
    ensures
        match r {
            Ok(ast) => spec_parse_text(query@) matches SpStep::Parsed { exp, used } && exp == ast@,
            Err(pe) => spec_parse_text(query@) matches SpStep::Failed { msg } && msg == pe@.msg
                && pe@.pos == 0 && pe@.ch == '\u{0}',
        },
{
    let mut p = Parser::new(query);
    proof {
        assert(p.rem() =~= spec_lex(query@));
    }
    p.parse()
}

} // verus!
