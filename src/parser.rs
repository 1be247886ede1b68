//! The parser: precedence climbing over the tokens of a text.
use crate::ast::{BinOp, Node, SpecNode};
use crate::token::{OperPrec, SpecToken, Token, prec_of, token_name};
use crate::tokenizer::{Tokenizer, is_numeral, lemma_scan_numeral, lemma_scan_progress, scan};
use vstd::prelude::*;

verus! {

/// Why a text does not parse.
pub enum Fault {
    /// The first token cannot be read.
    BadCharacter,
    /// A later token cannot be read.
    EndOfInput,
    /// A token stands where an operand must begin.
    UnexpectedToken,
    /// An opening parenthesis is not closed: this token stands in place of
    /// the closing one.
    MissingParen(SpecToken),
    /// This token stands where an infix operator was asked for.
    NotAnOperator(SpecToken),
}

/// Where the parser stands: the lexer's cursor, and the token in hand.
pub struct PState {
    pub pos: int,
    pub cur: SpecToken,
}

/// A parser state that the lexer can reach in `s`.
pub open spec fn valid(s: Seq<char>, st: PState) -> bool {
    &&& 0 <= st.pos <= s.len()
    &&& st.cur is Eof ==> st.pos == s.len()
    &&& st.cur matches SpecToken::Num(lit) ==> is_numeral(lit)
}

/// What is left to read; it shrinks with every token consumed.
pub open spec fn measure(s: Seq<char>, st: PState) -> nat {
    ((s.len() - st.pos) * 2 + if st.cur is Eof {
        0int
    } else {
        1int
    }) as nat
}

/// Taking the next token from the lexer.
pub open spec fn advance(s: Seq<char>, st: PState) -> Result<PState, Fault> {
    match scan(s, st.pos) {
        (Some(t), q) => Ok(PState { pos: q, cur: t }),
        (None, _) => Err(Fault::EndOfInput),
    }
}

/// The operator of the tree that an infix token stands for.
pub open spec fn binop_of(t: SpecToken) -> BinOp {
    match t {
        SpecToken::And => BinOp::And,
        SpecToken::Or => BinOp::Or,
        SpecToken::Add => BinOp::Add,
        SpecToken::Subtract => BinOp::Subtract,
        SpecToken::Multiply => BinOp::Multiply,
        SpecToken::Divide => BinOp::Divide,
        _ => BinOp::Caret,
    }
}

/// Taking a token keeps the state one that the lexer can reach, and
/// shrinks what is left to read unless the end marker is in hand; a failure
/// comes only from a text that holds more.
pub proof fn lemma_advance(s: Seq<char>, st: PState)
    requires
        valid(s, st),
    ensures
        advance(s, st) matches Ok(st1) ==> valid(s, st1) && (!(st.cur is Eof) ==> measure(s, st1)
            < measure(s, st)),
        advance(s, st) is Err ==> !(st.cur is Eof) && st.pos < scan(s, st.pos).1 <= s.len(),
{
    lemma_scan_progress(s, st.pos);
    lemma_scan_numeral(s, st.pos);
}

/// An expression whose infix operators all bind more tightly than `minp`:
/// an operand, then as many operators above `minp` as follow it, each taking
/// as right operand an expression above its own level.
///
/// The test on `measure` always passes, since an operand consumes at least
/// one token (the parser's methods prove as much); it lets the definition
/// terminate.
pub open spec fn gen(s: Seq<char>, st: PState, minp: OperPrec) -> Result<(SpecNode, PState), Fault>
    decreases measure(s, st), 2nat,
    when valid(s, st)
{
    match primary(s, st) {
        Ok((left, st1)) => if measure(s, st1) < measure(s, st) {
            rest(s, left, st1, minp)
        } else {
            Err(Fault::UnexpectedToken)
        },
        Err(f) => Err(f),
    }
}

/// An operand: a negated operand, a literal, or an expression in parentheses.
pub open spec fn primary(s: Seq<char>, st: PState) -> Result<(SpecNode, PState), Fault>
    decreases measure(s, st), 1nat,
    when valid(s, st)
{
    match st.cur {
        SpecToken::Subtract => match advance(s, st) {
            Ok(st1) => {
                proof {
                    lemma_advance(s, st);
                }
                match gen(s, st1, OperPrec::Negative) {
                    Ok((e, st2)) => Ok((SpecNode::Negative(Box::new(e)), st2)),
                    Err(f) => Err(f),
                }
            },
            Err(f) => Err(f),
        },
        SpecToken::Num(lit) => match advance(s, st) {
            Ok(st1) => Ok((SpecNode::Number(lit), st1)),
            Err(f) => Err(f),
        },
        SpecToken::LeftParen => match advance(s, st) {
            Ok(st1) => {
                proof {
                    lemma_advance(s, st);
                }
                match gen(s, st1, OperPrec::DefaultZero) {
                    Ok((e, st2)) => match expect_right_paren(s, st2) {
                        Ok(st3) => Ok((e, st3)),
                        Err(f) => Err(f),
                    },
                    Err(f) => Err(f),
                }
            },
            Err(f) => Err(f),
        },
        _ => Err(Fault::UnexpectedToken),
    }
}

/// Taking the closing parenthesis that must be in hand.
pub open spec fn expect_right_paren(s: Seq<char>, st: PState) -> Result<PState, Fault> {
    if st.cur is RightParen {
        advance(s, st)
    } else {
        Err(Fault::MissingParen(st.cur))
    }
}

/// The operators that follow the operand `left` while they bind more
/// tightly than `minp`; operators of one level group to the left.
pub open spec fn rest(s: Seq<char>, left: SpecNode, st: PState, minp: OperPrec) -> Result<
    (SpecNode, PState),
    Fault,
>
    decreases measure(s, st), 1nat,
    when valid(s, st)
{
    if minp.rank() < prec_of(st.cur).rank() {
        match extend(s, left, st) {
            Ok((node, st2)) => if measure(s, st2) < measure(s, st) {
                rest(s, node, st2, minp)
            } else {
                Err(Fault::UnexpectedToken)
            },
            Err(f) => Err(f),
        }
    } else {
        Ok((left, st))
    }
}

/// The infix operator in hand applied to `left` and to the expression above
/// the operator's level that follows it.
pub open spec fn extend(s: Seq<char>, left: SpecNode, st: PState) -> Result<
    (SpecNode, PState),
    Fault,
>
    decreases measure(s, st), 0nat,
    when valid(s, st) && !(st.cur is Eof)
{
    match advance(s, st) {
        Ok(st1) => {
            proof {
                lemma_advance(s, st);
            }
            match gen(s, st1, prec_of(st.cur)) {
                Ok((right, st2)) => Ok(
                    (SpecNode::Binary(binop_of(st.cur), Box::new(left), Box::new(right)), st2),
                ),
                Err(f) => Err(f),
            }
        },
        Err(f) => Err(f),
    }
}

/// The state after the first token of `s`.
pub open spec fn start(s: Seq<char>) -> Result<PState, Fault> {
    match scan(s, 0) {
        (Some(t), q) => Ok(PState { pos: q, cur: t }),
        (None, _) => Err(Fault::BadCharacter),
    }
}

/// The tree of the text `s`, or why it has none. Parsing stops at the first
/// token that cannot continue the expression; what follows it is not read.
pub open spec fn parse_spec(s: Seq<char>) -> Result<SpecNode, Fault> {
    match start(s) {
        Ok(st) => match gen(s, st, OperPrec::DefaultZero) {
            Ok((e, _)) => Ok(e),
            Err(f) => Err(f),
        },
        Err(f) => Err(f),
    }
}

/// A failure to parse, with a message.
#[derive(Debug)]
pub enum ParseError {
    UnableToParse(String),
    InvalidOperator(String),
}

/// The message that goes with each fault.
pub open spec fn message_of(f: Fault) -> Seq<char> {
    match f {
        Fault::BadCharacter => "Invalid character"@,
        Fault::EndOfInput => "Unexpected end of input"@,
        Fault::UnexpectedToken => "Unexpected token"@,
        Fault::MissingParen(t) => "Expected RightParen, got "@ + token_name(t),
        Fault::NotAnOperator(t) => "Unexpected operator "@ + token_name(t),
    }
}

/// `e` is the error that reports `f`: an unexpected token is reported as
/// `UnableToParse`, every other fault as `InvalidOperator`.
pub open spec fn reports(e: ParseError, f: Fault) -> bool {
    match e {
        ParseError::UnableToParse(m) => f is UnexpectedToken && m@ == message_of(f),
        ParseError::InvalidOperator(m) => !(f is UnexpectedToken) && m@ == message_of(f),
    }
}

/// `r` is the outcome that `expected` describes.
pub open spec fn outcome_is(r: Result<Node, ParseError>, expected: Result<SpecNode, Fault>) -> bool {
    match expected {
        Ok(e) => r matches Ok(n) && n.model() == e,
        Err(f) => r matches Err(x) && reports(x, f),
    }
}

impl BinOp {
    /// The tree node of this operator over `left` and `right`.
    pub fn node(self, left: Node, right: Node) -> (r: Node)
        ensures
            r.model() == SpecNode::Binary(self, Box::new(left.model()), Box::new(right.model())),
    {
        let (l, r) = (Box::new(left), Box::new(right));
        match self {
            BinOp::And => Node::And(l, r),
            BinOp::Or => Node::Or(l, r),
            BinOp::Add => Node::Add(l, r),
            BinOp::Subtract => Node::Subtract(l, r),
            BinOp::Multiply => Node::Multiply(l, r),
            BinOp::Divide => Node::Divide(l, r),
            BinOp::Caret => Node::Caret(l, r),
        }
    }
}

/// A parser over a text, holding one token of lookahead.
pub struct Parser<'a> {
    tokenizer: Tokenizer<'a>,
    current_token: Token,
}

impl<'a> Parser<'a> {
    /// The text being parsed.
    pub closed spec fn text(&self) -> Seq<char> {
        self.tokenizer.text()
    }

    /// Where the parser stands.
    pub closed spec fn state(&self) -> PState {
        PState { pos: self.tokenizer.cursor(), cur: self.current_token@ }
    }

    pub closed spec fn wf(&self) -> bool {
        &&& self.tokenizer.wf()
        &&& valid(self.text(), self.state())
    }

    pub open spec fn progress(&self) -> nat {
        measure(self.text(), self.state())
    }

    /// A parser over `expr` with its first token in hand; fails when that
    /// token cannot be read.
    pub fn new(expr: &'a str) -> (r: Result<Self, ParseError>)
        ensures
            match start(expr@) {
                Ok(st) => r matches Ok(p) && p.wf() && p.text() == expr@ && p.state() == st,
                Err(f) => r matches Err(e) && reports(e, f),
            },
    {
        let mut lexer = Tokenizer::new(expr);
        proof {
            lemma_scan_progress(expr@, 0);
            lemma_scan_numeral(expr@, 0);
        }
        let cur_token = match lexer.next() {
            Some(token) => token,
            None => return Err(ParseError::InvalidOperator("Invalid character".to_owned())),
        };
        Ok(Parser { tokenizer: lexer, current_token: cur_token })
    }

    /// The tree of the whole expression from the token in hand.
    pub fn parse(&mut self) -> (r: Result<Node, ParseError>)
        requires
            old(self).wf(),
        ensures
            final(self).wf(),
            final(self).text() == old(self).text(),
            outcome_is(
                r,
                match gen(old(self).text(), old(self).state(), OperPrec::DefaultZero) {
                    Ok((e, _)) => Ok(e),
                    Err(f) => Err(f),
                },
            ),
    {
        self.generate_ast(OperPrec::DefaultZero)
    }

    fn get_next_token(&mut self) -> (r: Result<(), ParseError>)
        requires
            old(self).wf(),
        ensures
            final(self).wf(),
            final(self).text() == old(self).text(),
            match advance(old(self).text(), old(self).state()) {
                Ok(st) => r is Ok && final(self).state() == st && (!(old(self).state().cur is Eof)
                    ==> final(self).progress() < old(self).progress()),
                Err(f) => r matches Err(e) && reports(e, f) && final(self).state().cur == old(
                    self,
                ).state().cur,
            },
    {
        proof {
            lemma_advance(self.text(), self.state());
        }
        self.current_token = match self.tokenizer.next() {
            Some(token) => token,
            None => return Err(ParseError::InvalidOperator("Unexpected end of input".to_owned())),
        };
        Ok(())
    }

    fn generate_ast(&mut self, oper_prec: OperPrec) -> (r: Result<Node, ParseError>)
        requires
            old(self).wf(),
        ensures
            final(self).wf(),
            final(self).text() == old(self).text(),
            match gen(old(self).text(), old(self).state(), oper_prec) {
                Ok((e, st)) => r matches Ok(n) && n.model() == e && final(self).state() == st
                    && final(self).progress() < old(self).progress(),
                Err(f) => r matches Err(e) && reports(e, f),
            },
        decreases old(self).progress(), 2nat,
    {
        let ghost s = self.text();
        let ghost st0 = self.state();
        let mut left_expr = match self.parse_number() {
            Ok(n) => n,
            Err(e) => return Err(e),
        };
        while oper_prec.is_below(&self.current_token.get_oper_prec())
            invariant
                s == old(self).text(),
                st0 == old(self).state(),
                self.wf(),
                self.text() == s,
                self.progress() < measure(s, st0),
                gen(s, st0, oper_prec) == rest(s, left_expr.model(), self.state(), oper_prec),
            decreases self.progress(),
        {
            left_expr = match self.convert_token_to_node(left_expr) {
                Ok(n) => n,
                Err(e) => return Err(e),
            };
        }
        Ok(left_expr)
    }

    fn parse_number(&mut self) -> (r: Result<Node, ParseError>)
        requires
            old(self).wf(),
        ensures
            final(self).text() == old(self).text(),
            final(self).wf(),
            match primary(old(self).text(), old(self).state()) {
                Ok((e, st)) => r matches Ok(n) && n.model() == e && final(self).state() == st
                    && final(self).progress() < old(self).progress(),
                Err(f) => r matches Err(e) && reports(e, f),
            },
            !(old(self).state().cur is Subtract || old(self).state().cur is Num
                || old(self).state().cur is LeftParen) ==> *final(self) == *old(self),
        decreases old(self).progress(), 1nat,
    {
        match &self.current_token {
            Token::Subtract => {
                match self.get_next_token() {
                    Ok(()) => {},
                    Err(e) => return Err(e),
                }
                match self.generate_ast(OperPrec::Negative) {
                    Ok(expr) => Ok(Node::Negative(Box::new(expr))),
                    Err(e) => Err(e),
                }
            },
            Token::Num(lit) => {
                let value = lit.clone();
                match self.get_next_token() {
                    Ok(()) => Ok(Node::Number(value)),
                    Err(e) => Err(e),
                }
            },
            Token::LeftParen => {
                match self.get_next_token() {
                    Ok(()) => {},
                    Err(e) => return Err(e),
                }
                let expr = match self.generate_ast(OperPrec::DefaultZero) {
                    Ok(expr) => expr,
                    Err(e) => return Err(e),
                };
                match self.check_paren() {
                    Ok(()) => Ok(expr),
                    Err(e) => Err(e),
                }
            },
            _ => Err(ParseError::UnableToParse("Unexpected token".to_owned())),
        }
    }

    fn check_paren(&mut self) -> (r: Result<(), ParseError>)
        requires
            old(self).wf(),
        ensures
            final(self).text() == old(self).text(),
            final(self).wf(),
            match expect_right_paren(old(self).text(), old(self).state()) {
                Ok(st) => r is Ok && final(self).state() == st && final(self).progress() < old(
                    self,
                ).progress(),
                Err(f) => r matches Err(e) && reports(e, f),
            },
            !(old(self).state().cur is RightParen) ==> *final(self) == *old(self),
    {
        match &self.current_token {
            Token::RightParen => self.get_next_token(),
            _ => Err(
                ParseError::InvalidOperator(self.current_token.describe("Expected RightParen, got ")),
            ),
        }
    }

    fn convert_token_to_node(&mut self, left_expr: Node) -> (r: Result<Node, ParseError>)
        requires
            old(self).wf(),
        ensures
            final(self).wf(),
            final(self).text() == old(self).text(),
            prec_of(old(self).state().cur).rank() > 0 ==> match extend(
                old(self).text(),
                left_expr.model(),
                old(self).state(),
            ) {
                Ok((e, st)) => r matches Ok(n) && n.model() == e && final(self).state() == st
                    && final(self).progress() < old(self).progress(),
                Err(f) => r matches Err(e) && reports(e, f),
            },
            prec_of(old(self).state().cur).rank() == 0 ==> (r matches Err(e) && reports(
                e,
                Fault::NotAnOperator(old(self).state().cur),
            ) && *final(self) == *old(self)),
        decreases old(self).progress(), 0nat,
    {
        let prec = self.current_token.get_oper_prec();
        let op = match &self.current_token {
            Token::And => BinOp::And,
            Token::Or => BinOp::Or,
            Token::Add => BinOp::Add,
            Token::Subtract => BinOp::Subtract,
            Token::Multiply => BinOp::Multiply,
            Token::Divide => BinOp::Divide,
            Token::Caret => BinOp::Caret,
            _ => {
                return Err(
                    ParseError::InvalidOperator(self.current_token.describe("Unexpected operator ")),
                );
            },
        };
        match self.get_next_token() {
            Ok(()) => {},
            Err(e) => return Err(e),
        }
        match self.generate_ast(prec) {
            Ok(right_expr) => Ok(op.node(left_expr, right_expr)),
            Err(e) => Err(e),
        }
    }
}

/// The tree of `expr`: a parser is made over the text and run once.
pub fn parse_text(expr: &str) -> (r: Result<Node, ParseError>)
    ensures
        outcome_is(r, parse_spec(expr@)),
{
    match Parser::new(expr) {
        Ok(mut parser) => parser.parse(),
        Err(e) => Err(e),
    }
}

/// Parsing is a function of the text: two runs on the same text either both
/// fail with errors of the same kind and message, or give the same tree.
pub proof fn lemma_parse_deterministic(
    s: Seq<char>,
    r1: Result<Node, ParseError>,
    r2: Result<Node, ParseError>,
)
    requires
        outcome_is(r1, parse_spec(s)),
        outcome_is(r2, parse_spec(s)),
    ensures
        r1 is Ok <==> r2 is Ok,
        r1 matches Ok(a) ==> r2 matches Ok(b) && a.model() == b.model(),
        r1 matches Err(x) ==> r2 matches Err(y) && (x is UnableToParse <==> y is UnableToParse),
{
}

/// Every leaf of `t` holds a decimal literal.
pub open spec fn leaves_are_numerals(t: SpecNode) -> bool
    decreases t,
{
    match t {
        SpecNode::Binary(_, a, b) => leaves_are_numerals(*a) && leaves_are_numerals(*b),
        SpecNode::Negative(a) => leaves_are_numerals(*a),
        SpecNode::Number(lit) => is_numeral(lit),
    }
}

proof fn lemma_gen_leaves(s: Seq<char>, st: PState, minp: OperPrec)
    requires
        valid(s, st),
    ensures
        gen(s, st, minp) matches Ok((t, st2)) ==> leaves_are_numerals(t) && valid(s, st2),
    decreases measure(s, st), 2nat,
{
    lemma_primary_leaves(s, st);
    if let Ok((left, st1)) = primary(s, st) {
        if measure(s, st1) < measure(s, st) {
            lemma_rest_leaves(s, left, st1, minp);
        }
    }
}

proof fn lemma_primary_leaves(s: Seq<char>, st: PState)
    requires
        valid(s, st),
    ensures
        primary(s, st) matches Ok((t, st2)) ==> leaves_are_numerals(t) && valid(s, st2),
    decreases measure(s, st), 1nat,
{
    match st.cur {
        SpecToken::Subtract | SpecToken::Num(_) | SpecToken::LeftParen => {
            lemma_advance(s, st);
            if let Ok(st1) = advance(s, st) {
                if st.cur is Subtract {
                    lemma_gen_leaves(s, st1, OperPrec::Negative);
                } else if st.cur is LeftParen {
                    lemma_gen_leaves(s, st1, OperPrec::DefaultZero);
                    if let Ok((_, st2)) = gen(s, st1, OperPrec::DefaultZero) {
                        if st2.cur is RightParen {
                            lemma_advance(s, st2);
                        }
                    }
                }
            }
        },
        _ => {},
    }
}

proof fn lemma_rest_leaves(s: Seq<char>, left: SpecNode, st: PState, minp: OperPrec)
    requires
        valid(s, st),
        leaves_are_numerals(left),
    ensures
        rest(s, left, st, minp) matches Ok((t, st2)) ==> leaves_are_numerals(t) && valid(s, st2),
    decreases measure(s, st), 1nat,
{
    if minp.rank() < prec_of(st.cur).rank() {
        lemma_extend_leaves(s, left, st);
        if let Ok((node, st2)) = extend(s, left, st) {
            if measure(s, st2) < measure(s, st) {
                lemma_rest_leaves(s, node, st2, minp);
            }
        }
    }
}

proof fn lemma_extend_leaves(s: Seq<char>, left: SpecNode, st: PState)
    requires
        valid(s, st),
        !(st.cur is Eof),
        leaves_are_numerals(left),
    ensures
        extend(s, left, st) matches Ok((t, st2)) ==> leaves_are_numerals(t) && valid(s, st2),
    decreases measure(s, st), 0nat,
{
    lemma_advance(s, st);
    if let Ok(st1) = advance(s, st) {
        lemma_gen_leaves(s, st1, prec_of(st.cur));
    }
}

/// A parsed tree is well formed down to its leaves: each leaf holds a
/// decimal literal, a digit followed by digits and at most one dot.
pub proof fn lemma_parsed_leaves_are_numerals(s: Seq<char>)
    ensures
        parse_spec(s) matches Ok(t) ==> leaves_are_numerals(t),
{
    lemma_scan_progress(s, 0);
    lemma_scan_numeral(s, 0);
    if let Ok(st) = start(s) {
        lemma_gen_leaves(s, st, OperPrec::DefaultZero);
    }
}

/// The level of an operator, as the rank of its precedence.
pub open spec fn op_rank(op: BinOp) -> nat {
    match op {
        BinOp::And | BinOp::Or => 1,
        BinOp::Add | BinOp::Subtract => 2,
        BinOp::Multiply | BinOp::Divide => 3,
        BinOp::Caret => 4,
    }
}

/// The level of a tree's root: its operator's level, or above every
/// operator for a leaf or a negation.
pub open spec fn node_level(t: SpecNode) -> nat {
    match t {
        SpecNode::Binary(op, _, _) => op_rank(op),
        _ => 6,
    }
}

/// Every operator node of `t` has on its right a leaf, a negation or an
/// operator of a higher level, and on its left one of the same level or
/// higher; every negation applies to a leaf or a negation.
pub open spec fn grouped_by_level(t: SpecNode) -> bool
    decreases t,
{
    match t {
        SpecNode::Binary(op, l, r) => node_level(*l) >= op_rank(op) && node_level(*r) > op_rank(op)
            && grouped_by_level(*l) && grouped_by_level(*r),
        SpecNode::Negative(c) => node_level(*c) == 6 && grouped_by_level(*c),
        SpecNode::Number(_) => true,
    }
}

pub open spec fn no_open_paren(s: Seq<char>) -> bool {
    forall|i: int| 0 <= i < s.len() ==> s[i] != '('
}

proof fn lemma_scan_no_paren(s: Seq<char>, p: int)
    requires
        no_open_paren(s),
    ensures
        scan(s, p).0 != Some(SpecToken::LeftParen),
    decreases s.len() - p,
{
    if 0 <= p < s.len() && crate::tokenizer::is_blank(s[p]) {
        lemma_scan_no_paren(s, p + 1);
    }
}

/// The state is one that the lexer reaches, and no parenthesis is in hand.
pub open spec fn plain_state(s: Seq<char>, st: PState) -> bool {
    valid(s, st) && !(st.cur is LeftParen)
}

proof fn lemma_advance_plain(s: Seq<char>, st: PState)
    requires
        no_open_paren(s),
        valid(s, st),
    ensures
        advance(s, st) matches Ok(st1) ==> plain_state(s, st1) && (!(st.cur is Eof) ==> measure(
            s,
            st1,
        ) < measure(s, st)),
{
    lemma_advance(s, st);
    lemma_scan_no_paren(s, st.pos);
}

proof fn lemma_gen_grouped(s: Seq<char>, st: PState, minp: OperPrec)
    requires
        no_open_paren(s),
        plain_state(s, st),
    ensures
        gen(s, st, minp) matches Ok((t, st2)) ==> grouped_by_level(t) && node_level(t)
            > minp.rank() && prec_of(st2.cur).rank() <= minp.rank() && plain_state(s, st2),
    decreases measure(s, st), 2nat,
{
    lemma_primary_grouped(s, st);
    if let Ok((left, st1)) = primary(s, st) {
        if measure(s, st1) < measure(s, st) {
            lemma_rest_grouped(s, left, st1, minp);
        }
    }
}

proof fn lemma_primary_grouped(s: Seq<char>, st: PState)
    requires
        no_open_paren(s),
        plain_state(s, st),
    ensures
        primary(s, st) matches Ok((t, st2)) ==> grouped_by_level(t) && node_level(t) == 6
            && plain_state(s, st2),
    decreases measure(s, st), 1nat,
{
    lemma_advance_plain(s, st);
    if st.cur is Subtract {
        if let Ok(st1) = advance(s, st) {
            lemma_gen_grouped(s, st1, OperPrec::Negative);
        }
    }
}

proof fn lemma_rest_grouped(s: Seq<char>, left: SpecNode, st: PState, minp: OperPrec)
    requires
        no_open_paren(s),
        plain_state(s, st),
        grouped_by_level(left),
        node_level(left) > minp.rank(),
        prec_of(st.cur).rank() <= minp.rank() || node_level(left) >= prec_of(st.cur).rank(),
    ensures
        rest(s, left, st, minp) matches Ok((t, st2)) ==> grouped_by_level(t) && node_level(t)
            > minp.rank() && prec_of(st2.cur).rank() <= minp.rank() && plain_state(s, st2),
    decreases measure(s, st), 1nat,
{
    if minp.rank() < prec_of(st.cur).rank() {
        lemma_extend_grouped(s, left, st);
        if let Ok((node, st2)) = extend(s, left, st) {
            if measure(s, st2) < measure(s, st) {
                lemma_rest_grouped(s, node, st2, minp);
            }
        }
    }
}

proof fn lemma_extend_grouped(s: Seq<char>, left: SpecNode, st: PState)
    requires
        no_open_paren(s),
        plain_state(s, st),
        prec_of(st.cur).rank() > 0,
        grouped_by_level(left),
        node_level(left) >= prec_of(st.cur).rank(),
    ensures
        extend(s, left, st) matches Ok((t, st2)) ==> grouped_by_level(t) && node_level(t)
            == prec_of(st.cur).rank() && prec_of(st2.cur).rank() <= prec_of(st.cur).rank()
            && plain_state(s, st2),
    decreases measure(s, st), 0nat,
{
    lemma_advance_plain(s, st);
    if let Ok(st1) = advance(s, st) {
        lemma_gen_grouped(s, st1, prec_of(st.cur));
    }
}

/// Without parentheses, a parsed tree groups by precedence: the right
/// operand of each operator is a leaf, a negation or an operator of a higher
/// level, its left operand one of the same level or higher (so one level
/// groups to the left), and a negation applies to a leaf or a negation.
pub proof fn lemma_grouping_by_precedence(s: Seq<char>)
    requires
        no_open_paren(s),
    ensures
        parse_spec(s) matches Ok(t) ==> grouped_by_level(t),
{
    lemma_scan_progress(s, 0);
    lemma_scan_numeral(s, 0);
    lemma_scan_no_paren(s, 0);
    if let Ok(st) = start(s) {
        lemma_gen_grouped(s, st, OperPrec::DefaultZero);
    }
}

/// The infix operator that the character `c` stands for, if any.
pub open spec fn infix_token(c: char) -> Option<SpecToken> {
    match crate::tokenizer::symbol_token(c) {
        Some(t) => if prec_of(t).rank() > 0 {
            Some(t)
        } else {
            None
        },
        None => None,
    }
}

/// In `a o1 b o2 c`, with one-digit operands, the second operator takes
/// `b` from the first when it binds more tightly; otherwise, and so also
/// between operators of one level, the first operator groups first.
pub proof fn lemma_precedence(a: char, o1: char, b: char, o2: char, c: char)
    requires
        crate::tokenizer::is_digit(a),
        crate::tokenizer::is_digit(b),
        crate::tokenizer::is_digit(c),
        infix_token(o1) is Some,
        infix_token(o2) is Some,
    ensures
        ({
            let (t1, t2) = (infix_token(o1)->0, infix_token(o2)->0);
            let (x, y, z) = (
                Box::new(SpecNode::Number(seq![a])),
                Box::new(SpecNode::Number(seq![b])),
                Box::new(SpecNode::Number(seq![c])),
            );
            parse_spec(seq![a, o1, b, o2, c]) == if prec_of(t1).rank() < prec_of(t2).rank() {
                Ok::<SpecNode, Fault>(
                    SpecNode::Binary(
                        binop_of(t1),
                        x,
                        Box::new(SpecNode::Binary(binop_of(t2), y, z)),
                    ),
                )
            } else {
                Ok::<SpecNode, Fault>(
                    SpecNode::Binary(
                        binop_of(t2),
                        Box::new(SpecNode::Binary(binop_of(t1), x, y)),
                        z,
                    ),
                )
            }
        }),
{
    let s = seq![a, o1, b, o2, c];
    let (t1, t2) = (infix_token(o1)->0, infix_token(o2)->0);
    let (p1, p2) = (prec_of(t1), prec_of(t2));
    let (x, y, z) = (SpecNode::Number(seq![a]), SpecNode::Number(seq![b]), SpecNode::Number(seq![c]));
    assert(crate::tokenizer::numeral_end(s, 1) == 1);
    assert(crate::tokenizer::numeral_end(s, 3) == 3);
    assert(crate::tokenizer::numeral_end(s, 5) == 5);
    assert(s.subrange(0, 1) =~= seq![a]);
    assert(s.subrange(2, 3) =~= seq![b]);
    assert(s.subrange(4, 5) =~= seq![c]);
    assert(seq![a].drop_last() =~= Seq::<char>::empty());
    assert(seq![b].drop_last() =~= Seq::<char>::empty());
    assert(seq![c].drop_last() =~= Seq::<char>::empty());
    assert(crate::tokenizer::dot_count(Seq::<char>::empty()) == 0);
    assert(seq![a].last() == a && seq![b].last() == b && seq![c].last() == c);
    assert(crate::tokenizer::dot_count(seq![a]) == 0);
    assert(crate::tokenizer::dot_count(seq![b]) == 0);
    assert(crate::tokenizer::dot_count(seq![c]) == 0);
    assert(scan(s, 0) == (Some(SpecToken::Num(seq![a])), 1int));
    assert(scan(s, 1) == (Some(t1), 2int));
    assert(scan(s, 2) == (Some(SpecToken::Num(seq![b])), 3int));
    assert(scan(s, 3) == (Some(t2), 4int));
    assert(scan(s, 4) == (Some(SpecToken::Num(seq![c])), 5int));
    assert(scan(s, 5) == (Some(SpecToken::Eof), 5int));
    let st1 = PState { pos: 1, cur: SpecToken::Num(seq![a]) };
    let st2 = PState { pos: 2, cur: t1 };
    let st3 = PState { pos: 3, cur: SpecToken::Num(seq![b]) };
    let st4 = PState { pos: 4, cur: t2 };
    let st5 = PState { pos: 5, cur: SpecToken::Num(seq![c]) };
    let st6 = PState { pos: 5, cur: SpecToken::Eof };
    assert(start(s) == Ok::<PState, Fault>(st1));
    assert(primary(s, st1) == Ok::<(SpecNode, PState), Fault>((x, st2)));
    assert(primary(s, st3) == Ok::<(SpecNode, PState), Fault>((y, st4)));
    assert(primary(s, st5) == Ok::<(SpecNode, PState), Fault>((z, st6)));
    assert(gen(s, st5, p2) == Ok::<(SpecNode, PState), Fault>((z, st6)));
    assert(gen(s, st5, OperPrec::DefaultZero) == Ok::<(SpecNode, PState), Fault>((z, st6)));
    let yz = SpecNode::Binary(binop_of(t2), Box::new(y), Box::new(z));
    let xy = SpecNode::Binary(binop_of(t1), Box::new(x), Box::new(y));
    if p1.rank() < p2.rank() {
        assert(extend(s, y, st4) == Ok::<(SpecNode, PState), Fault>((yz, st6)));
        assert(rest(s, yz, st6, p1) == Ok::<(SpecNode, PState), Fault>((yz, st6)));
        assert(rest(s, y, st4, p1) == Ok::<(SpecNode, PState), Fault>((yz, st6)));
        assert(gen(s, st3, p1) == Ok::<(SpecNode, PState), Fault>((yz, st6)));
        let top = SpecNode::Binary(binop_of(t1), Box::new(x), Box::new(yz));
        assert(extend(s, x, st2) == Ok::<(SpecNode, PState), Fault>((top, st6)));
        assert(rest(s, top, st6, OperPrec::DefaultZero) == Ok::<(SpecNode, PState), Fault>((top, st6)));
        assert(rest(s, x, st2, OperPrec::DefaultZero) == Ok::<(SpecNode, PState), Fault>((top, st6)));
    } else {
        assert(rest(s, y, st4, p1) == Ok::<(SpecNode, PState), Fault>((y, st4)));
        assert(gen(s, st3, p1) == Ok::<(SpecNode, PState), Fault>((y, st4)));
        assert(extend(s, x, st2) == Ok::<(SpecNode, PState), Fault>((xy, st4)));
        let top = SpecNode::Binary(binop_of(t2), Box::new(xy), Box::new(z));
        assert(extend(s, xy, st4) == Ok::<(SpecNode, PState), Fault>((top, st6)));
        assert(rest(s, top, st6, OperPrec::DefaultZero) == Ok::<(SpecNode, PState), Fault>((top, st6)));
        assert(rest(s, xy, st4, OperPrec::DefaultZero) == Ok::<(SpecNode, PState), Fault>((top, st6)));
        assert(rest(s, x, st2, OperPrec::DefaultZero) == Ok::<(SpecNode, PState), Fault>((top, st6)));
    }
    assert(gen(s, st1, OperPrec::DefaultZero) matches Ok(_));
}

/// `s` alternates one-digit operands and infix operators of the level
/// `level`, starting and ending with an operand.
pub open spec fn is_chain(s: Seq<char>, level: OperPrec) -> bool {
    &&& s.len() % 2 == 1
    &&& level.rank() > 0
    &&& forall|j: int|
        0 <= j < s.len() ==> (j % 2 == 0 ==> crate::tokenizer::is_digit(#[trigger] s[j])) && (j % 2
            == 1 ==> infix_token(s[j]) is Some && prec_of(infix_token(s[j])->0) == level)
}

/// The operands of a chain grouped from the left, up to operand `k`.
pub open spec fn left_fold(s: Seq<char>, k: nat) -> SpecNode
    decreases k,
{
    if k == 0 {
        SpecNode::Number(seq![s[0]])
    } else {
        SpecNode::Binary(
            binop_of(infix_token(s[2 * k - 1])->0),
            Box::new(left_fold(s, (k - 1) as nat)),
            Box::new(SpecNode::Number(seq![s[2 * k as int]])),
        )
    }
}

/// The parser's state once operand `k` of a chain is read.
spec fn chain_state(s: Seq<char>, k: int) -> PState {
    if 2 * k + 1 < s.len() {
        PState { pos: 2 * k + 2, cur: infix_token(s[2 * k + 1])->0 }
    } else {
        PState { pos: s.len() as int, cur: SpecToken::Eof }
    }
}

proof fn lemma_chain_scan(s: Seq<char>, level: OperPrec, k: int)
    requires
        is_chain(s, level),
        0 <= 2 * k < s.len(),
    ensures
        scan(s, 2 * k) == (Some(SpecToken::Num(seq![s[2 * k]])), 2 * k + 1),
        crate::tokenizer::is_numeral(seq![s[2 * k]]),
        advance(s, PState { pos: 2 * k + 1, cur: SpecToken::Num(seq![s[2 * k]]) }) == Ok::<
            PState,
            Fault,
        >(chain_state(s, k)),
{
    let d = s[2 * k];
    assert(crate::tokenizer::is_digit(s[2 * k]));
    if 2 * k + 1 < s.len() {
        assert((2 * k + 1) % 2 == 1);
        assert(infix_token(s[2 * k + 1]) is Some);
        assert(crate::tokenizer::numeral_end(s, 2 * k + 1) == 2 * k + 1);
        assert(scan(s, 2 * k + 1) == (infix_token(s[2 * k + 1]), 2 * k + 2));
    } else {
        assert(crate::tokenizer::numeral_end(s, 2 * k + 1) == 2 * k + 1);
        assert(scan(s, 2 * k + 1) == (Some(SpecToken::Eof), 2 * k + 1));
    }
    assert(s.subrange(2 * k, 2 * k + 1) =~= seq![d]);
    assert(seq![d].drop_last() =~= Seq::<char>::empty());
    assert(crate::tokenizer::dot_count(Seq::<char>::empty()) == 0);
    assert(seq![d].last() == d);
    assert(crate::tokenizer::dot_count(seq![d]) == 0);
}

proof fn lemma_chain_rest(s: Seq<char>, level: OperPrec, k: nat, minp: OperPrec)
    requires
        is_chain(s, level),
        2 * k < s.len(),
        minp.rank() < level.rank(),
    ensures
        valid(s, chain_state(s, k as int)),
        rest(s, left_fold(s, k), chain_state(s, k as int), minp) == Ok::<(SpecNode, PState), Fault>(
            (left_fold(s, (s.len() / 2) as nat), chain_state(s, (s.len() / 2) as int)),
        ),
    decreases s.len() - 2 * k,
{
    let st = chain_state(s, k as int);
    if 2 * k + 1 < s.len() {
        assert((2 * k + 1) % 2 == 1);
        assert(infix_token(s[2 * k as int + 1]) is Some);
        assert(valid(s, st));
        let k1 = (k + 1) as nat;
        lemma_chain_scan(s, level, k1 as int);
        assert(scan(s, st.pos) == (Some(SpecToken::Num(seq![s[2 * k1 as int]])), 2 * k1 as int + 1));
        let st1 = PState { pos: 2 * k1 as int + 1, cur: SpecToken::Num(seq![s[2 * k1 as int]]) };
        assert(advance(s, st) == Ok::<PState, Fault>(st1));
        let st2 = chain_state(s, k1 as int);
        let leaf = SpecNode::Number(seq![s[2 * k1 as int]]);
        if 2 * k1 + 1 < s.len() {
            assert((2 * k1 + 1) % 2 == 1);
            assert(infix_token(s[2 * k1 as int + 1]) is Some);
        }
        assert(valid(s, st2));
        assert(primary(s, st1) == Ok::<(SpecNode, PState), Fault>((leaf, st2)));
        assert(rest(s, leaf, st2, level) == Ok::<(SpecNode, PState), Fault>((leaf, st2)));
        assert(gen(s, st1, level) == Ok::<(SpecNode, PState), Fault>((leaf, st2)));
        assert(extend(s, left_fold(s, k), st) == Ok::<(SpecNode, PState), Fault>(
            (left_fold(s, k1), st2),
        ));
        lemma_chain_rest(s, level, k1, minp);
    } else {
        assert(s.len() / 2 == k);
    }
}

/// A chain of one-digit operands joined by operators of one level groups to
/// the left: `a o1 b o2 c ... ` parses as `((a o1 b) o2 c) ...`.
pub proof fn lemma_chain_groups_left(s: Seq<char>, level: OperPrec)
    requires
        is_chain(s, level),
    ensures
        parse_spec(s) == Ok::<SpecNode, Fault>(left_fold(s, (s.len() / 2) as nat)),
{
    lemma_chain_scan(s, level, 0);
    lemma_chain_rest(s, level, 0, OperPrec::DefaultZero);
    let st = PState { pos: 1, cur: SpecToken::Num(seq![s[0]]) };
    assert(start(s) == Ok::<PState, Fault>(st));
    assert(primary(s, st) == Ok::<(SpecNode, PState), Fault>((left_fold(s, 0), chain_state(s, 0))));
}

} // verus!
