//! The lexer: from text to tokens, one token per call.
use crate::token::{SpecToken, Token};
use vstd::prelude::*;

verus! {

/// Characters the lexer skips between tokens.
pub open spec fn is_blank(c: char) -> bool {
    c == ' ' || c == '\t' || c == '\n'
}

pub open spec fn is_digit(c: char) -> bool {
    '0' <= c && c <= '9'
}

/// Characters that continue a numeric literal.
pub open spec fn in_numeral(c: char) -> bool {
    is_digit(c) || c == '.'
}

/// The token of a one-character operator or parenthesis.
pub open spec fn symbol_token(c: char) -> Option<SpecToken> {
    if c == '+' {
        Some(SpecToken::Add)
    } else if c == '-' {
        Some(SpecToken::Subtract)
    } else if c == '*' {
        Some(SpecToken::Multiply)
    } else if c == '/' {
        Some(SpecToken::Divide)
    } else if c == '^' {
        Some(SpecToken::Caret)
    } else if c == '&' {
        Some(SpecToken::And)
    } else if c == '|' {
        Some(SpecToken::Or)
    } else if c == '(' {
        Some(SpecToken::LeftParen)
    } else if c == ')' {
        Some(SpecToken::RightParen)
    } else {
        None
    }
}

/// Where the run of digits and dots that starts at `p` ends.
pub open spec fn numeral_end(s: Seq<char>, p: int) -> int
    decreases s.len() - p,
{
    if 0 <= p < s.len() && in_numeral(s[p]) {
        numeral_end(s, p + 1)
    } else {
        p
    }
}

/// The number of dots in a literal.
pub open spec fn dot_count(lit: Seq<char>) -> nat
    decreases lit.len(),
{
    if lit.len() == 0 {
        0
    } else {
        dot_count(lit.drop_last()) + if lit.last() == '.' { 1nat } else { 0nat }
    }
}

/// A run of digits and dots that starts with a digit reads as a decimal
/// number exactly when it holds at most one dot.
pub open spec fn numeral_token(lit: Seq<char>) -> Option<SpecToken> {
    if dot_count(lit) <= 1 {
        Some(SpecToken::Num(lit))
    } else {
        None
    }
}

/// One step of the lexer from position `p` of `s`: the token found (`None`
/// for an unrecognized character or a malformed literal) and the position
/// after it. At the end of the text the step yields the end marker and stays.
pub open spec fn scan(s: Seq<char>, p: int) -> (Option<SpecToken>, int)
    decreases s.len() - p,
{
    if p < 0 || p >= s.len() {
        (Some(SpecToken::Eof), p)
    } else if is_blank(s[p]) {
        scan(s, p + 1)
    } else if is_digit(s[p]) {
        let e = numeral_end(s, p + 1);
        (numeral_token(s.subrange(p, e)), e)
    } else {
        (symbol_token(s[p]), p + 1)
    }
}

pub open spec fn token_view(t: Option<Token>) -> Option<SpecToken> {
    match t {
        Some(x) => Some(x@),
        None => None,
    }
}

proof fn lemma_numeral_end(s: Seq<char>, p: int)
    requires
        0 <= p <= s.len(),
    ensures
        p <= numeral_end(s, p) <= s.len(),
    decreases s.len() - p,
{
    if p < s.len() && in_numeral(s[p]) {
        lemma_numeral_end(s, p + 1);
    }
}

/// A step of the lexer never moves backwards or past the end, and moves
/// forward whenever it yields anything but the end marker.
pub proof fn lemma_scan_progress(s: Seq<char>, p: int)
    requires
        0 <= p <= s.len(),
    ensures
        p <= scan(s, p).1 <= s.len(),
        scan(s, p).0 != Some(SpecToken::Eof) ==> p < scan(s, p).1,
        scan(s, p).0 == Some(SpecToken::Eof) ==> scan(s, p).1 == s.len(),
    decreases s.len() - p,
{
    if p < s.len() {
        if is_blank(s[p]) {
            lemma_scan_progress(s, p + 1);
        } else if is_digit(s[p]) {
            lemma_numeral_end(s, p + 1);
        }
    }
}

/// A decimal literal: a digit, then digits and at most one dot in all.
pub open spec fn is_numeral(lit: Seq<char>) -> bool {
    &&& lit.len() > 0
    &&& is_digit(lit[0])
    &&& forall|i: int| 0 <= i < lit.len() ==> #[trigger] in_numeral(lit[i])
    &&& dot_count(lit) <= 1
}

proof fn lemma_numeral_run(s: Seq<char>, p: int, q: int)
    requires
        0 <= p <= q <= s.len(),
        forall|i: int| p <= i < q ==> #[trigger] in_numeral(s[i]),
    ensures
        q <= numeral_end(s, q) <= s.len(),
        forall|i: int| p <= i < numeral_end(s, q) ==> #[trigger] in_numeral(s[i]),
    decreases s.len() - q,
{
    if q < s.len() && in_numeral(s[q]) {
        lemma_numeral_run(s, p, q + 1);
    }
}

/// Every numeric token that the lexer yields is a decimal literal.
pub proof fn lemma_scan_numeral(s: Seq<char>, p: int)
    ensures
        scan(s, p).0 matches Some(SpecToken::Num(lit)) ==> is_numeral(lit),
    decreases s.len() - p,
{
    if 0 <= p < s.len() {
        if is_blank(s[p]) {
            lemma_scan_numeral(s, p + 1);
        } else if is_digit(s[p]) {
            lemma_numeral_run(s, p, p + 1);
            let lit = s.subrange(p, numeral_end(s, p + 1));
            assert forall|i: int| 0 <= i < lit.len() implies #[trigger] in_numeral(lit[i]) by {
                assert(in_numeral(s[p + i]));
            }
        }
    }
}

/// A lexer over a borrowed text, with a forward cursor.
pub struct Tokenizer<'a> {
    expr: &'a str,
    pos: usize,
    len: usize,
}

impl<'a> Tokenizer<'a> {
    /// The text being lexed.
    pub closed spec fn text(&self) -> Seq<char> {
        self.expr@
    }

    /// The position of the cursor in the text.
    pub closed spec fn cursor(&self) -> int {
        self.pos as int
    }

    pub closed spec fn wf(&self) -> bool {
        &&& self.len as int == self.expr@.len()
        &&& self.pos <= self.len
    }

    /// A lexer positioned at the start of `new_expr`.
    pub fn new(new_expr: &'a str) -> (r: Self)
        ensures
            r.wf(),
            r.text() == new_expr@,
            r.cursor() == 0,
            0 <= r.cursor() <= r.text().len(),
    {
        Tokenizer { expr: new_expr, pos: 0, len: new_expr.unicode_len() }
    }

    /// Reads the rest of a numeric literal whose first digit is at `start`,
    /// with the cursor just after that digit.
    fn parse_number(&mut self, start: usize) -> (r: Option<Token>)
        requires
            old(self).wf(),
            start < old(self).pos,
            old(self).pos == start + 1,
            is_digit(old(self).text()[start as int]),
        ensures
            final(self).wf(),
            final(self).text() == old(self).text(),
            token_view(r) == numeral_token(
                old(self).text().subrange(start as int, numeral_end(old(self).text(), start + 1)),
            ),
            final(self).cursor() == numeral_end(old(self).text(), start + 1),
    {
        let ghost s = self.expr@;
        let mut dots: usize = 0;
        proof {
            assert(s.subrange(start as int, start + 1).drop_last() =~= s.subrange(start as int, start as int));
            assert(dot_count(s.subrange(start as int, start as int)) == 0);
        }
        while self.pos < self.len
            invariant
                self.wf(),
                self.expr@ == s,
                start < self.pos,
                numeral_end(s, start + 1) == numeral_end(s, self.pos as int),
                dots as nat == dot_count(s.subrange(start as int, self.pos as int)),
                dots <= self.pos,
            ensures
                numeral_end(s, self.pos as int) == self.pos as int,
            decreases self.len - self.pos,
        {
            let c = self.expr.get_char(self.pos);
            if ('0' <= c && c <= '9') || c == '.' {
                proof {
                    assert(s.subrange(start as int, self.pos + 1).drop_last() =~= s.subrange(
                        start as int,
                        self.pos as int,
                    ));
                }
                if c == '.' {
                    dots = dots + 1;
                }
                self.pos = self.pos + 1;
            } else {
                break;
            }
        }
        let lit = self.expr.substring_char(start, self.pos).to_owned();
        assert(lit@ == s.subrange(start as int, self.pos as int));
        if dots <= 1 {
            Some(Token::Num(lit))
        } else {
            None
        }
    }
}

impl<'a> Tokenizer<'a> {
    /// The next token: whitespace is skipped; at the end of the text the end
    /// marker comes, and keeps coming on later calls; an unrecognized
    /// character or a literal with more than one dot gives `None`, and the
    /// cursor moves past it.
    pub fn next(&mut self) -> (r: Option<Token>)
        requires
            old(self).wf(),
        ensures
            final(self).wf(),
            final(self).text() == old(self).text(),
            0 <= final(self).cursor() <= final(self).text().len(),
            (token_view(r), final(self).cursor()) == scan(old(self).text(), old(self).cursor()),
    {
        let ghost s = self.expr@;
        let ghost p0 = self.pos as int;
        while self.pos < self.len
            invariant
                self.wf(),
                self.expr@ == s,
                scan(s, p0) == scan(s, self.pos as int),
            ensures
                self.pos < self.len ==> !is_blank(s[self.pos as int]),
            decreases self.len - self.pos,
        {
            let c = self.expr.get_char(self.pos);
            if c == ' ' || c == '\t' || c == '\n' {
                self.pos = self.pos + 1;
            } else {
                break;
            }
        }
        if self.pos >= self.len {
            return Some(Token::EOF);
        }
        let c = self.expr.get_char(self.pos);
        let start = self.pos;
        self.pos = self.pos + 1;
        if '0' <= c && c <= '9' {
            self.parse_number(start)
        } else if c == '+' {
            Some(Token::Add)
        } else if c == '-' {
            Some(Token::Subtract)
        } else if c == '*' {
            Some(Token::Multiply)
        } else if c == '/' {
            Some(Token::Divide)
        } else if c == '^' {
            Some(Token::Caret)
        } else if c == '&' {
            Some(Token::And)
        } else if c == '|' {
            Some(Token::Or)
        } else if c == '(' {
            Some(Token::LeftParen)
        } else if c == ')' {
            Some(Token::RightParen)
        } else {
            None
        }
    }
}

} // verus!
