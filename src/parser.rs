use vstd::prelude::*;

use crate::lexer::{
    at_most_one_point, is_digit, is_numeral_char, lemma_numeral_end, lex, lex_from, numeral_end,
    token_of_char, tokenize, view_tokens, Operation, Token, TokenView,
};

verus! {

/// An expression tree over the free variable `x`. `Invalid` stands for a
/// text that could not be parsed; it never occurs below the root.
#[derive(Debug, PartialEq)]
pub enum Expression {
    Invalid,
    Number(Vec<char>),
    X,
    Operation(Box<Expression>, Operation, Box<Expression>),
}

/// The mathematical model of an `Expression`.
pub enum ExpressionView {
    Invalid,
    Number(Seq<char>),
    X,
    Operation(Box<ExpressionView>, Operation, Box<ExpressionView>),
}

impl ExpressionView {
    /// A tree with no `Invalid` anywhere in it.
    pub open spec fn well_formed(self) -> bool
        decreases self,
    {
        match self {
            ExpressionView::Invalid => false,
            ExpressionView::Number(_) => true,
            ExpressionView::X => true,
            ExpressionView::Operation(l, _, r) => l.well_formed() && r.well_formed(),
        }
    }
}

impl View for Expression {
    type V = ExpressionView;

    open spec fn view(&self) -> ExpressionView
        decreases self,
    {
        match self {
            Expression::Invalid => ExpressionView::Invalid,
            Expression::Number(d) => ExpressionView::Number(d@),
            Expression::X => ExpressionView::X,
            Expression::Operation(l, op, r) => ExpressionView::Operation(
                Box::new((**l).view()),
                *op,
                Box::new((**r).view()),
            ),
        }
    }
}

impl Expression {
    /// Whether this is the failure marker, which must not be evaluated.
    pub fn is_invalid(&self) -> (b: bool)
        ensures
            b == self@ is Invalid,
    {
        match self {
            Expression::Invalid => true,
            _ => false,
        }
    }
}

/// One atomic value at `pos`: the variable, a numeral, or a bracketed term.
/// Returns the tree and the position after it.
pub open spec fn single_value(t: Seq<TokenView>, pos: int) -> (ExpressionView, int)
    decreases t.len() - pos, 0int,
{
    if pos < 0 || pos >= t.len() {
        (ExpressionView::Invalid, pos)
    } else {
        match t[pos] {
            TokenView::X => (ExpressionView::X, pos + 1),
            TokenView::Number(d) => (ExpressionView::Number(d), pos + 1),
            TokenView::BracketOpen => {
                let inner = term(t, pos + 1);
                if inner.0 is Invalid {
                    (ExpressionView::Invalid, pos)
                } else if 0 <= inner.1 < t.len() && t[inner.1] is BracketClosed {
                    (inner.0, inner.1 + 1)
                } else {
                    (ExpressionView::Invalid, pos)
                }
            },
            _ => (ExpressionView::Invalid, pos),
        }
    }
}

/// The rest of a factor after `lhs`, which ends at `p`: each `*` or `/`
/// takes a whole factor on its right, each `^` a single atomic value.
pub open spec fn factor_tail(t: Seq<TokenView>, lhs: ExpressionView, p: int) -> (
    ExpressionView,
    int,
)
    decreases t.len() - p, 0int,
{
    if 0 <= p < t.len() {
        match t[p] {
            TokenView::Operation(op) => {
                if op == Operation::Mul || op == Operation::Div {
                    let r = factor(t, p + 1);
                    if r.0 is Invalid {
                        (ExpressionView::Invalid, p)
                    } else if p < r.1 <= t.len() {
                        factor_tail(
                            t,
                            ExpressionView::Operation(Box::new(lhs), op, Box::new(r.0)),
                            r.1,
                        )
                    } else {
                        (ExpressionView::Invalid, p)
                    }
                } else if op == Operation::Pow {
                    let r = single_value(t, p + 1);
                    if r.0 is Invalid {
                        (ExpressionView::Invalid, p)
                    } else if p < r.1 <= t.len() {
                        factor_tail(
                            t,
                            ExpressionView::Operation(Box::new(lhs), op, Box::new(r.0)),
                            r.1,
                        )
                    } else {
                        (ExpressionView::Invalid, p)
                    }
                } else {
                    (lhs, p)
                }
            },
            _ => (lhs, p),
        }
    } else {
        (lhs, p)
    }
}

/// A factor at `pos`: an atomic value and the operators `*`, `/`, `^`
/// that follow it.
pub open spec fn factor(t: Seq<TokenView>, pos: int) -> (ExpressionView, int)
    decreases t.len() - pos, 1int,
{
    let v = single_value(t, pos);
    if v.0 is Invalid {
        (ExpressionView::Invalid, pos)
    } else if pos < v.1 <= t.len() {
        factor_tail(t, v.0, v.1)
    } else {
        (ExpressionView::Invalid, pos)
    }
}

/// A term at `pos`: a factor, then, where any operator follows it, that
/// operator and a whole term on its right.
pub open spec fn term(t: Seq<TokenView>, pos: int) -> (ExpressionView, int)
    decreases t.len() - pos, 2int,
{
    let l = factor(t, pos);
    if l.0 is Invalid {
        (ExpressionView::Invalid, pos)
    } else if pos < l.1 < t.len() {
        match t[l.1] {
            TokenView::Operation(op) => {
                let r = term(t, l.1 + 1);
                if r.0 is Invalid {
                    (ExpressionView::Invalid, pos)
                } else {
                    (ExpressionView::Operation(Box::new(l.0), op, Box::new(r.0)), r.1)
                }
            },
            _ => l,
        }
    } else {
        l
    }
}

pub open spec fn has_unknown(t: Seq<TokenView>) -> bool {
    exists|i: int| 0 <= i < t.len() && t[i] is Unknown
}

/// The tree that a text denotes: `Invalid` where it holds a malformed
/// numeral or a character outside the alphabet, else the term at its start.
pub open spec fn expression_of(s: Seq<char>) -> ExpressionView {
    match lex(s) {
        None => ExpressionView::Invalid,
        Some(t) => if has_unknown(t) {
            ExpressionView::Invalid
        } else {
            term(t, 0).0
        },
    }
}

/// The characters that a function text may hold.
pub open spec fn in_alphabet(c: char) -> bool {
    is_numeral_char(c) || c == ' ' || !(token_of_char(c) is Unknown)
}

proof fn lemma_lex_from_foreign(s: Seq<char>, i: nat, k: int)
    requires
        i <= k < s.len(),
        !in_alphabet(s[k]),
    ensures
        match lex_from(s, i) {
            None => true,
            Some(t) => has_unknown(t),
        },
    decreases s.len() - i,
{
    if s[i as int] == ' ' {
        lemma_lex_from_foreign(s, i + 1, k);
    } else if is_digit(s[i as int]) {
        let e = numeral_end(s, i + 1);
        lemma_numeral_end(s, i + 1);
        if at_most_one_point(s.subrange(i as int, e as int)) {
            if k < e {
                assert(is_numeral_char(s[k]));
            }
            lemma_lex_from_foreign(s, e, k);
            if let Some(rest) = lex_from(s, e) {
                let j = choose|j: int| 0 <= j < rest.len() && rest[j] is Unknown;
                let all = seq![TokenView::Number(s.subrange(i as int, e as int))] + rest;
                assert(all[j + 1] is Unknown);
            }
        }
    } else {
        if k > i {
            lemma_lex_from_foreign(s, i + 1, k);
            if let Some(rest) = lex_from(s, i + 1) {
                let j = choose|j: int| 0 <= j < rest.len() && rest[j] is Unknown;
                let all = seq![token_of_char(s[i as int])] + rest;
                assert(all[j + 1] is Unknown);
            }
        } else {
            if let Some(rest) = lex_from(s, i + 1) {
                let all = seq![token_of_char(s[i as int])] + rest;
                assert(all[0] is Unknown);
            }
        }
    }
}

/// A text that holds a character outside the alphabet anywhere denotes
/// `Invalid`.
pub proof fn lemma_foreign_char_invalid(s: Seq<char>, k: int)
    requires
        0 <= k < s.len(),
        !in_alphabet(s[k]),
    ensures
        expression_of(s) is Invalid,
{
    lemma_lex_from_foreign(s, 0, k);
}

pub proof fn lemma_single_value(t: Seq<TokenView>, pos: int)
    requires
        0 <= pos <= t.len(),
    ensures
        !(single_value(t, pos).0 is Invalid) ==> pos < single_value(t, pos).1 <= t.len()
            && single_value(t, pos).0.well_formed(),
    decreases t.len() - pos, 0int,
{
    if pos < t.len() && t[pos] is BracketOpen {
        lemma_term(t, pos + 1);
    }
}

pub proof fn lemma_factor_tail(t: Seq<TokenView>, lhs: ExpressionView, p: int)
    requires
        0 <= p <= t.len(),
        lhs.well_formed(),
    ensures
        !(factor_tail(t, lhs, p).0 is Invalid) ==> p <= factor_tail(t, lhs, p).1 <= t.len()
            && factor_tail(t, lhs, p).0.well_formed(),
    decreases t.len() - p, 0int,
{
    if 0 <= p < t.len() {
        if let TokenView::Operation(op) = t[p] {
            if op == Operation::Mul || op == Operation::Div {
                lemma_factor(t, p + 1);
                let r = factor(t, p + 1);
                if !(r.0 is Invalid) {
                    lemma_factor_tail(
                        t,
                        ExpressionView::Operation(Box::new(lhs), op, Box::new(r.0)),
                        r.1,
                    );
                }
            } else if op == Operation::Pow {
                lemma_single_value(t, p + 1);
                let r = single_value(t, p + 1);
                if !(r.0 is Invalid) {
                    lemma_factor_tail(
                        t,
                        ExpressionView::Operation(Box::new(lhs), op, Box::new(r.0)),
                        r.1,
                    );
                }
            }
        }
    }
}

pub proof fn lemma_factor(t: Seq<TokenView>, pos: int)
    requires
        0 <= pos <= t.len(),
    ensures
        !(factor(t, pos).0 is Invalid) ==> pos < factor(t, pos).1 <= t.len() && factor(
            t,
            pos,
        ).0.well_formed(),
    decreases t.len() - pos, 1int,
{
    lemma_single_value(t, pos);
    let v = single_value(t, pos);
    if !(v.0 is Invalid) {
        lemma_factor_tail(t, v.0, v.1);
    }
}

pub proof fn lemma_term(t: Seq<TokenView>, pos: int)
    requires
        0 <= pos <= t.len(),
    ensures
        !(term(t, pos).0 is Invalid) ==> pos < term(t, pos).1 <= t.len() && term(
            t,
            pos,
        ).0.well_formed(),
    decreases t.len() - pos, 2int,
{
    lemma_factor(t, pos);
    let l = factor(t, pos);
    if !(l.0 is Invalid) && pos < l.1 < t.len() {
        lemma_term(t, l.1 + 1);
    }
}

fn copy_numeral(d: &Vec<char>) -> (r: Vec<char>)
    ensures
        r@ == d@,
{
    let mut r: Vec<char> = Vec::new();
    let mut i: usize = 0;
    while i < d.len()
        invariant
            i <= d.len(),
            r@ == d@.subrange(0, i as int),
        decreases d.len() - i,
    {
        r.push(d[i]);
        i = i + 1;
        proof {
            assert(r@ =~= d@.subrange(0, i as int));
        }
    }
    proof {
        assert(r@ =~= d@);
    }
    r
}

/// Parses one atomic value at `pos`: the variable, a numeral, or a term in
/// brackets. Returns the tree and the position after what it consumed.
pub fn parse_single_value(tokens: &Vec<Token>, pos: usize) -> (r: (Expression, usize))
    requires
        pos <= tokens.len(),
    ensures
        r.0@ == single_value(view_tokens(tokens@), pos as int).0,
        r.1 as int == single_value(view_tokens(tokens@), pos as int).1,
    decreases tokens@.len() - pos, 0int,
{
    let ghost t = view_tokens(tokens@);
    if pos >= tokens.len() {
        return (Expression::Invalid, pos);
    }
    assert(t[pos as int] == tokens@[pos as int]@);
    match &tokens[pos] {
        Token::X => (Expression::X, pos + 1),
        Token::Number(d) => (Expression::Number(copy_numeral(d)), pos + 1),
        Token::BracketOpen => {
            let (inner, p) = parse_term(tokens, pos + 1);
            proof {
                lemma_term(t, pos + 1);
            }
            if inner.is_invalid() {
                return (Expression::Invalid, pos);
            }
            if p < tokens.len() {
                assert(t[p as int] == tokens@[p as int]@);
                match &tokens[p] {
                    Token::BracketClosed => {
                        return (inner, p + 1);
                    },
                    _ => {},
                }
            }
            (Expression::Invalid, pos)
        },
        _ => (Expression::Invalid, pos),
    }
}

/// Parses a factor at `pos`: an atomic value, then, while `*` or `/`
/// follows, the operator and a whole factor, and while `^` follows, the
/// operator and one atomic value. So `*` and `/` group to the right and `^`
/// to the left.
pub fn parse_factor(tokens: &Vec<Token>, pos: usize) -> (r: (Expression, usize))
    requires
        pos <= tokens.len(),
    ensures
        r.0@ == factor(view_tokens(tokens@), pos as int).0,
        r.1 as int == factor(view_tokens(tokens@), pos as int).1,
    decreases tokens@.len() - pos, 1int,
{
    let ghost t = view_tokens(tokens@);
    let (first, p) = parse_single_value(tokens, pos);
    proof {
        lemma_single_value(t, pos as int);
    }
    if first.is_invalid() {
        return (Expression::Invalid, pos);
    }
    let mut lhs = first;
    let mut cur = p;
    loop
        invariant
            t == view_tokens(tokens@),
            pos < cur <= tokens.len(),
            lhs@.well_formed(),
            factor(t, pos as int) == factor_tail(t, lhs@, cur as int),
        decreases tokens.len() - cur,
    {
        if cur >= tokens.len() {
            return (lhs, cur);
        }
        assert(t[cur as int] == tokens@[cur as int]@);
        let op = match &tokens[cur] {
            Token::Operation(op) => *op,
            _ => {
                return (lhs, cur);
            },
        };
        if op == Operation::Mul || op == Operation::Div {
            let (rhs, q) = parse_factor(tokens, cur + 1);
            proof {
                lemma_factor(t, cur + 1);
            }
            if rhs.is_invalid() {
                return (Expression::Invalid, cur);
            }
            lhs = Expression::Operation(Box::new(lhs), op, Box::new(rhs));
            cur = q;
        } else if op == Operation::Pow {
            let (rhs, q) = parse_single_value(tokens, cur + 1);
            proof {
                lemma_single_value(t, cur + 1);
            }
            if rhs.is_invalid() {
                return (Expression::Invalid, cur);
            }
            lhs = Expression::Operation(Box::new(lhs), op, Box::new(rhs));
            cur = q;
        } else {
            return (lhs, cur);
        }
    }
}

/// Parses a term at `pos`: a factor, then, where an operator of any kind
/// follows, the operator and a whole term. So `+` and `-` group to the
/// right.
pub fn parse_term(tokens: &Vec<Token>, pos: usize) -> (r: (Expression, usize))
    requires
        pos <= tokens.len(),
    ensures
        r.0@ == term(view_tokens(tokens@), pos as int).0,
        r.1 as int == term(view_tokens(tokens@), pos as int).1,
    decreases tokens@.len() - pos, 2int,
{
    let ghost t = view_tokens(tokens@);
    let (lhs, p) = parse_factor(tokens, pos);
    proof {
        lemma_factor(t, pos as int);
    }
    if lhs.is_invalid() {
        return (Expression::Invalid, pos);
    }
    if p < tokens.len() {
        assert(t[p as int] == tokens@[p as int]@);
        match &tokens[p] {
            Token::Operation(op) => {
                let op = *op;
                let (rhs, q) = parse_term(tokens, p + 1);
                if rhs.is_invalid() {
                    return (Expression::Invalid, pos);
                }
                return (Expression::Operation(Box::new(lhs), op, Box::new(rhs)), q);
            },
            _ => {},
        }
    }
    (lhs, p)
}

fn contains_unknown(tokens: &Vec<Token>) -> (b: bool)
    ensures
        b == has_unknown(view_tokens(tokens@)),
{
    let ghost t = view_tokens(tokens@);
    let mut i: usize = 0;
    while i < tokens.len()
        invariant
            t == view_tokens(tokens@),
            i <= tokens.len(),
            forall|k: int| 0 <= k < i ==> !(#[trigger] t[k] is Unknown),
        decreases tokens.len() - i,
    {
        assert(t[i as int] == tokens@[i as int]@);
        match &tokens[i] {
            Token::Unknown => {
                return true;
            },
            _ => {},
        }
        i = i + 1;
    }
    false
}

fn chars_of(s: &String) -> (r: Vec<char>)
    ensures
        r@ == s@,
{
    let text = s.as_str();
    let n = text.unicode_len();
    let mut r: Vec<char> = Vec::new();
    let mut i: usize = 0;
    while i < n
        invariant
            text@ == s@,
            n == s@.len(),
            i <= n,
            r@ == s@.subrange(0, i as int),
        decreases n - i,
    {
        r.push(text.get_char(i));
        i = i + 1;
        proof {
            assert(r@ =~= s@.subrange(0, i as int));
        }
    }
    proof {
        assert(r@ =~= s@);
    }
    r
}

/// Parses a function of `x`. The result is `Invalid` where the text holds a
/// character outside the alphabet, a numeral with two decimal points, or no
/// well-formed term at its start; tokens after that term are ignored.
pub fn parse(function: String) -> (r: Expression)
    ensures
        r@ == expression_of(function@),
        r@ is Invalid || r@.well_formed(),
{
    let chars = chars_of(&function);
    match tokenize(chars) {
        None => Expression::Invalid,
        Some(tokens) => {
            if contains_unknown(&tokens) {
                return Expression::Invalid;
            }
            proof {
                lemma_term(view_tokens(tokens@), 0);
            }
            let (e, _) = parse_term(&tokens, 0);
            e
        },
    }
}

} // verus!
