use vstd::prelude::*;

verus! {

/// The five binary operators of the grammar.
#[derive(Clone, Copy, Debug, PartialEq, Eq, Structural)]
pub enum Operation {
    Add,
    Sub,
    Mul,
    Div,
    Pow,
}

/// A lexical unit. A numeral keeps its text: a digit followed by digits
/// and at most one decimal point.
#[derive(Debug, PartialEq)]
pub enum Token {
    Unknown,
    X,
    Number(Vec<char>),
    Operation(Operation),
    BracketOpen,
    BracketClosed,
}

/// The mathematical model of a `Token`.
pub enum TokenView {
    Unknown,
    X,
    Number(Seq<char>),
    Operation(Operation),
    BracketOpen,
    BracketClosed,
}

impl View for Token {
    type V = TokenView;

    open spec fn view(&self) -> TokenView {
        match self {
            Token::Unknown => TokenView::Unknown,
            Token::X => TokenView::X,
            Token::Number(d) => TokenView::Number(d@),
            Token::Operation(op) => TokenView::Operation(*op),
            Token::BracketOpen => TokenView::BracketOpen,
            Token::BracketClosed => TokenView::BracketClosed,
        }
    }
}

/// The models of a sequence of tokens, in order.
pub open spec fn view_tokens(v: Seq<Token>) -> Seq<TokenView> {
    v.map_values(|t: Token| t@)
}

pub open spec fn is_digit(c: char) -> bool {
    '0' <= c && c <= '9'
}

pub open spec fn is_numeral_char(c: char) -> bool {
    is_digit(c) || c == '.'
}

/// At most one decimal point occurs in `n`.
pub open spec fn at_most_one_point(n: Seq<char>) -> bool {
    forall|a: int, b: int| 0 <= a < b < n.len() && n[a] == '.' ==> n[b] != '.'
}

/// The token of a character that is neither a space nor a digit.
pub open spec fn token_of_char(c: char) -> TokenView {
    if c == 'x' {
        TokenView::X
    } else if c == '+' {
        TokenView::Operation(Operation::Add)
    } else if c == '-' {
        TokenView::Operation(Operation::Sub)
    } else if c == '*' {
        TokenView::Operation(Operation::Mul)
    } else if c == '/' {
        TokenView::Operation(Operation::Div)
    } else if c == '^' {
        TokenView::Operation(Operation::Pow)
    } else if c == '(' {
        TokenView::BracketOpen
    } else if c == ')' {
        TokenView::BracketClosed
    } else {
        TokenView::Unknown
    }
}

/// The index just past the run of digits and points that starts at `i`.
pub open spec fn numeral_end(s: Seq<char>, i: nat) -> nat
    decreases s.len() - i,
{
    if i < s.len() && is_numeral_char(s[i as int]) {
        numeral_end(s, i + 1)
    } else {
        i
    }
}

pub proof fn lemma_numeral_end(s: Seq<char>, i: nat)
    requires
        i <= s.len(),
    ensures
        i <= numeral_end(s, i) <= s.len(),
        forall|k: int| i <= k < numeral_end(s, i) ==> is_numeral_char(#[trigger] s[k]),
        numeral_end(s, i) < s.len() ==> !is_numeral_char(s[numeral_end(s, i) as int]),
    decreases s.len() - i,
{
    if i < s.len() && is_numeral_char(s[i as int]) {
        lemma_numeral_end(s, i + 1);
    }
}

/// `Some(p + rest)` where `o` is `Some(rest)`; `None` where it is `None`.
pub open spec fn prepend(p: Seq<TokenView>, o: Option<Seq<TokenView>>) -> Option<Seq<TokenView>> {
    match o {
        Some(rest) => Some(p + rest),
        None => None,
    }
}

/// The tokens of `s` from index `i` on; `None` where a numeral there holds
/// more than one decimal point.
pub open spec fn lex_from(s: Seq<char>, i: nat) -> Option<Seq<TokenView>>
    decreases s.len() - i,
{
    if i >= s.len() {
        Some(Seq::empty())
    } else if s[i as int] == ' ' {
        lex_from(s, i + 1)
    } else if is_digit(s[i as int]) {
        let e = numeral_end(s, i + 1);
        proof {
            lemma_numeral_end(s, i + 1);
        }
        let n = s.subrange(i as int, e as int);
        if at_most_one_point(n) {
            prepend(seq![TokenView::Number(n)], lex_from(s, e))
        } else {
            None
        }
    } else {
        prepend(seq![token_of_char(s[i as int])], lex_from(s, i + 1))
    }
}

/// The tokens of `s`, left to right, spaces skipped.
pub open spec fn lex(s: Seq<char>) -> Option<Seq<TokenView>> {
    lex_from(s, 0)
}

proof fn lemma_prepend_assoc(a: Seq<TokenView>, b: Seq<TokenView>, o: Option<Seq<TokenView>>)
    ensures
        prepend(a, prepend(b, o)) == prepend(a + b, o),
{
    if let Some(r) = o {
        assert(a + (b + r) =~= (a + b) + r);
    }
}

fn operation_token(c: char) -> (r: Token)
    requires
        c != ' ',
        !is_digit(c),
    ensures
        r@ == token_of_char(c),
{
    match c {
        'x' => Token::X,
        '+' => Token::Operation(Operation::Add),
        '-' => Token::Operation(Operation::Sub),
        '*' => Token::Operation(Operation::Mul),
        '/' => Token::Operation(Operation::Div),
        '^' => Token::Operation(Operation::Pow),
        '(' => Token::BracketOpen,
        ')' => Token::BracketClosed,
        _ => Token::Unknown,
    }
}

/// Splits `function` into tokens, left to right, skipping spaces. A digit
/// starts a numeral that takes every digit and point that follows it. Any
/// character outside the alphabet becomes `Token::Unknown`. Returns `None`
/// where a numeral holds two or more decimal points.
pub fn tokenize(function: Vec<char>) -> (r: Option<Vec<Token>>)
    ensures
        match r {
            Some(v) => lex(function@) == Some(view_tokens(v@)),
            None => lex(function@) is None,
        },
{
    let s = Ghost(function@);
    let n = function.len();
    let mut tokens: Vec<Token> = Vec::new();
    let mut i: usize = 0;
    while i < n
        invariant
            s@ == function@,
            n == function.len(),
            i <= n,
            lex(s@) == prepend(view_tokens(tokens@), lex_from(s@, i as nat)),
        decreases n - i,
    {
        let c = function[i];
        if c == ' ' {
            i = i + 1;
        } else if '0' <= c && c <= '9' {
            let start = i;
            let mut digits: Vec<char> = Vec::new();
            digits.push(c);
            let mut seen_point = false;
            let mut ok = true;
            i = i + 1;
            proof {
                lemma_numeral_end(s@, (start + 1) as nat);
            }
            while i < n && (function[i] == '.' || ('0' <= function[i] && function[i] <= '9'))
                invariant
                    s@ == function@,
                    n == function.len(),
                    start < i <= n,
                    numeral_end(s@, i as nat) == numeral_end(s@, (start + 1) as nat),
                    digits@ == s@.subrange(start as int, i as int),
                    is_digit(s@[start as int]),
                    seen_point <==> exists|k: int| start <= k < i && s@[k] == '.',
                    ok <==> at_most_one_point(digits@),
                decreases n - i,
            {
                let d = function[i];
                let ghost before = digits@;
                if d == '.' {
                    if seen_point {
                        ok = false;
                    }
                    seen_point = true;
                }
                digits.push(d);
                proof {
                    assert(digits@ =~= s@.subrange(start as int, i + 1));
                    if !ok {
                        if !at_most_one_point(before) {
                            let (a, b) = choose|a: int, b: int|
                                0 <= a < b < before.len() && before[a] == '.' && before[b] == '.';
                            assert(digits@[a] == '.' && digits@[b] == '.');
                        } else {
                            let k = choose|k: int| start <= k < i && s@[k] == '.';
                            assert(digits@[k - start] == '.');
                            assert(digits@[i - start] == '.');
                        }
                    } else {
                        assert forall|a: int, b: int|
                            0 <= a < b < digits@.len() && digits@[a] == '.' implies digits@[b]
                            != '.' by {
                            if b == digits@.len() - 1 && d == '.' {
                                assert(s@[start + a] == '.');
                            } else {
                                assert(before[a] == '.');
                            }
                        }
                    }
                }
                i = i + 1;
            }
            proof {
                lemma_numeral_end(s@, i as nat);
                let e = numeral_end(s@, (start + 1) as nat);
                assert(e == i);
                assert(lex_from(s@, start as nat) == (if at_most_one_point(digits@) {
                    prepend(seq![TokenView::Number(digits@)], lex_from(s@, i as nat))
                } else {
                    None
                }));
            }
            if !ok {
                return None;
            }
            let ghost prev = tokens@;
            tokens.push(Token::Number(digits));
            proof {
                lemma_prepend_assoc(view_tokens(prev), seq![TokenView::Number(s@.subrange(start as int, i as int))], lex_from(s@, i as nat));
                assert(view_tokens(tokens@) =~= view_tokens(prev) + seq![TokenView::Number(s@.subrange(start as int, i as int))]);
            }
        } else {
            let t = operation_token(c);
            let ghost prev = tokens@;
            let ghost tv = t@;
            tokens.push(t);
            proof {
                lemma_prepend_assoc(view_tokens(prev), seq![tv], lex_from(s@, (i + 1) as nat));
                assert(view_tokens(tokens@) =~= view_tokens(prev) + seq![tv]);
            }
            i = i + 1;
        }
    }
    proof {
        assert(view_tokens(tokens@) + Seq::<TokenView>::empty() =~= view_tokens(tokens@));
    }
    Some(tokens)
}

} // verus!
