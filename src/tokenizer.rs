use vstd::prelude::*;
use vstd::std_specs::iter::IteratorSpec;

verus! {

/// A number literal.
#[derive(Clone, Copy, Debug, PartialEq, Eq)]
pub struct NumberToken(pub i32);

/// A parenthesis.
#[derive(Clone, Copy, Debug, PartialEq, Eq)]
pub enum Brace {
    Open,
    Close,
}

/// A binary arithmetic operation.
#[derive(Clone, Copy, Debug, PartialEq, Eq)]
pub enum Operation {
    Plus,
    Minus,
    Star,
    Slash,
}

/// One token of an arithmetic expression, of any kind.
#[derive(Clone, Copy, Debug, PartialEq, Eq)]
pub enum Lexeme {
    Number(NumberToken),
    Brace(Brace),
    Operation(Operation),
}

/// Why an expression could not be tokenized, converted or evaluated.
#[derive(Clone, Copy, Debug, PartialEq, Eq)]
pub enum ExprError {
    /// A character that starts no token.
    UnexpectedChar(char),
    /// A number literal that does not fit in an `i32`.
    NumberOutOfRange,
    /// A closing brace without a matching opening one.
    UnexpectedCloseBrace,
    /// An opening brace that is never closed.
    UnexpectedOpenBrace,
    /// A brace in postfix notation.
    BraceInPostfix,
    /// An operation with fewer than two operands before it.
    NotEnoughOperands(Operation),
    /// Postfix input that does not leave exactly one value.
    UnexpectedEnd,
    /// A result that does not fit in an `i32`.
    Overflow,
    /// A division by zero.
    DivisionByZero,
}

/// What a visitor step returns.
pub type VisitResult = Result<(), ExprError>;

/// A consumer of tokens, one call per token kind.
pub trait TokenVisitor {
    fn visit_number(&mut self, token: &NumberToken) -> VisitResult;

    fn visit_brace(&mut self, token: &Brace) -> VisitResult;

    fn visit_operation(&mut self, token: &Operation) -> VisitResult;
}

/// Something a [`TokenVisitor`] can be handed.
pub trait Token {
    fn accept<V: TokenVisitor>(&self, visitor: &mut V) -> VisitResult;
}

impl Token for NumberToken {
    fn accept<V: TokenVisitor>(&self, visitor: &mut V) -> VisitResult {
        visitor.visit_number(self)
    }
}

impl Token for Brace {
    fn accept<V: TokenVisitor>(&self, visitor: &mut V) -> VisitResult {
        visitor.visit_brace(self)
    }
}

impl Token for Operation {
    fn accept<V: TokenVisitor>(&self, visitor: &mut V) -> VisitResult {
        visitor.visit_operation(self)
    }
}

impl Token for Lexeme {
    /// Hands the token to the visitor method of its kind.
    fn accept<V: TokenVisitor>(&self, visitor: &mut V) -> VisitResult {
        match self {
            Lexeme::Number(n) => n.accept(visitor),
            Lexeme::Brace(b) => b.accept(visitor),
            Lexeme::Operation(op) => op.accept(visitor),
        }
    }
}

/// `t` prepended to the tokens of `r`; an error stays as it is.
pub open spec fn prepend(t: Seq<Lexeme>, r: Result<Seq<Lexeme>, ExprError>) -> Result<
    Seq<Lexeme>,
    ExprError,
> {
    match r {
        Ok(u) => Ok(t + u),
        Err(e) => Err(e),
    }
}

pub open spec fn is_digit(c: char) -> bool {
    '0' <= c && c <= '9'
}

pub open spec fn digit_value(c: char) -> int {
    c as int - '0' as int
}

/// The characters with the Unicode White_Space property.
pub open spec fn is_white_space(c: char) -> bool {
    ||| '\u{9}' <= c && c <= '\u{d}'
    ||| c == ' '
    ||| c == '\u{85}'
    ||| c == '\u{a0}'
    ||| c == '\u{1680}'
    ||| '\u{2000}' <= c && c <= '\u{200a}'
    ||| c == '\u{2028}'
    ||| c == '\u{2029}'
    ||| c == '\u{202f}'
    ||| c == '\u{205f}'
    ||| c == '\u{3000}'
}

/// The token that a single character stands for, if it is an operation or a
/// brace.
pub open spec fn symbol_token(c: char) -> Option<Lexeme> {
    if c == '+' {
        Some(Lexeme::Operation(Operation::Plus))
    } else if c == '-' {
        Some(Lexeme::Operation(Operation::Minus))
    } else if c == '*' {
        Some(Lexeme::Operation(Operation::Star))
    } else if c == '/' {
        Some(Lexeme::Operation(Operation::Slash))
    } else if c == '(' {
        Some(Lexeme::Brace(Brace::Open))
    } else if c == ')' {
        Some(Lexeme::Brace(Brace::Close))
    } else {
        None
    }
}

/// The tokens of `s`, scanned from the left. `pending` is the value of a
/// number literal whose digits have been read just before `s`. Whitespace
/// separates tokens; a maximal run of decimal digits is one number.
pub open spec fn lex(s: Seq<char>, pending: Option<int>) -> Result<Seq<Lexeme>, ExprError>
    decreases s.len(), if pending is Some {
        1nat
    } else {
        0nat
    },
{
    match pending {
        Some(v) => {
            if s.len() > 0 && is_digit(s[0]) {
                lex(s.drop_first(), Some(v * 10 + digit_value(s[0])))
            } else if v > i32::MAX {
                Err(ExprError::NumberOutOfRange)
            } else {
                prepend(seq![Lexeme::Number(NumberToken(v as i32))], lex(s, None))
            }
        },
        None => {
            if s.len() == 0 {
                Ok(Seq::empty())
            } else if is_digit(s[0]) {
                lex(s.drop_first(), Some(digit_value(s[0])))
            } else if symbol_token(s[0]) is Some {
                prepend(seq![symbol_token(s[0])->0], lex(s.drop_first(), None))
            } else if is_white_space(s[0]) {
                lex(s.drop_first(), None)
            } else {
                Err(ExprError::UnexpectedChar(s[0]))
            }
        },
    }
}

/// Relies on `char::is_whitespace`: true exactly for the characters with the
/// Unicode White_Space property.
#[verifier::external_body]
fn is_whitespace(c: char) -> (r: bool)
    ensures
        r == is_white_space(c),
{
    c.is_whitespace()
}

/// The characters of `data`, in order.
fn chars_of(data: &str) -> (r: Vec<char>)
    ensures
        r@ == data@,
{
    let mut r: Vec<char> = Vec::new();
    let mut it = data.chars();
    loop
        invariant
            r@ + it.remaining() == data@,
            it.decrease() is Some,
        ensures
            r@ == data@,
        decreases it.decrease()->0,
    {
        match it.next() {
            Some(c) => r.push(c),
            None => {
                assert(it.remaining().len() == 0);
                assert(r@ =~= r@ + it.remaining());
                break;
            },
        }
    }
    r
}

proof fn lemma_prepend_assoc(a: Seq<Lexeme>, b: Seq<Lexeme>, r: Result<Seq<Lexeme>, ExprError>)
    ensures
        prepend(a, prepend(b, r)) == prepend(a + b, r),
{
    if let Ok(u) = r {
        assert(a + (b + u) =~= (a + b) + u);
    }
}

/// A literal that has already grown past `i32::MAX` fails, whatever follows.
proof fn lemma_pending_too_large(s: Seq<char>, v: int)
    requires
        v > i32::MAX,
    ensures
        lex(s, Some(v)) == Err::<Seq<Lexeme>, ExprError>(ExprError::NumberOutOfRange),
    decreases s.len(),
{
    if s.len() > 0 && is_digit(s[0]) {
        lemma_pending_too_large(s.drop_first(), v * 10 + digit_value(s[0]));
    }
}

/// The operation or brace that `c` stands for.
fn symbol_of(c: char) -> (r: Option<Lexeme>)
    ensures
        r == symbol_token(c),
{
    if c == '+' {
        Some(Lexeme::Operation(Operation::Plus))
    } else if c == '-' {
        Some(Lexeme::Operation(Operation::Minus))
    } else if c == '*' {
        Some(Lexeme::Operation(Operation::Star))
    } else if c == '/' {
        Some(Lexeme::Operation(Operation::Slash))
    } else if c == '(' {
        Some(Lexeme::Brace(Brace::Open))
    } else if c == ')' {
        Some(Lexeme::Brace(Brace::Close))
    } else {
        None
    }
}

pub open spec fn pending_value(p: Option<i32>) -> Option<int> {
    match p {
        Some(v) => Some(v as int),
        None => None,
    }
}

/// Splits an infix expression into tokens: numbers, the four operations and
/// braces, with whitespace between them ignored.
pub fn tokenize(data: &str) -> (r: Result<Vec<Lexeme>, ExprError>)
    ensures
        match r {
            Ok(ts) => lex(data@, None) == Ok::<Seq<Lexeme>, ExprError>(ts@),
            Err(e) => lex(data@, None) == Err::<Seq<Lexeme>, ExprError>(e),
        },
{
    let chars = chars_of(data);
    let ghost s = data@;
    let mut out: Vec<Lexeme> = Vec::new();
    let mut pending: Option<i32> = None;
    let mut i: usize = 0;
    assert(s.skip(0) =~= s);
    assert(out@ + Seq::<Lexeme>::empty() =~= Seq::<Lexeme>::empty());
    while i < chars.len()
        invariant
            chars@ == s,
            s == data@,
            i <= s.len(),
            lex(s, None) == prepend(out@, lex(s.skip(i as int), pending_value(pending))),
            pending is Some ==> 0 <= pending->0,
        decreases (s.len() - i) * 2 + if pending is Some {
            1int
        } else {
            0int
        },
    {
        let c = chars[i];
        let ghost rest = s.skip(i as int);
        assert(rest[0] == c);
        assert(rest.drop_first() =~= s.skip(i + 1));
        let digit = '0' <= c && c <= '9';
        match pending {
            Some(v) => {
                if digit {
                    let next: i64 = (v as i64) * 10 + ((c as u32) - ('0' as u32)) as i64;
                    if next > i32::MAX as i64 {
                        proof {
                            lemma_pending_too_large(s.skip(i + 1), next as int);
                        }
                        return Err(ExprError::NumberOutOfRange);
                    }
                    pending = Some(next as i32);
                    i = i + 1;
                } else {
                    proof {
                        lemma_prepend_assoc(out@, seq![Lexeme::Number(NumberToken(v))], lex(rest, None));
                    }
                    let ghost before = out@;
                    out.push(Lexeme::Number(NumberToken(v)));
                    pending = None;
                    assert(out@ =~= before + seq![Lexeme::Number(NumberToken(v))]);
                }
            },
            None => {
                if digit {
                    pending = Some(((c as u32) - ('0' as u32)) as i32);
                    i = i + 1;
                } else {
                    match symbol_of(c) {
                        Some(t) => {
                            proof {
                                lemma_prepend_assoc(out@, seq![t], lex(s.skip(i + 1), None));
                            }
                            let ghost before = out@;
                            out.push(t);
                            assert(out@ =~= before + seq![t]);
                            i = i + 1;
                        },
                        None => {
                            if is_whitespace(c) {
                                i = i + 1;
                            } else {
                                return Err(ExprError::UnexpectedChar(c));
                            }
                        },
                    }
                }
            },
        }
    }
    assert(s.skip(i as int) =~= Seq::<char>::empty());
    if let Some(v) = pending {
        proof {
            lemma_prepend_assoc(out@, seq![Lexeme::Number(NumberToken(v))], lex(s.skip(i as int), None));
        }
        let ghost before = out@;
        out.push(Lexeme::Number(NumberToken(v)));
        assert(out@ =~= before + seq![Lexeme::Number(NumberToken(v))]);
    }
    assert(out@ + Seq::<Lexeme>::empty() =~= out@);
    Ok(out)
}

} // verus!
