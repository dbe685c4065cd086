use vstd::prelude::*;

use crate::tokenizer::{Brace, ExprError, NumberToken, Operation, Lexeme, TokenVisitor, VisitResult};

verus! {

/// An entry of the operator stack used while converting to postfix.
#[derive(Clone, Copy, Debug, PartialEq, Eq)]
pub enum OperationOrOpenBrace {
    Operation(Operation),
    OpenBrace,
}

/// Binding strength: `*` and `/` bind tighter than `+` and `-`.
pub open spec fn priority_of(op: Operation) -> u8 {
    match op {
        Operation::Plus => 1,
        Operation::Minus => 1,
        Operation::Star => 2,
        Operation::Slash => 2,
    }
}

impl Operation {
    /// The binding strength of the operation.
    pub fn priority(&self) -> (r: u8)
        ensures
            r == priority_of(*self),
    {
        match self {
            Operation::Plus => 1,
            Operation::Minus => 1,
            Operation::Star => 2,
            Operation::Slash => 2,
        }
    }
}

/// Operator stack and output of the conversion to postfix.
pub type ParseState = (Seq<OperationOrOpenBrace>, Seq<Lexeme>);

/// Moves operations from the top of the stack to the output while the top is
/// an operation of priority at least `p`; stops at an open brace.
pub open spec fn pop_while(ops: Seq<OperationOrOpenBrace>, out: Seq<Lexeme>, p: u8) -> ParseState
    decreases ops.len(),
{
    if ops.len() == 0 {
        (ops, out)
    } else {
        match ops.last() {
            OperationOrOpenBrace::Operation(op) => {
                if priority_of(op) >= p {
                    pop_while(ops.drop_last(), out.push(Lexeme::Operation(op)), p)
                } else {
                    (ops, out)
                }
            },
            OperationOrOpenBrace::OpenBrace => (ops, out),
        }
    }
}

/// One step of the conversion: a number goes to the output, an open brace
/// onto the stack; a close brace flushes the stack down to its open brace;
/// an operation first flushes the operations that bind at least as tightly.
pub open spec fn parse_step(st: ParseState, t: Lexeme) -> Result<ParseState, ExprError> {
    let (ops, out) = st;
    match t {
        Lexeme::Number(_) => Ok((ops, out.push(t))),
        Lexeme::Brace(Brace::Open) => Ok((ops.push(OperationOrOpenBrace::OpenBrace), out)),
        Lexeme::Brace(Brace::Close) => {
            let (o, u) = pop_while(ops, out, 0);
            if o.len() == 0 {
                Err(ExprError::UnexpectedCloseBrace)
            } else {
                Ok((o.drop_last(), u))
            }
        },
        Lexeme::Operation(op) => {
            let (o, u) = pop_while(ops, out, priority_of(op));
            Ok((o.push(OperationOrOpenBrace::Operation(op)), u))
        },
    }
}

/// The state after the steps for all of `ts`, or the first error.
pub open spec fn parse_prefix(ts: Seq<Lexeme>) -> Result<ParseState, ExprError>
    decreases ts.len(),
{
    if ts.len() == 0 {
        Ok((Seq::empty(), Seq::empty()))
    } else {
        match parse_prefix(ts.drop_last()) {
            Ok(st) => parse_step(st, ts.last()),
            Err(e) => Err(e),
        }
    }
}

/// Moves what is left on the stack to the output, top first; an open brace
/// left there is an error.
pub open spec fn drain(ops: Seq<OperationOrOpenBrace>, out: Seq<Lexeme>) -> Result<Seq<Lexeme>, ExprError>
    decreases ops.len(),
{
    if ops.len() == 0 {
        Ok(out)
    } else {
        match ops.last() {
            OperationOrOpenBrace::OpenBrace => Err(ExprError::UnexpectedOpenBrace),
            OperationOrOpenBrace::Operation(op) => drain(ops.drop_last(), out.push(Lexeme::Operation(op))),
        }
    }
}

/// The postfix form of the infix tokens `ts`.
pub open spec fn to_postfix(ts: Seq<Lexeme>) -> Result<Seq<Lexeme>, ExprError> {
    match parse_prefix(ts) {
        Ok(st) => drain(st.0, st.1),
        Err(e) => Err(e),
    }
}

/// Once a prefix of the input fails, the whole conversion fails the same way.
proof fn lemma_parse_error_sticks(ts: Seq<Lexeme>, k: int, e: ExprError)
    requires
        0 <= k <= ts.len(),
        parse_prefix(ts.take(k)) == Err::<ParseState, ExprError>(e),
    ensures
        parse_prefix(ts) == Err::<ParseState, ExprError>(e),
    decreases ts.len() - k,
{
    if k < ts.len() {
        assert(ts.take(k + 1).drop_last() =~= ts.take(k));
        lemma_parse_error_sticks(ts, k + 1, e);
    } else {
        assert(ts.take(k) =~= ts);
    }
}

/// Converts infix tokens to postfix with an operator stack.
pub struct ParserVisitor {
    operator_stack: Vec<OperationOrOpenBrace>,
    result: Vec<Lexeme>,
}

impl ParserVisitor {
    pub closed spec fn state(&self) -> ParseState {
        (self.operator_stack@, self.result@)
    }

    /// Moves the operation on top of the stack to the output.
    fn pop_operation_unwrap(&mut self)
        requires
            old(self).operator_stack@.len() > 0,
            old(self).operator_stack@.last() is Operation,
        ensures
            final(self).operator_stack@ == old(self).operator_stack@.drop_last(),
            final(self).result@ == old(self).result@.push(
                Lexeme::Operation(old(self).operator_stack@.last()->Operation_0),
            ),
    {
        match self.operator_stack.pop() {
            Some(OperationOrOpenBrace::Operation(op)) => self.result.push(Lexeme::Operation(op)),
            _ => {},
        }
    }

    /// Moves operations of priority at least `p` from the top of the stack
    /// to the output.
    fn pop_at_least(&mut self, p: u8)
        ensures
            final(self).state() == pop_while(old(self).state().0, old(self).state().1, p),
    {
        loop
            invariant
                pop_while(self.state().0, self.state().1, p) == pop_while(
                    old(self).state().0,
                    old(self).state().1,
                    p,
                ),
            ensures
                self.state() == pop_while(old(self).state().0, old(self).state().1, p),
            decreases self.operator_stack@.len(),
        {
            let n = self.operator_stack.len();
            if n == 0 {
                return ;
            }
            match self.operator_stack[n - 1] {
                OperationOrOpenBrace::Operation(op) => {
                    if op.priority() >= p {
                        self.pop_operation_unwrap();
                    } else {
                        return ;
                    }
                },
                OperationOrOpenBrace::OpenBrace => {
                    return ;
                },
            }
        }
    }

    /// Takes one infix token.
    fn step(&mut self, t: &Lexeme) -> (r: VisitResult)
        ensures
            match parse_step(old(self).state(), *t) {
                Ok(st) => r is Ok && final(self).state() == st,
                Err(e) => r == Err::<(), ExprError>(e),
            },
    {
        match t {
            Lexeme::Number(_) => {
                self.result.push(*t);
                Ok(())
            },
            Lexeme::Brace(Brace::Open) => {
                self.operator_stack.push(OperationOrOpenBrace::OpenBrace);
                Ok(())
            },
            Lexeme::Brace(Brace::Close) => {
                self.pop_at_least(0);
                if self.operator_stack.len() == 0 {
                    return Err(ExprError::UnexpectedCloseBrace);
                }
                self.operator_stack.pop();
                Ok(())
            },
            Lexeme::Operation(op) => {
                self.pop_at_least(op.priority());
                self.operator_stack.push(OperationOrOpenBrace::Operation(*op));
                Ok(())
            },
        }
    }

    /// Converts tokens in infix notation to postfix. Input is assumed to be
    /// a well-formed expression; unbalanced braces are reported.
    pub fn infix_to_postfix(tokens: &Vec<Lexeme>) -> (r: Result<Vec<Lexeme>, ExprError>)
        ensures
            match r {
                Ok(v) => to_postfix(tokens@) == Ok::<Seq<Lexeme>, ExprError>(v@),
                Err(e) => to_postfix(tokens@) == Err::<Seq<Lexeme>, ExprError>(e),
            },
    {
        let mut visitor = ParserVisitor { operator_stack: Vec::new(), result: Vec::new() };
        let mut i: usize = 0;
        assert(tokens@.take(0) =~= Seq::<Lexeme>::empty());
        while i < tokens.len()
            invariant
                i <= tokens@.len(),
                parse_prefix(tokens@.take(i as int)) == Ok::<ParseState, ExprError>(visitor.state()),
            decreases tokens@.len() - i,
        {
            assert(tokens@.take(i + 1).drop_last() =~= tokens@.take(i as int));
            match visitor.step(&tokens[i]) {
                Ok(()) => {},
                Err(e) => {
                    proof {
                        lemma_parse_error_sticks(tokens@, i + 1, e);
                    }
                    return Err(e);
                },
            }
            i = i + 1;
        }
        assert(tokens@.take(i as int) =~= tokens@);
        loop
            invariant
                drain(visitor.state().0, visitor.state().1) == to_postfix(tokens@),
            decreases visitor.operator_stack@.len(),
        {
            match visitor.operator_stack.pop() {
                None => {
                    return Ok(visitor.result);
                },
                Some(OperationOrOpenBrace::OpenBrace) => {
                    return Err(ExprError::UnexpectedOpenBrace);
                },
                Some(OperationOrOpenBrace::Operation(op)) => {
                    visitor.result.push(Lexeme::Operation(op));
                },
            }
        }
    }
}

impl TokenVisitor for ParserVisitor {
    fn visit_number(&mut self, token: &NumberToken) -> VisitResult {
        self.step(&Lexeme::Number(*token))
    }

    fn visit_brace(&mut self, token: &Brace) -> VisitResult {
        self.step(&Lexeme::Brace(*token))
    }

    fn visit_operation(&mut self, token: &Operation) -> VisitResult {
        self.step(&Lexeme::Operation(*token))
    }
}

/// `op` applied to `left` and `right` in `i32` arithmetic; division
/// truncates toward zero.
pub open spec fn apply_op(op: Operation, left: i32, right: i32) -> Result<i32, ExprError> {
    let r = match op {
        Operation::Plus => left.checked_add(right),
        Operation::Minus => left.checked_sub(right),
        Operation::Star => left.checked_mul(right),
        Operation::Slash => left.checked_div(right),
    };
    if op == Operation::Slash && right == 0 {
        Err(ExprError::DivisionByZero)
    } else {
        match r {
            Some(v) => Ok(v),
            None => Err(ExprError::Overflow),
        }
    }
}

/// One step of postfix evaluation: a number is pushed; an operation replaces
/// the two topmost values (left below right) by its result.
pub open spec fn eval_step(stack: Seq<i32>, t: Lexeme) -> Result<Seq<i32>, ExprError> {
    match t {
        Lexeme::Number(n) => Ok(stack.push(n.0)),
        Lexeme::Brace(_) => Err(ExprError::BraceInPostfix),
        Lexeme::Operation(op) => {
            if stack.len() < 2 {
                Err(ExprError::NotEnoughOperands(op))
            } else {
                match apply_op(op, stack[stack.len() - 2], stack.last()) {
                    Ok(v) => Ok(stack.drop_last().drop_last().push(v)),
                    Err(e) => Err(e),
                }
            }
        },
    }
}

/// The value stack after evaluating all of `ts`, or the first error.
pub open spec fn eval_prefix(ts: Seq<Lexeme>) -> Result<Seq<i32>, ExprError>
    decreases ts.len(),
{
    if ts.len() == 0 {
        Ok(Seq::empty())
    } else {
        match eval_prefix(ts.drop_last()) {
            Ok(st) => eval_step(st, ts.last()),
            Err(e) => Err(e),
        }
    }
}

/// The value of the postfix tokens `ts`: evaluation must leave exactly one
/// value.
pub open spec fn evaluate(ts: Seq<Lexeme>) -> Result<i32, ExprError> {
    match eval_prefix(ts) {
        Ok(st) => if st.len() == 1 {
            Ok(st[0])
        } else {
            Err(ExprError::UnexpectedEnd)
        },
        Err(e) => Err(e),
    }
}

proof fn lemma_eval_error_sticks(ts: Seq<Lexeme>, k: int, e: ExprError)
    requires
        0 <= k <= ts.len(),
        eval_prefix(ts.take(k)) == Err::<Seq<i32>, ExprError>(e),
    ensures
        eval_prefix(ts) == Err::<Seq<i32>, ExprError>(e),
    decreases ts.len() - k,
{
    if k < ts.len() {
        assert(ts.take(k + 1).drop_last() =~= ts.take(k));
        lemma_eval_error_sticks(ts, k + 1, e);
    } else {
        assert(ts.take(k) =~= ts);
    }
}

/// Evaluates postfix tokens with a value stack.
pub struct CalcVisitor {
    stack: Vec<i32>,
}

impl CalcVisitor {
    fn apply(op: Operation, left: i32, right: i32) -> (r: Result<i32, ExprError>)
        ensures
            r == apply_op(op, left, right),
    {
        let r = match op {
            Operation::Plus => left.checked_add(right),
            Operation::Minus => left.checked_sub(right),
            Operation::Star => left.checked_mul(right),
            Operation::Slash => {
                if right == 0 {
                    return Err(ExprError::DivisionByZero);
                }
                left.checked_div(right)
            },
        };
        match r {
            Some(v) => Ok(v),
            None => Err(ExprError::Overflow),
        }
    }

    /// Takes one postfix token.
    fn step(&mut self, t: &Lexeme) -> (r: VisitResult)
        ensures
            match eval_step(old(self).stack@, *t) {
                Ok(st) => r is Ok && final(self).stack@ == st,
                Err(e) => r == Err::<(), ExprError>(e),
            },
    {
        match t {
            Lexeme::Number(n) => {
                self.stack.push(n.0);
                Ok(())
            },
            Lexeme::Brace(_) => Err(ExprError::BraceInPostfix),
            Lexeme::Operation(op) => {
                let right = self.stack.pop();
                let left = self.stack.pop();
                match (left, right) {
                    (Some(l), Some(r)) => {
                        match CalcVisitor::apply(*op, l, r) {
                            Ok(v) => {
                                self.stack.push(v);
                                Ok(())
                            },
                            Err(e) => Err(e),
                        }
                    },
                    _ => Err(ExprError::NotEnoughOperands(*op)),
                }
            },
        }
    }

    /// Evaluates tokens in postfix notation.
    pub fn evaluate_postfix(tokens: &Vec<Lexeme>) -> (r: Result<i32, ExprError>)
        ensures
            r == evaluate(tokens@),
    {
        let mut visitor = CalcVisitor { stack: Vec::new() };
        let mut i: usize = 0;
        assert(tokens@.take(0) =~= Seq::<Lexeme>::empty());
        while i < tokens.len()
            invariant
                i <= tokens@.len(),
                eval_prefix(tokens@.take(i as int)) == Ok::<Seq<i32>, ExprError>(visitor.stack@),
            decreases tokens@.len() - i,
        {
            assert(tokens@.take(i + 1).drop_last() =~= tokens@.take(i as int));
            match visitor.step(&tokens[i]) {
                Ok(()) => {},
                Err(e) => {
                    proof {
                        lemma_eval_error_sticks(tokens@, i + 1, e);
                    }
                    return Err(e);
                },
            }
            i = i + 1;
        }
        assert(tokens@.take(i as int) =~= tokens@);
        if visitor.stack.len() != 1 {
            return Err(ExprError::UnexpectedEnd);
        }
        Ok(visitor.stack[0])
    }
}

impl TokenVisitor for CalcVisitor {
    fn visit_number(&mut self, token: &NumberToken) -> VisitResult {
        self.step(&Lexeme::Number(*token))
    }

    fn visit_brace(&mut self, token: &Brace) -> VisitResult {
        self.step(&Lexeme::Brace(*token))
    }

    fn visit_operation(&mut self, token: &Operation) -> VisitResult {
        self.step(&Lexeme::Operation(*token))
    }
}

pub open spec fn digit_char(d: int) -> char {
    ('0' as int + d) as char
}

/// The decimal digits of `m`, most significant first.
pub open spec fn digits(m: nat) -> Seq<char>
    decreases m,
{
    if m < 10 {
        seq![digit_char(m as int)]
    } else {
        digits(m / 10) + seq![digit_char((m % 10) as int)]
    }
}

/// `n` in decimal, with a leading `-` when negative.
pub open spec fn decimal(n: int) -> Seq<char> {
    if n < 0 {
        seq!['-'] + digits((-n) as nat)
    } else {
        digits(n as nat)
    }
}

pub open spec fn op_char(op: Operation) -> char {
    match op {
        Operation::Plus => '+',
        Operation::Minus => '-',
        Operation::Star => '*',
        Operation::Slash => '/',
    }
}

/// The text of one token: numbers and operations are followed by a space
/// unless they are the last token; braces never are.
pub open spec fn token_text(t: Lexeme, last: bool) -> Seq<char> {
    let sep = if last {
        Seq::<char>::empty()
    } else {
        seq![' ']
    };
    match t {
        Lexeme::Number(n) => decimal(n.0 as int) + sep,
        Lexeme::Operation(op) => seq![op_char(op)] + sep,
        Lexeme::Brace(Brace::Open) => seq!['('],
        Lexeme::Brace(Brace::Close) => seq![')'],
    }
}

/// The text of the first `n` tokens of `ts`.
pub open spec fn printed(ts: Seq<Lexeme>, n: int) -> Seq<char>
    decreases n,
{
    if n <= 0 {
        Seq::empty()
    } else {
        printed(ts, n - 1) + token_text(ts[n - 1], n == ts.len())
    }
}

/// Relies on `String::from_iter` over characters: the string of exactly
/// those characters, in order.
#[verifier::external_body]
fn string_from_chars(chars: Vec<char>) -> (r: String)
    ensures
        r@ == chars@,
{
    String::from_iter(chars)
}

/// Writes tokens as text.
pub struct PrintVisitor {
    output: Vec<char>,
    is_last: bool,
}

impl PrintVisitor {
    /// Appends `data`, then a space unless this is the last token.
    fn write_data(&mut self, data: &Vec<char>)
        ensures
            final(self).is_last == old(self).is_last,
            final(self).output@ == old(self).output@ + data@ + if old(self).is_last {
                Seq::<char>::empty()
            } else {
                seq![' ']
            },
    {
        let ghost start = self.output@;
        let mut i: usize = 0;
        while i < data.len()
            invariant
                i <= data@.len(),
                self.output@ == start + data@.take(i as int),
                self.is_last == old(self).is_last,
                start == old(self).output@,
            decreases data@.len() - i,
        {
            assert(data@.take(i + 1) =~= data@.take(i as int).push(data@[i as int]));
            self.output.push(data[i]);
            i = i + 1;
        }
        assert(data@.take(i as int) =~= data@);
        if !self.is_last {
            self.output.push(' ');
        }
        assert(self.output@ =~= old(self).output@ + data@ + if old(self).is_last {
            Seq::<char>::empty()
        } else {
            seq![' ']
        });
    }

    /// The symbol of an operation.
    fn operation_to_char(token: &Operation) -> (r: char)
        ensures
            r == op_char(*token),
    {
        match token {
            Operation::Plus => '+',
            Operation::Minus => '-',
            Operation::Star => '*',
            Operation::Slash => '/',
        }
    }

    /// The decimal text of `n`.
    fn decimal_chars(n: i32) -> (r: Vec<char>)
        ensures
            r@ == decimal(n as int),
    {
        let mut r: Vec<char> = Vec::new();
        let big: i64 = n as i64;
        let mut m: i64 = if big < 0 {
            -big
        } else {
            big
        };
        let ghost whole = m as nat;
        let mut rev: Vec<char> = Vec::new();
        loop
            invariant_except_break
                digits(whole) == digits(m as nat) + rev@.reverse(),
            invariant
                0 <= m <= whole,
            ensures
                digits(whole) == rev@.reverse(),
            decreases m,
        {
            let ghost before = rev@;
            let d = m % 10;
            rev.push(('0' as u8 + d as u8) as char);
            assert(rev@.reverse() =~= seq![digit_char(d as int)] + before.reverse());
            if m < 10 {
                assert(digits(m as nat) == seq![digit_char(d as int)]);
                break;
            }
            m = m / 10;
            assert(digits((m * 10 + d) as nat) == digits(m as nat) + seq![digit_char(d as int)]);
        }
        if n < 0 {
            r.push('-');
        }
        let mut j: usize = rev.len();
        let ghost start = r@;
        while j > 0
            invariant
                j <= rev@.len(),
                r@ == start + rev@.reverse().take(rev@.len() - j),
            decreases j,
        {
            j = j - 1;
            assert(rev@.reverse().take(rev@.len() - j) =~= rev@.reverse().take(rev@.len() - j - 1).push(rev@[j as int]));
            r.push(rev[j]);
        }
        assert(rev@.reverse().take(rev@.len() as int) =~= rev@.reverse());
        assert(r@ =~= decimal(n as int));
        r
    }

    /// Writes tokens separated by single spaces (no space is written after
    /// a brace).
    pub fn write(tokens: &Vec<Lexeme>) -> (r: Result<String, ExprError>)
        ensures
            r is Ok,
            r->Ok_0@ == printed(tokens@, tokens@.len() as int),
    {
        let mut visitor = PrintVisitor { output: Vec::new(), is_last: false };
        let mut i: usize = 0;
        while i < tokens.len()
            invariant
                i <= tokens@.len(),
                visitor.output@ == printed(tokens@, i as int),
                visitor.is_last == (i > 0 && i == tokens@.len()),
            decreases tokens@.len() - i,
        {
            if i == tokens.len() - 1 {
                visitor.is_last = true;
            }
            visitor.step(&tokens[i]);
            i = i + 1;
        }
        Ok(string_from_chars(visitor.output))
    }

    /// Takes one token.
    fn step(&mut self, t: &Lexeme) -> (r: VisitResult)
        ensures
            r is Ok,
            final(self).is_last == old(self).is_last,
            final(self).output@ == old(self).output@ + token_text(*t, old(self).is_last),
    {
        match t {
            Lexeme::Number(n) => {
                let text = PrintVisitor::decimal_chars(n.0);
                self.write_data(&text);
            },
            Lexeme::Operation(op) => {
                let mut text: Vec<char> = Vec::new();
                text.push(PrintVisitor::operation_to_char(op));
                assert(text@ =~= seq![op_char(*op)]);
                self.write_data(&text);
            },
            Lexeme::Brace(b) => {
                let c = match b {
                    Brace::Open => '(',
                    Brace::Close => ')',
                };
                self.output.push(c);
                assert(self.output@ =~= old(self).output@ + token_text(*t, old(self).is_last));
            },
        }
        Ok(())
    }
}

impl TokenVisitor for PrintVisitor {
    fn visit_number(&mut self, token: &NumberToken) -> VisitResult {
        self.step(&Lexeme::Number(*token))
    }

    fn visit_brace(&mut self, token: &Brace) -> VisitResult {
        self.step(&Lexeme::Brace(*token))
    }

    fn visit_operation(&mut self, token: &Operation) -> VisitResult {
        self.step(&Lexeme::Operation(*token))
    }
}

} // verus!
