//! A recursive-descent parser from tokens to the surface syntax tree.
use vstd::prelude::*;

use crate::ast::{Arm, Expression, FnClause, FnDefinition, Operation, Pattern, Program};
use crate::lexer::{Lexer, Token, TokenKind};

verus! {

/// Why the source could not be parsed.
#[derive(Debug)]
pub enum ParseError {
    /// A token of kind `expected` was needed; `found` is the lexeme there.
    Expected { expected: TokenKind, found: String },
    ExpectedPrimary { found: String },
    ExpectedPattern { found: String },
    ExpectedOperator { found: String },
    /// A number literal that does not fit in 32 bits.
    NumberOutOfRange { lexeme: String },
}

/// The value of an optional minus sign followed by decimal digits.
pub open spec fn digits_value(cs: Seq<char>) -> int
    decreases cs.len(),
{
    if cs.len() == 0 {
        0
    } else {
        digits_value(cs.drop_last()) * 10 + (cs.last() as int - '0' as int)
    }
}

pub open spec fn all_digits(cs: Seq<char>) -> bool {
    forall|i: int| 0 <= i < cs.len() ==> '0' <= #[trigger] cs[i] <= '9'
}

/// The integer a number lexeme denotes.
pub open spec fn number_value(cs: Seq<char>) -> int {
    if cs.len() > 0 && cs[0] == '-' {
        -digits_value(cs.drop_first())
    } else {
        digits_value(cs)
    }
}

pub open spec fn is_number_lexeme(cs: Seq<char>) -> bool {
    if cs.len() > 0 && cs[0] == '-' {
        cs.len() > 1 && all_digits(cs.drop_first())
    } else {
        cs.len() > 0 && all_digits(cs)
    }
}

/// The 32-bit value of a number lexeme, `None` when it is out of range or
/// not a number.
pub fn parse_number(s: &String) -> (r: Option<i32>)
    ensures
        r is Some <==> is_number_lexeme(s@) && i32::MIN <= number_value(s@) <= i32::MAX,
        r is Some ==> r->0 as int == number_value(s@),
{
    let t = s.as_str();
    let n = t.unicode_len();
    if n == 0 {
        return None;
    }
    let neg = t.get_char(0) == '-';
    let first: usize = if neg {
        1
    } else {
        0
    };
    if first >= n {
        return None;
    }
    let ghost ds = if neg {
        s@.drop_first()
    } else {
        s@
    };
    // magnitude, kept at most 2^31
    let mut v: i64 = 0;
    let mut i: usize = first;
    while i < n
        invariant
            n == s@.len(),
            first <= i <= n,
            t@ == s@,
            first == (if neg { 1int } else { 0int }),
            neg == (s@[0] == '-'),
            ds == s@.subrange(first as int, n as int),
            all_digits(ds.take(i - first)),
            0 <= v <= 2147483648,
            v == digits_value(ds.take(i - first)),
        decreases n - i,
    {
        let c = t.get_char(i);
        if !('0' <= c && c <= '9') {
            assert(!all_digits(ds)) by {
                assert(ds[i - first] == c);
            }
            return None;
        }
        let d = (c as u32 - '0' as u32) as i64;
        assert(ds.take(i + 1 - first).drop_last() =~= ds.take(i - first));
        let w = v * 10 + d;
        assert(ds[i - first] == c);
        assert(all_digits(ds.take(i + 1 - first))) by {
            assert forall|j: int| 0 <= j < i + 1 - first implies '0' <= #[trigger] ds.take(i + 1 - first)[j] <= '9' by {
                if j < i - first {
                    assert(ds.take(i + 1 - first)[j] == ds.take(i - first)[j]);
                }
            }
        }
        assert(w == digits_value(ds.take(i + 1 - first)));
        if w > 2147483648 {
            proof {
                lemma_digits_grow(ds, (i + 1 - first) as nat);
                assert(ds.take(ds.len() as int) =~= ds);
                if is_number_lexeme(s@) {
                    if neg {
                        assert(s@.drop_first() =~= ds);
                        assert(number_value(s@) == -digits_value(ds));
                    } else {
                        assert(ds =~= s@);
                        assert(number_value(s@) == digits_value(ds));
                    }
                    assert(all_digits(ds));
                    assert(digits_value(ds) >= w);
                }
            }
            return None;
        }
        v = w;
        i += 1;
        assert(all_digits(ds.take(i - first))) by {
            assert forall|j: int| 0 <= j < i - first implies '0' <= #[trigger] ds.take(i - first)[j] <= '9' by {
                if j < i - 1 - first {
                    assert(ds.take(i - first)[j] == ds.take(i - 1 - first)[j]);
                }
            }
        }
    }
    assert(ds.take(n - first) =~= ds);
    if neg {
        Some((-v) as i32)
    } else if v > 2147483647 {
        None
    } else {
        Some(v as i32)
    }
}

/// A longer prefix of digits has a value at least as large.
proof fn lemma_digits_grow(ds: Seq<char>, k: nat)
    requires
        k <= ds.len(),
        all_digits(ds.take(k as int)),
    ensures
        forall|m: nat| k <= m <= ds.len() && all_digits(ds.take(m as int)) ==> digits_value(ds.take(m as int)) >= digits_value(ds.take(k as int)),
{
    assert forall|m: nat| k <= m <= ds.len() && all_digits(ds.take(m as int)) implies digits_value(ds.take(m as int)) >= digits_value(ds.take(k as int)) by {
        lemma_digits_mono(ds, k, m);
    }
}

proof fn lemma_digits_mono(ds: Seq<char>, k: nat, m: nat)
    requires
        k <= m <= ds.len(),
        all_digits(ds.take(m as int)),
    ensures
        digits_value(ds.take(m as int)) >= digits_value(ds.take(k as int)),
        digits_value(ds.take(m as int)) >= 0,
    decreases m,
{
    if m > 0 {
        assert(ds.take(m as int).drop_last() =~= ds.take(m - 1));
        assert(all_digits(ds.take(m - 1))) by {
            assert forall|j: int| 0 <= j < m - 1 implies '0' <= #[trigger] ds.take(m - 1)[j] <= '9' by {
                assert(ds.take(m - 1)[j] == ds.take(m as int)[j]);
            }
        }
        assert('0' <= ds.take(m as int)[m - 1] <= '9');
        if k < m {
            lemma_digits_mono(ds, k, (m - 1) as nat);
        } else {
            lemma_digits_mono(ds, (m - 1) as nat, (m - 1) as nat);
        }
    } else {
        assert(ds.take(0) =~= seq![]);
    }
}

/// 1 for a token that still stands for input, 0 for the end.
pub open spec fn weight(t: &Token) -> nat {
    if t.kind == TokenKind::Eof {
        0
    } else {
        1
    }
}

/// The parser: the lexer, the current token and the one after it.
pub struct Parser<'input> {
    pub lexer: Lexer<'input>,
    pub curr: Token,
    pub next: Token,
}

/// The binary operators of each precedence level, loosest first.
pub open spec fn level_op(prec: usize, k: TokenKind) -> bool {
    match prec {
        0 => k == TokenKind::DoubleEquals,
        1 => k == TokenKind::Plus || k == TokenKind::Minus,
        2 => k == TokenKind::Star || k == TokenKind::Slash,
        _ => false,
    }
}

fn is_level_op(prec: usize, k: TokenKind) -> (r: bool)
    ensures
        r == level_op(prec, k),
{
    match prec {
        0 => k == TokenKind::DoubleEquals,
        1 => k == TokenKind::Plus || k == TokenKind::Minus,
        2 => k == TokenKind::Star || k == TokenKind::Slash,
        _ => false,
    }
}

fn copy_lexeme(t: &Token) -> (r: String)
    ensures
        r@ == t.lexeme@,
{
    t.lexeme.clone()
}

impl<'input> Parser<'input> {
    pub open spec fn wf(&self) -> bool {
        &&& self.lexer.wf()
        &&& (self.next.kind == TokenKind::Eof ==> self.lexer.index == self.lexer.chars.len())
    }

    /// How much input is left: characters not yet scanned and the two
    /// tokens held.
    pub open spec fn measure(&self) -> nat {
        (self.lexer.chars.len() - self.lexer.index) as nat + weight(&self.curr) + weight(&self.next)
    }

    pub fn new(lexer: Lexer<'input>) -> (r: Self)
        requires
            lexer.wf(),
        ensures
            r.wf(),
    {
        let mut lexer = lexer;
        let curr = lexer.next_token();
        let next = lexer.next_token();
        Parser { curr, next, lexer }
    }

    /// Moves one token on and returns the current one.
    pub fn eat(&mut self) -> (r: Token)
        requires
            old(self).wf(),
        ensures
            final(self).wf(),
            r.kind == old(self).curr.kind,
            r.lexeme@ == old(self).curr.lexeme@,
            final(self).measure() <= old(self).measure(),
            old(self).curr.kind != TokenKind::Eof ==> final(self).measure() < old(self).measure(),
    {
        let mut t = self.lexer.next_token();
        core::mem::swap(&mut self.next, &mut t);
        core::mem::swap(&mut self.curr, &mut t);
        t
    }

    /// Consumes a token of kind `kind`, or fails.
    pub fn expect(&mut self, kind: TokenKind) -> (r: Result<Token, ParseError>)
        requires
            old(self).wf(),
        ensures
            final(self).wf(),
            final(self).measure() <= old(self).measure(),
            r is Ok <==> old(self).curr.kind == kind,
            r is Ok ==> r->Ok_0.kind == kind,
            r is Ok && kind != TokenKind::Eof ==> final(self).measure() < old(self).measure(),
    {
        if self.curr.kind == kind {
            Ok(self.eat())
        } else {
            Err(ParseError::Expected { expected: kind, found: copy_lexeme(&self.curr) })
        }
    }

    fn is(&self, kind: TokenKind) -> (r: bool)
        ensures
            r == (self.curr.kind == kind),
    {
        self.curr.kind == kind
    }

    fn kind(&self) -> (r: TokenKind)
        ensures
            r == self.curr.kind,
    {
        self.curr.kind
    }

    /// A literal, a variable, a parenthesised expression, a tuple or a
    /// list.
    pub fn primary(&mut self) -> (r: Result<Expression, ParseError>)
        requires
            old(self).wf(),
        ensures
            final(self).wf(),
            final(self).measure() <= old(self).measure(),
            r is Ok ==> final(self).measure() < old(self).measure(),
        decreases old(self).measure(), 0nat,
    {
        match self.kind() {
            TokenKind::Atom => self.atom(),
            TokenKind::Number => self.number(),
            TokenKind::Identifier => self.variable(),
            TokenKind::String => self.string(),
            TokenKind::LParens => {
                self.expect(TokenKind::LParens)?;
                let expr = self.expression()?;
                self.expect(TokenKind::RParens)?;
                Ok(expr)
            },
            TokenKind::LBrace => {
                self.expect(TokenKind::LBrace)?;
                let elements = self.elements(TokenKind::RBrace)?;
                Ok(Expression::Tuple { elements })
            },
            TokenKind::LBracket => {
                self.expect(TokenKind::LBracket)?;
                let elements = self.elements(TokenKind::RBracket)?;
                Ok(Expression::List { elements })
            },
            _ => Err(ParseError::ExpectedPrimary { found: copy_lexeme(&self.curr) }),
        }
    }

    /// Comma-separated expressions up to and including `close`.
    fn elements(&mut self, close: TokenKind) -> (r: Result<Vec<Expression>, ParseError>)
        requires
            old(self).wf(),
            close != TokenKind::Eof,
        ensures
            final(self).wf(),
            final(self).measure() <= old(self).measure(),
            r is Ok ==> final(self).measure() < old(self).measure(),
        decreases old(self).measure(), 8nat,
    {
        let ghost m0 = self.measure();
        let mut elements: Vec<Expression> = Vec::new();
        while !self.is(close)
            invariant
                self.wf(),
                self.measure() <= m0,
                m0 == old(self).measure(),
                close != TokenKind::Eof,
            decreases self.measure(),
        {
            elements.push(self.expression()?);
            if self.is(close) {
                break;
            }
            self.expect(TokenKind::Comma)?;
        }
        self.expect(close)?;
        Ok(elements)
    }

    fn atom(&mut self) -> (r: Result<Expression, ParseError>)
        requires
            old(self).wf(),
        ensures
            final(self).wf(),
            final(self).measure() <= old(self).measure(),
            r is Ok ==> final(self).measure() < old(self).measure(),
    {
        let token = self.expect(TokenKind::Atom)?;
        Ok(Expression::Atom { value: token.lexeme })
    }

    fn number(&mut self) -> (r: Result<Expression, ParseError>)
        requires
            old(self).wf(),
        ensures
            final(self).wf(),
            final(self).measure() <= old(self).measure(),
            r is Ok ==> final(self).measure() < old(self).measure(),
    {
        let token = self.expect(TokenKind::Number)?;
        match parse_number(&token.lexeme) {
            Some(value) => Ok(Expression::Number { value }),
            None => Err(ParseError::NumberOutOfRange { lexeme: token.lexeme }),
        }
    }

    fn variable(&mut self) -> (r: Result<Expression, ParseError>)
        requires
            old(self).wf(),
        ensures
            final(self).wf(),
            final(self).measure() <= old(self).measure(),
            r is Ok ==> final(self).measure() < old(self).measure(),
    {
        let token = self.expect(TokenKind::Identifier)?;
        Ok(Expression::Variable { name: token.lexeme })
    }

    fn string(&mut self) -> (r: Result<Expression, ParseError>)
        requires
            old(self).wf(),
        ensures
            final(self).wf(),
            final(self).measure() <= old(self).measure(),
            r is Ok ==> final(self).measure() < old(self).measure(),
    {
        let token = self.expect(TokenKind::String)?;
        Ok(Expression::String { value: token.lexeme })
    }

    /// An expression: `let`, `case`, `if`, or operators over calls.
    pub fn expression(&mut self) -> (r: Result<Expression, ParseError>)
        requires
            old(self).wf(),
        ensures
            final(self).wf(),
            final(self).measure() <= old(self).measure(),
            r is Ok ==> final(self).measure() < old(self).measure(),
        decreases old(self).measure(), 7nat,
    {
        match self.kind() {
            TokenKind::Let => self.let_expression(),
            TokenKind::Case => self.match_case_expression(),
            TokenKind::If => self.if_expression(),
            _ => self.infix(0),
        }
    }

    fn if_expression(&mut self) -> (r: Result<Expression, ParseError>)
        requires
            old(self).wf(),
        ensures
            final(self).wf(),
            final(self).measure() <= old(self).measure(),
            r is Ok ==> final(self).measure() < old(self).measure(),
        decreases old(self).measure(), 6nat,
    {
        self.expect(TokenKind::If)?;
        let condition = self.expression()?;
        self.expect(TokenKind::Then)?;
        let then_branch = self.expression()?;
        self.expect(TokenKind::Else)?;
        let else_branch = self.expression()?;
        Ok(Expression::If {
            condition: Box::new(condition),
            then_branch: Box::new(then_branch),
            else_branch: Box::new(else_branch),
        })
    }

    /// Left-associative operators of precedence `prec` and tighter.
    fn infix(&mut self, prec: usize) -> (r: Result<Expression, ParseError>)
        requires
            old(self).wf(),
            prec <= 3,
        ensures
            final(self).wf(),
            final(self).measure() <= old(self).measure(),
            r is Ok ==> final(self).measure() < old(self).measure(),
        decreases old(self).measure(), (5 - prec) as nat,
    {
        if prec > 2 {
            return self.call();
        }
        let ghost m0 = self.measure();
        let mut left = self.infix(prec + 1)?;
        while is_level_op(prec, self.curr.kind)
            invariant
                self.wf(),
                prec <= 2,
                m0 == old(self).measure(),
                self.measure() < m0,
            decreases self.measure(),
        {
            let op = self.operation()?;
            let right = self.infix(prec + 1)?;
            left = Expression::Binary { op, lhs: Box::new(left), rhs: Box::new(right) };
        }
        Ok(left)
    }

    fn operation(&mut self) -> (r: Result<Operation, ParseError>)
        requires
            old(self).wf(),
        ensures
            final(self).wf(),
            final(self).measure() <= old(self).measure(),
            r is Ok ==> final(self).measure() < old(self).measure(),
    {
        if self.curr.kind == TokenKind::Eof {
            return Err(ParseError::ExpectedOperator { found: copy_lexeme(&self.curr) });
        }
        let token = self.eat();
        match token.kind {
            TokenKind::Plus => Ok(Operation::Add),
            TokenKind::Minus => Ok(Operation::Sub),
            TokenKind::Star => Ok(Operation::Mul),
            TokenKind::Slash => Ok(Operation::Div),
            TokenKind::DoubleEquals => Ok(Operation::Equal),
            _ => Err(ParseError::ExpectedOperator { found: token.lexeme }),
        }
    }

    /// A primary expression, called when an argument list follows.
    fn call(&mut self) -> (r: Result<Expression, ParseError>)
        requires
            old(self).wf(),
        ensures
            final(self).wf(),
            final(self).measure() <= old(self).measure(),
            r is Ok ==> final(self).measure() < old(self).measure(),
        decreases old(self).measure(), 1nat,
    {
        let callee = self.primary()?;
        if self.is(TokenKind::LParens) {
            self.eat();
            let arguments = self.elements(TokenKind::RParens)?;
            Ok(Expression::Call { callee: Box::new(callee), arguments })
        } else {
            Ok(callee)
        }
    }

    fn let_expression(&mut self) -> (r: Result<Expression, ParseError>)
        requires
            old(self).wf(),
        ensures
            final(self).wf(),
            final(self).measure() <= old(self).measure(),
            r is Ok ==> final(self).measure() < old(self).measure(),
        decreases old(self).measure(), 6nat,
    {
        self.expect(TokenKind::Let)?;
        let bind = self.expect(TokenKind::Identifier)?;
        self.expect(TokenKind::Equals)?;
        let value = self.expression()?;
        self.expect(TokenKind::In)?;
        let next = self.expression()?;
        Ok(Expression::Let { bind: bind.lexeme, value: Box::new(value), next: Box::new(next) })
    }

    fn match_case_expression(&mut self) -> (r: Result<Expression, ParseError>)
        requires
            old(self).wf(),
        ensures
            final(self).wf(),
            final(self).measure() <= old(self).measure(),
            r is Ok ==> final(self).measure() < old(self).measure(),
        decreases old(self).measure(), 6nat,
    {
        let ghost m0 = self.measure();
        self.expect(TokenKind::Case)?;
        let mut scrutinee = vec![self.expression()?];
        while self.is(TokenKind::Comma)
            invariant
                self.wf(),
                m0 == old(self).measure(),
                self.measure() < m0,
            decreases self.measure(),
        {
            self.eat();
            scrutinee.push(self.expression()?);
        }
        self.expect(TokenKind::Of)?;
        let mut arms = vec![self.arm()?];
        while self.is(TokenKind::Semicolon)
            invariant
                self.wf(),
                m0 == old(self).measure(),
                self.measure() < m0,
            decreases self.measure(),
        {
            self.eat();
            arms.push(self.arm()?);
        }
        self.expect(TokenKind::End)?;
        Ok(Expression::Match { scrutinee, arms })
    }

    fn arm(&mut self) -> (r: Result<Arm, ParseError>)
        requires
            old(self).wf(),
        ensures
            final(self).wf(),
            final(self).measure() <= old(self).measure(),
            r is Ok ==> final(self).measure() < old(self).measure(),
        decreases old(self).measure(), 8nat,
    {
        let ghost m0 = self.measure();
        let mut lhs = vec![self.pattern()?];
        while self.is(TokenKind::Comma)
            invariant
                self.wf(),
                m0 == old(self).measure(),
                self.measure() < m0,
            decreases self.measure(),
        {
            self.eat();
            lhs.push(self.pattern()?);
        }
        self.expect(TokenKind::Arrow)?;
        let rhs = self.expression()?;
        Ok(Arm { lhs, rhs: Box::new(rhs) })
    }

    /// A pattern: wildcard, literal, variable, tuple, or list with an
    /// optional `| tail`.
    pub fn pattern(&mut self) -> (r: Result<Pattern, ParseError>)
        requires
            old(self).wf(),
        ensures
            final(self).wf(),
            final(self).measure() <= old(self).measure(),
            r is Ok ==> final(self).measure() < old(self).measure(),
        decreases old(self).measure(),
    {
        match self.kind() {
            TokenKind::Wildcard => {
                self.expect(TokenKind::Wildcard)?;
                Ok(Pattern::Wildcard)
            },
            TokenKind::Atom => {
                let token = self.expect(TokenKind::Atom)?;
                Ok(Pattern::Atom { value: token.lexeme })
            },
            TokenKind::Number => {
                let token = self.expect(TokenKind::Number)?;
                match parse_number(&token.lexeme) {
                    Some(value) => Ok(Pattern::Number { value }),
                    None => Err(ParseError::NumberOutOfRange { lexeme: token.lexeme }),
                }
            },
            TokenKind::Identifier => {
                let token = self.expect(TokenKind::Identifier)?;
                Ok(Pattern::Variable { name: token.lexeme })
            },
            TokenKind::String => {
                let token = self.expect(TokenKind::String)?;
                Ok(Pattern::String { value: token.lexeme })
            },
            TokenKind::LBrace => {
                self.expect(TokenKind::LBrace)?;
                let ghost m1 = self.measure();
                let mut elements: Vec<Pattern> = Vec::new();
                while !self.is(TokenKind::RBrace)
                    invariant
                        self.wf(),
                        m1 < old(self).measure(),
                        self.measure() <= m1,
                    decreases self.measure(),
                {
                    elements.push(self.pattern()?);
                    if self.is(TokenKind::RBrace) {
                        break;
                    }
                    self.expect(TokenKind::Comma)?;
                }
                self.expect(TokenKind::RBrace)?;
                Ok(Pattern::Tuple { elements })
            },
            TokenKind::LBracket => {
                self.expect(TokenKind::LBracket)?;
                let ghost m1 = self.measure();
                let mut elements: Vec<Pattern> = Vec::new();
                let mut tail: Option<Box<Pattern>> = None;
                while !self.is(TokenKind::RBracket)
                    invariant
                        self.wf(),
                        m1 < old(self).measure(),
                        self.measure() <= m1,
                    decreases self.measure(),
                {
                    elements.push(self.pattern()?);
                    if self.is(TokenKind::Bar) {
                        self.eat();
                        tail = Some(Box::new(self.pattern()?));
                        break;
                    }
                    if self.is(TokenKind::RBracket) {
                        break;
                    }
                    self.expect(TokenKind::Comma)?;
                }
                self.expect(TokenKind::RBracket)?;
                Ok(Pattern::List { elements, tail })
            },
            _ => Err(ParseError::ExpectedPattern { found: copy_lexeme(&self.curr) }),
        }
    }

    /// A function: its name and every clause that follows under the same
    /// name.
    pub fn fn_definition(&mut self) -> (r: Result<FnDefinition, ParseError>)
        requires
            old(self).wf(),
        ensures
            final(self).wf(),
            final(self).measure() <= old(self).measure(),
            r is Ok ==> final(self).measure() < old(self).measure(),
            r is Ok ==> r->Ok_0.clauses.len() > 0,
    {
        let ghost m0 = self.measure();
        self.expect(TokenKind::Fn)?;
        let name = self.expect(TokenKind::Identifier)?;
        let mut clauses = vec![self.fn_clause()?];
        while self.is(TokenKind::Fn) && self.next.kind == TokenKind::Identifier && self.next.lexeme.eq(
            &name.lexeme,
        )
            invariant
                self.wf(),
                m0 == old(self).measure(),
                self.measure() < m0,
                clauses.len() > 0,
            decreases self.measure(),
        {
            self.eat();
            self.eat();
            clauses.push(self.fn_clause()?);
        }
        Ok(FnDefinition { name: name.lexeme, clauses })
    }

    fn fn_clause(&mut self) -> (r: Result<FnClause, ParseError>)
        requires
            old(self).wf(),
        ensures
            final(self).wf(),
            final(self).measure() <= old(self).measure(),
            r is Ok ==> final(self).measure() < old(self).measure(),
    {
        let ghost m0 = self.measure();
        self.expect(TokenKind::LParens)?;
        let mut patterns: Vec<Pattern> = Vec::new();
        while !self.is(TokenKind::RParens)
            invariant
                self.wf(),
                m0 == old(self).measure(),
                self.measure() < m0,
            decreases self.measure(),
        {
            patterns.push(self.pattern()?);
            if self.is(TokenKind::RParens) {
                break;
            }
            self.expect(TokenKind::Comma)?;
        }
        self.expect(TokenKind::RParens)?;
        self.expect(TokenKind::Arrow)?;
        let body = self.expression()?;
        Ok(FnClause { patterns, body: Box::new(body) })
    }

    /// Function definitions up to the end of the source.
    pub fn program(&mut self) -> (r: Result<Program, ParseError>)
        requires
            old(self).wf(),
        ensures
            final(self).wf(),
            r is Ok ==> forall|i: int|
                0 <= i < r->Ok_0.definitions.len() ==> (#[trigger] r->Ok_0.definitions[i]).clauses.len() > 0,
    {
        let mut definitions: Vec<FnDefinition> = Vec::new();
        while !self.is(TokenKind::Eof)
            invariant
                self.wf(),
                forall|i: int| 0 <= i < definitions.len() ==> (#[trigger] definitions[i]).clauses.len() > 0,
            decreases self.measure(),
        {
            definitions.push(self.fn_definition()?);
        }
        Ok(Program { definitions })
    }
}

} // verus!
