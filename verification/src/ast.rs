//! Expression trees, and the parser that builds them from a token slice.

use crate::lexer::{Literal, Scalar, Span, Token};
use vstd::prelude::*;

verus! {

/// A syntax error.
#[derive(Debug, Clone, Copy, PartialEq, Eq, Structural)]
pub enum Error {
    /// An expression was expected, and the token at hand begins none.
    Unimplemented,
}

impl Error {
    /// The error in words.
    pub fn message(&self) -> (r: &'static str)
        ensures
            r@ == "unimplemented"@,
    {
        "unimplemented"
    }
}

/// A scalar with the span of the token it came from.
#[derive(Debug, Clone, Copy)]
pub struct SpSc {
    pub sc: Scalar,
    pub sp: Span,
}

/// An expression with the span of source text it was built from.
#[derive(Debug)]
pub struct Expr<'a> {
    pub ty: ExprType<'a>,
    pub span: Span,
}

#[derive(Debug)]
pub enum ExprType<'a> {
    Binary(Box<Binary<'a>>),
    Unary(Box<Unary<'a>>),
    Primary(Box<Primary<'a>>),
    /// Stands where an expression was expected and none was found.
    Invalid,
}

#[derive(Debug)]
pub struct Binary<'a> {
    pub lhs: Expr<'a>,
    pub op: SpSc,
    pub rhs: Expr<'a>,
}

#[derive(Debug)]
pub struct Unary<'a> {
    pub op: SpSc,
    pub rhs: Expr<'a>,
}

#[derive(Debug)]
pub enum Primary<'a> {
    Literal(&'a Literal),
    Identifier(&'a str),
    /// An expression between two delimiters. The grammar has no production
    /// for it yet.
    Block { lhs: SpSc, expr: Expr<'a>, rhs: SpSc },
}

impl<'a> Expr<'a> {
    /// A copy of the tree.
    pub fn duplicate(&self) -> (r: Expr<'a>)
        ensures
            r == *self,
        decreases *self,
    {
        let ty = match &self.ty {
            ExprType::Binary(b) => ExprType::Binary(
                Box::new(Binary { lhs: b.lhs.duplicate(), op: b.op, rhs: b.rhs.duplicate() }),
            ),
            ExprType::Unary(u) => ExprType::Unary(
                Box::new(Unary { op: u.op, rhs: u.rhs.duplicate() }),
            ),
            ExprType::Primary(p) => ExprType::Primary(
                Box::new(
                    match &**p {
                        Primary::Literal(l) => Primary::Literal(*l),
                        Primary::Identifier(i) => Primary::Identifier(*i),
                        Primary::Block { lhs, expr, rhs } => Primary::Block {
                            lhs: *lhs,
                            expr: expr.duplicate(),
                            rhs: *rhs,
                        },
                    },
                ),
            ),
            ExprType::Invalid => ExprType::Invalid,
        };
        Expr { ty, span: self.span }
    }
}

impl<'a> Clone for Expr<'a> {
    fn clone(&self) -> (r: Self)
        ensures
            r == *self,
    {
        self.duplicate()
    }
}

impl<'a> Clone for Binary<'a> {
    fn clone(&self) -> (r: Self)
        ensures
            r == *self,
    {
        Binary { lhs: self.lhs.duplicate(), op: self.op, rhs: self.rhs.duplicate() }
    }
}

impl<'a> Clone for Unary<'a> {
    fn clone(&self) -> (r: Self)
        ensures
            r == *self,
    {
        Unary { op: self.op, rhs: self.rhs.duplicate() }
    }
}

impl<'a> Clone for Primary<'a> {
    fn clone(&self) -> (r: Self)
        ensures
            r == *self,
    {
        match self {
            Primary::Literal(l) => Primary::Literal(*l),
            Primary::Identifier(i) => Primary::Identifier(*i),
            Primary::Block { lhs, expr, rhs } => Primary::Block {
                lhs: *lhs,
                expr: expr.duplicate(),
                rhs: *rhs,
            },
        }
    }
}

impl<'a> Clone for ExprType<'a> {
    fn clone(&self) -> (r: Self)
        ensures
            r == *self,
    {
        match self {
            ExprType::Binary(b) => ExprType::Binary(
                Box::new(Binary { lhs: b.lhs.duplicate(), op: b.op, rhs: b.rhs.duplicate() }),
            ),
            ExprType::Unary(u) => ExprType::Unary(
                Box::new(Unary { op: u.op, rhs: u.rhs.duplicate() }),
            ),
            ExprType::Primary(p) => ExprType::Primary(
                Box::new(
                    match &**p {
                        Primary::Literal(l) => Primary::Literal(*l),
                        Primary::Identifier(i) => Primary::Identifier(*i),
                        Primary::Block { lhs, expr, rhs } => Primary::Block {
                            lhs: *lhs,
                            expr: expr.duplicate(),
                            rhs: *rhs,
                        },
                    },
                ),
            ),
            ExprType::Invalid => ExprType::Invalid,
        }
    }
}

/// A binary level of the grammar, from the one that binds loosest.
#[derive(Debug, Clone, Copy, PartialEq, Eq, Structural)]
pub enum Level {
    Equality,
    Comparison,
    Addition,
    Multiplication,
}

impl Level {
    /// How tightly the level binds: the loosest level has rank 4.
    pub open spec fn rank(self) -> nat {
        match self {
            Level::Equality => 4,
            Level::Comparison => 3,
            Level::Addition => 2,
            Level::Multiplication => 1,
        }
    }

    /// `sc` is an operator of this level.
    pub open spec fn accepts(self, sc: Scalar) -> bool {
        match self {
            Level::Equality => sc == Scalar::Equal || sc == Scalar::NotEqual,
            Level::Comparison => sc == Scalar::GreaterEqual || sc == Scalar::LessEqual || sc
                == Scalar::Greater || sc == Scalar::Less,
            Level::Addition => sc == Scalar::Plus || sc == Scalar::Minus,
            Level::Multiplication => sc == Scalar::Star || sc == Scalar::Slash || sc
                == Scalar::Modulo,
        }
    }
}

/// `sc` is a prefix operator.
pub open spec fn is_prefix(sc: Scalar) -> bool {
    sc == Scalar::Bang || sc == Scalar::Plus || sc == Scalar::Minus
}

/// The rank of the level of which `sc` is an operator, and 0 where it is no
/// binary operator.
pub open spec fn rank_of(sc: Scalar) -> nat {
    if Level::Equality.accepts(sc) {
        Level::Equality.rank()
    } else if Level::Comparison.accepts(sc) {
        Level::Comparison.rank()
    } else if Level::Addition.accepts(sc) {
        Level::Addition.rank()
    } else if Level::Multiplication.accepts(sc) {
        Level::Multiplication.rank()
    } else {
        0
    }
}

/// What a production yields: the expression, the errors recorded on the way,
/// in order, and the position after the last token taken.
pub struct Parsed<'a> {
    pub expr: Expr<'a>,
    pub errors: Seq<(Error, Span)>,
    pub next: int,
}

/// The token as an operator, where it is a scalar that `accepted` holds of.
pub open spec fn operator_of<'a>(tok: (Token<'a>, Span), accepted: bool) -> Option<SpSc> {
    if tok.0 is Scalar && accepted {
        Some(SpSc { sc: tok.0->Scalar_0, sp: tok.1 })
    } else {
        None
    }
}

/// The token at `pos`, where it is a prefix operator.
pub open spec fn prefix_at<'a>(ts: Seq<(Token<'a>, Span)>, pos: int) -> Option<SpSc> {
    if 0 <= pos < ts.len() {
        operator_of(ts[pos], is_prefix(ts[pos].0->Scalar_0))
    } else {
        None
    }
}

/// The token at `pos`, where it is an operator of `level`.
pub open spec fn infix_at<'a>(level: Level, ts: Seq<(Token<'a>, Span)>, pos: int) -> Option<
    SpSc,
> {
    if 0 <= pos < ts.len() {
        operator_of(ts[pos], level.accepts(ts[pos].0->Scalar_0))
    } else {
        None
    }
}

/// The empty span at the end of the tokens: where the last token ends, and
/// at offset 0 where there is no token.
pub open spec fn end_span<'a>(ts: Seq<(Token<'a>, Span)>) -> Span {
    if ts.len() == 0 {
        Span { start: 0, end: 0 }
    } else {
        Span { start: ts.last().1.end, end: ts.last().1.end }
    }
}

/// `primary := LITERAL | IDENTIFIER | <recovery>`. Recovery records an error,
/// takes one token, if there is one, and yields an invalid node with the span
/// of that token, or the empty span at the end of the tokens where none is
/// left.
pub open spec fn primary_at<'a>(ts: Seq<(Token<'a>, Span)>, pos: int) -> Parsed<'a> {
    if 0 <= pos < ts.len() {
        let span = ts[pos].1;
        match ts[pos].0 {
            Token::Literal(l) => Parsed {
                expr: Expr { ty: ExprType::Primary(Box::new(Primary::Literal(&l))), span },
                errors: Seq::empty(),
                next: pos + 1,
            },
            Token::Identifier(i) => Parsed {
                expr: Expr { ty: ExprType::Primary(Box::new(Primary::Identifier(i))), span },
                errors: Seq::empty(),
                next: pos + 1,
            },
            Token::Scalar(_) => Parsed {
                expr: Expr { ty: ExprType::Invalid, span },
                errors: seq![(Error::Unimplemented, span)],
                next: pos + 1,
            },
        }
    } else {
        let span = end_span(ts);
        Parsed {
            expr: Expr { ty: ExprType::Invalid, span },
            errors: seq![(Error::Unimplemented, span)],
            next: pos,
        }
    }
}

/// `unary := ("!" | "+" | "-") unary | primary`.
pub open spec fn unary_at<'a>(ts: Seq<(Token<'a>, Span)>, pos: int) -> Parsed<'a>
    decreases ts.len() - pos,
{
    match prefix_at(ts, pos) {
        Some(op) => {
            let rhs = unary_at(ts, pos + 1);
            Parsed {
                expr: Expr {
                    span: Span { start: op.sp.start, end: rhs.expr.span.end },
                    ty: ExprType::Unary(Box::new(Unary { op, rhs: rhs.expr })),
                },
                errors: rhs.errors,
                next: rhs.next,
            }
        },
        None => primary_at(ts, pos),
    }
}

/// The binary node of `lhs`, `op` and `rhs`, after both operands.
pub open spec fn join<'a>(lhs: Parsed<'a>, op: SpSc, rhs: Parsed<'a>) -> Parsed<'a> {
    Parsed {
        expr: Expr {
            span: Span { start: lhs.expr.span.start, end: rhs.expr.span.end },
            ty: ExprType::Binary(Box::new(Binary { lhs: lhs.expr, op, rhs: rhs.expr })),
        },
        errors: lhs.errors + rhs.errors,
        next: rhs.next,
    }
}

/// An operand of `level`: the next tighter level, and `unary` below the
/// tightest.
pub open spec fn operand_at<'a>(level: Level, ts: Seq<(Token<'a>, Span)>, pos: int) -> Parsed<'a>
    decreases ts.len() - pos, level.rank(), 0nat,
{
    match level {
        Level::Equality => level_at(Level::Comparison, ts, pos),
        Level::Comparison => level_at(Level::Addition, ts, pos),
        Level::Addition => level_at(Level::Multiplication, ts, pos),
        Level::Multiplication => unary_at(ts, pos),
    }
}

/// `level := operand ( operator operand )*`, folded to the left.
pub open spec fn level_at<'a>(level: Level, ts: Seq<(Token<'a>, Span)>, pos: int) -> Parsed<'a>
    decreases ts.len() - pos, level.rank(), 2nat,
{
    fold_at(level, ts, pos, operand_at(level, ts, pos))
}

/// The rest of a level after its left operand `lhs`, whose last operand began
/// at `from`: as long as an operator of the level comes next, it and the
/// operand after it are folded into the left operand. (An operand never ends
/// before it begins, so `from <= lhs.next` always holds here: it is written
/// down for the sake of termination.)
pub open spec fn fold_at<'a>(
    level: Level,
    ts: Seq<(Token<'a>, Span)>,
    from: int,
    lhs: Parsed<'a>,
) -> Parsed<'a>
    decreases ts.len() - from, level.rank(), 1nat,
{
    match infix_at(level, ts, lhs.next) {
        Some(op) => if from <= lhs.next {
            fold_at(
                level,
                ts,
                lhs.next + 1,
                join(lhs, op, operand_at(level, ts, lhs.next + 1)),
            )
        } else {
            lhs
        },
        None => lhs,
    }
}

/// The expression that the tokens from `pos` on denote, with the errors met
/// on the way: the loosest level of the grammar.
pub open spec fn parse_at<'a>(ts: Seq<(Token<'a>, Span)>, pos: int) -> Parsed<'a> {
    level_at(Level::Equality, ts, pos)
}

/// A read position over a borrowed slice of tokens with their spans. The
/// position only moves forward.
pub struct Tokens<'a> {
    slice: &'a [(Token<'a>, Span)],
    cursor: usize,
}

impl<'a> View for Tokens<'a> {
    type V = Seq<(Token<'a>, Span)>;

    /// The tokens of the slice.
    closed spec fn view(&self) -> Seq<(Token<'a>, Span)> {
        self.slice@
    }
}

impl<'a> Tokens<'a> {
    /// The index of the token to be read next; the length of the slice when
    /// none is left.
    pub closed spec fn position(&self) -> int {
        if self.cursor <= self.slice@.len() {
            self.cursor as int
        } else {
            self.slice@.len() as int
        }
    }

    /// The token under the position, if there is one.
    pub open spec fn current(&self) -> Option<&'a (Token<'a>, Span)> {
        if self.position() < self@.len() {
            Some(&self@[self.position()])
        } else {
            None
        }
    }

    /// The position lies within the slice or at its end.
    pub proof fn lemma_position(&self)
        ensures
            0 <= self.position() <= self@.len(),
    {
    }

    /// The empty span at the end of the slice: where its last token ends.
    pub fn end(&self) -> (r: Span)
        ensures
            r == end_span(self@),
    {
        let n: usize = self.slice.len();
        if n == 0 {
            Span { start: 0, end: 0 }
        } else {
            let offset: usize = self.slice[n - 1].1.end;
            Span { start: offset, end: offset }
        }
    }

    /// A cursor at the start of `slice`.
    pub fn new(slice: &'a [(Token<'a>, Span)]) -> (tokens: Self)
        ensures
            tokens@ == slice@,
            tokens.position() == 0,
    {
        Tokens { slice, cursor: 0 }
    }

    /// The token under the position, which is then moved past it; `None`
    /// at the end of the slice.
    pub fn next(&mut self) -> (r: Option<&'a (Token<'a>, Span)>)
        ensures
            final(self)@ == old(self)@,
            r == old(self).current(),
            final(self).position() == if r is Some {
                old(self).position() + 1
            } else {
                old(self).position()
            },
            0 <= old(self).position() <= final(self).position() <= old(self)@.len(),
    {
        if self.cursor < self.slice.len() {
            let r = &self.slice[self.cursor];
            self.cursor = self.cursor + 1;
            Some(r)
        } else {
            None
        }
    }

    /// The token under the position, which stays where it is; `None` at the
    /// end of the slice.
    pub fn peek(&self) -> (r: Option<&'a (Token<'a>, Span)>)
        ensures
            r == self.current(),
            0 <= self.position() <= self@.len(),
    {
        if self.cursor < self.slice.len() {
            Some(&self.slice[self.cursor])
        } else {
            None
        }
    }
}

/// A production that began at `before` and left the cursor at `after` has
/// yielded `parsed`: its expression is `expr`, its errors were appended to
/// the list, and the cursor stands behind its last token.
pub open spec fn yields<'a>(
    before: Tokens<'a>,
    after: Tokens<'a>,
    errors_before: Seq<(Error, Span)>,
    errors_after: Seq<(Error, Span)>,
    expr: Expr<'a>,
    parsed: Parsed<'a>,
) -> bool {
    &&& after@ == before@
    &&& before.position() <= after.position() <= before@.len()
    &&& after.position() == parsed.next
    &&& errors_after == errors_before + parsed.errors
    &&& expr == parsed.expr
}

/// The token as a prefix operator, where it is one.
fn as_unary<'a>(tok: &(Token<'a>, Span)) -> (r: Option<SpSc>)
    ensures
        r == operator_of(*tok, is_prefix(tok.0->Scalar_0)),
{
    match &tok.0 {
        Token::Scalar(sc) => match sc {
            Scalar::Bang | Scalar::Plus | Scalar::Minus => Some(SpSc { sc: *sc, sp: tok.1 }),
            _ => None,
        },
        _ => None,
    }
}

/// The token as an operator of `level`, where it is one.
fn as_binary<'a>(level: Level, tok: &(Token<'a>, Span)) -> (r: Option<SpSc>)
    ensures
        r == operator_of(*tok, level.accepts(tok.0->Scalar_0)),
{
    match &tok.0 {
        Token::Scalar(sc) => {
            let accepted = match level {
                Level::Equality => match sc {
                    Scalar::Equal | Scalar::NotEqual => true,
                    _ => false,
                },
                Level::Comparison => match sc {
                    Scalar::GreaterEqual | Scalar::LessEqual | Scalar::Greater
                    | Scalar::Less => true,
                    _ => false,
                },
                Level::Addition => match sc {
                    Scalar::Plus | Scalar::Minus => true,
                    _ => false,
                },
                Level::Multiplication => match sc {
                    Scalar::Star | Scalar::Slash | Scalar::Modulo => true,
                    _ => false,
                },
            };
            if accepted {
                Some(SpSc { sc: *sc, sp: tok.1 })
            } else {
                None
            }
        },
        _ => None,
    }
}

/// Parses a primary expression: a literal or an identifier. Anything else is
/// an error, which is recorded; the token at hand is taken all the same, and
/// an invalid node with its span stands in for the expression. Where no token
/// is left, the invalid node has the empty span at the end of the tokens.
pub fn primary<'a>(tokens: &mut Tokens<'a>, errors: &mut Vec<(Error, Span)>) -> (expr: Expr<'a>)
    ensures
        yields(
            *old(tokens),
            *final(tokens),
            old(errors)@,
            final(errors)@,
            expr,
            primary_at(old(tokens)@, old(tokens).position()),
        ),
{
    match tokens.next() {
        Some(tok) => {
            let span = tok.1;
            match &tok.0 {
                Token::Literal(l) => {
                    assert(errors@ =~= errors@ + Seq::<(Error, Span)>::empty());
                    Expr { ty: ExprType::Primary(Box::new(Primary::Literal(l))), span }
                },
                Token::Identifier(i) => {
                    assert(errors@ =~= errors@ + Seq::<(Error, Span)>::empty());
                    Expr { ty: ExprType::Primary(Box::new(Primary::Identifier(*i))), span }
                },
                Token::Scalar(_) => {
                    errors.push((Error::Unimplemented, span));
                    assert(errors@ =~= old(errors)@ + seq![(Error::Unimplemented, span)]);
                    Expr { ty: ExprType::Invalid, span }
                },
            }
        },
        None => {
            let span = tokens.end();
            errors.push((Error::Unimplemented, span));
            assert(errors@ =~= old(errors)@ + seq![(Error::Unimplemented, span)]);
            Expr { ty: ExprType::Invalid, span }
        },
    }
}

/// Parses a unary expression: prefix operators, nested to the right, before a
/// primary expression.
pub fn unary<'a>(tokens: &mut Tokens<'a>, errors: &mut Vec<(Error, Span)>) -> (expr: Expr<'a>)
    ensures
        yields(
            *old(tokens),
            *final(tokens),
            old(errors)@,
            final(errors)@,
            expr,
            unary_at(old(tokens)@, old(tokens).position()),
        ),
    decreases old(tokens)@.len() - old(tokens).position(),
{
    let op = match tokens.peek() {
        Some(tok) => as_unary(tok),
        None => None,
    };
    match op {
        Some(op) => {
            tokens.next();
            let rhs = unary(tokens, errors);
            Expr {
                span: Span { start: op.sp.start, end: rhs.span.end },
                ty: ExprType::Unary(Box::new(Unary { op, rhs })),
            }
        },
        None => primary(tokens, errors),
    }
}

/// Parses an operand of `level`.
pub fn operand<'a>(level: Level, tokens: &mut Tokens<'a>, errors: &mut Vec<(Error, Span)>) -> (expr:
    Expr<'a>)
    ensures
        yields(
            *old(tokens),
            *final(tokens),
            old(errors)@,
            final(errors)@,
            expr,
            operand_at(level, old(tokens)@, old(tokens).position()),
        ),
    decreases old(tokens)@.len() - old(tokens).position(), level.rank(), 0nat,
{
    match level {
        Level::Equality => binary(Level::Comparison, tokens, errors),
        Level::Comparison => binary(Level::Addition, tokens, errors),
        Level::Addition => binary(Level::Multiplication, tokens, errors),
        Level::Multiplication => unary(tokens, errors),
    }
}

/// Parses one binary level: an operand, then operators of the level with
/// their right operands as long as one comes next, folded to the left.
pub fn binary<'a>(level: Level, tokens: &mut Tokens<'a>, errors: &mut Vec<(Error, Span)>) -> (expr:
    Expr<'a>)
    ensures
        yields(
            *old(tokens),
            *final(tokens),
            old(errors)@,
            final(errors)@,
            expr,
            level_at(level, old(tokens)@, old(tokens).position()),
        ),
    decreases old(tokens)@.len() - old(tokens).position(), level.rank(), 2nat,
{
    let ghost ts = tokens@;
    let ghost start = tokens.position();
    let ghost target = level_at(level, ts, start);
    let mut expr = operand(level, tokens, errors);
    let ghost from = start;
    let ghost lhs = operand_at(level, ts, start);
    loop
        invariant
            tokens@ == ts,
            ts == old(tokens)@,
            start == old(tokens).position(),
            start <= from <= tokens.position() <= ts.len(),
            lhs.expr == expr,
            lhs.next == tokens.position(),
            errors@ == old(errors)@ + lhs.errors,
            fold_at(level, ts, from, lhs) == target,
            target == level_at(level, ts, start),
        ensures
            yields(*old(tokens), *tokens, old(errors)@, errors@, expr, target),
        decreases ts.len() - tokens.position(),
    {
        let op = match tokens.peek() {
            Some(tok) => as_binary(level, tok),
            None => None,
        };
        match op {
            None => {
                break ;
            },
            Some(op) => {
                tokens.next();
                let ghost after_op = tokens.position();
                let rhs = operand(level, tokens, errors);
                proof {
                    let r = operand_at(level, ts, after_op);
                    assert(errors@ =~= old(errors)@ + (lhs.errors + r.errors));
                    lhs = join(lhs, op, r);
                    from = after_op;
                }
                let start_offset: usize = expr.span.start;
                expr = Expr {
                    span: Span { start: start_offset, end: rhs.span.end },
                    ty: ExprType::Binary(Box::new(Binary { lhs: expr, op, rhs })),
                };
            },
        }
    }
    expr
}

/// Parses the tokens from the cursor on into one expression and the syntax
/// errors met on the way, in the order in which they were met. Parsing never
/// fails: where no expression can begin, an invalid node stands in, and an
/// error with the span of the token that was skipped is recorded, or with the
/// empty span at the end of the tokens where none was left. Where the spans of
/// the tokens are ordered, the span of every node of the expression is well
/// formed and contains the spans of the node's children.
pub fn parse<'a>(tokens: &mut Tokens<'a>) -> (r: (Expr<'a>, Vec<(Error, Span)>))
    ensures
        yields(
            *old(tokens),
            *final(tokens),
            Seq::empty(),
            r.1@,
            r.0,
            parse_at(old(tokens)@, old(tokens).position()),
        ),
        is_sound(
            old(tokens)@,
            old(tokens).position(),
            parse_at(old(tokens)@, old(tokens).position()),
        ),
        spans_ordered(old(tokens)@) ==> r.0.span.wf() && r.0.contains_children(),
        r.0.binds_within(Level::Equality.rank()),
        takes_its_leaves(
            old(tokens)@,
            old(tokens).position(),
            parse_at(old(tokens)@, old(tokens).position()),
        ),
{
    proof {
        lemma_parse_sound(tokens@, tokens.position());
        lemma_level_binds(Level::Equality, tokens@, tokens.position());
        lemma_level_leaves(Level::Equality, tokens@, tokens.position());
    }
    let mut errors: Vec<(Error, Span)> = Vec::new();
    let expr = binary(Level::Equality, tokens, &mut errors);
    assert(Seq::<(Error, Span)>::empty() + parse_at(old(tokens)@, old(tokens).position()).errors
        =~= parse_at(old(tokens)@, old(tokens).position()).errors);
    (expr, errors)
}

impl<'a> Expr<'a> {
    /// Every binary and unary node below and at `self` spans from the start
    /// of its leftmost child to the end of its rightmost child: a binary node
    /// from its left operand to its right operand, a unary node from its
    /// operator to its operand.
    pub open spec fn spans_from_children(self) -> bool
        decreases self,
    {
        match self.ty {
            ExprType::Binary(b) => {
                &&& self.span.start == b.lhs.span.start
                &&& self.span.end == b.rhs.span.end
                &&& b.lhs.spans_from_children()
                &&& b.rhs.spans_from_children()
            },
            ExprType::Unary(u) => {
                &&& self.span.start == u.op.sp.start
                &&& self.span.end == u.rhs.span.end
                &&& u.rhs.spans_from_children()
            },
            ExprType::Primary(p) => match *p {
                Primary::Block { lhs, expr, rhs } => expr.spans_from_children(),
                _ => true,
            },
            ExprType::Invalid => true,
        }
    }

    /// The span of every node below and at `self` contains the spans of the
    /// node's children, operators included.
    pub open spec fn contains_children(self) -> bool
        decreases self,
    {
        match self.ty {
            ExprType::Binary(b) => {
                &&& b.lhs.span.within(self.span)
                &&& b.op.sp.within(self.span)
                &&& b.rhs.span.within(self.span)
                &&& b.lhs.contains_children()
                &&& b.rhs.contains_children()
            },
            ExprType::Unary(u) => {
                &&& u.op.sp.within(self.span)
                &&& u.rhs.span.within(self.span)
                &&& u.rhs.contains_children()
            },
            ExprType::Primary(p) => match *p {
                Primary::Block { lhs, expr, rhs } => {
                    &&& lhs.sp.within(self.span)
                    &&& expr.span.within(self.span)
                    &&& rhs.sp.within(self.span)
                    &&& expr.contains_children()
                },
                _ => true,
            },
            ExprType::Invalid => true,
        }
    }

    /// No operator of `self` binds looser than `rank`, and at every binary
    /// node below and at `self` the left operand binds no looser than the
    /// node's operator and the right operand binds tighter: operators of one
    /// level associate to the left, and an operator of a tighter level is
    /// applied first. The operand of a prefix operator holds no binary
    /// operator at all.
    pub open spec fn binds_within(self, rank: nat) -> bool
        decreases self,
    {
        match self.ty {
            ExprType::Binary(b) => {
                &&& 1 <= rank_of(b.op.sc) <= rank
                &&& b.lhs.binds_within(rank_of(b.op.sc))
                &&& b.rhs.binds_within((rank_of(b.op.sc) - 1) as nat)
            },
            ExprType::Unary(u) => is_prefix(u.op.sc) && u.rhs.binds_within(0),
            ExprType::Primary(p) => match *p {
                Primary::Block { lhs, expr, rhs } => expr.binds_within(Level::Equality.rank()),
                _ => true,
            },
            ExprType::Invalid => true,
        }
    }

    /// The spans of the tokens from which `self` was built, from left to
    /// right: operators, delimiters, literals, identifiers and the tokens that
    /// invalid nodes stand for.
    pub open spec fn leaves(self) -> Seq<Span>
        decreases self,
    {
        match self.ty {
            ExprType::Binary(b) => b.lhs.leaves() + seq![b.op.sp] + b.rhs.leaves(),
            ExprType::Unary(u) => seq![u.op.sp] + u.rhs.leaves(),
            ExprType::Primary(p) => match *p {
                Primary::Block { lhs, expr, rhs } => seq![lhs.sp] + expr.leaves() + seq![rhs.sp],
                _ => seq![self.span],
            },
            ExprType::Invalid => seq![self.span],
        }
    }

    /// The number of invalid nodes below and at `self`.
    pub open spec fn invalid_nodes(self) -> nat
        decreases self,
    {
        match self.ty {
            ExprType::Binary(b) => b.lhs.invalid_nodes() + b.rhs.invalid_nodes(),
            ExprType::Unary(u) => u.rhs.invalid_nodes(),
            ExprType::Primary(p) => match *p {
                Primary::Block { lhs, expr, rhs } => expr.invalid_nodes(),
                _ => 0,
            },
            ExprType::Invalid => 1,
        }
    }
}

/// The spans of the tokens are well formed and follow one another in the
/// order of the tokens without overlap.
pub open spec fn spans_ordered<'a>(ts: Seq<(Token<'a>, Span)>) -> bool {
    &&& forall|i: int| 0 <= i < ts.len() ==> (#[trigger] ts[i]).1.wf()
    &&& forall|i: int, j: int|
        0 <= i < j < ts.len() ==> (#[trigger] ts[i]).1.end <= (#[trigger] ts[j]).1.start
}

/// Where the token at `pos` starts, and the end of the tokens where there is
/// none.
pub open spec fn start_at<'a>(ts: Seq<(Token<'a>, Span)>, pos: int) -> usize {
    if pos < ts.len() {
        ts[pos].1.start
    } else {
        end_span(ts).start
    }
}

/// Where the token before `pos` ends, and offset 0 where there is none.
pub open spec fn end_before<'a>(ts: Seq<(Token<'a>, Span)>, pos: int) -> usize {
    if pos > 0 {
        ts[pos - 1].1.end
    } else {
        0
    }
}

/// What holds of every production `p` that began at `pos`.
///
/// It ends where it began or later, and within the tokens. As long as a token
/// is left it takes at least one, so no production can be repeated for ever;
/// at the end of the tokens it takes none. Its expression spans from the start
/// of its first token to the end of its last one, and its nodes' spans are
/// those of their outermost children. It records one error for each invalid
/// node. And where the spans of the tokens are ordered, the span of every
/// node is well formed and contains the spans of the node's children.
pub open spec fn is_sound<'a>(ts: Seq<(Token<'a>, Span)>, pos: int, p: Parsed<'a>) -> bool {
    &&& pos <= p.next
    &&& pos >= ts.len() ==> p.next == pos
    &&& pos < ts.len() ==> pos < p.next <= ts.len()
    &&& pos <= ts.len() ==> p.expr.span.start == start_at(ts, pos) && p.expr.span.end
        == end_before(ts, p.next)
    &&& p.expr.spans_from_children()
    &&& p.errors.len() == p.expr.invalid_nodes()
    &&& spans_ordered(ts) && pos <= ts.len() ==> p.expr.span.wf() && p.expr.contains_children()
}

/// Every primary expression is sound. Recovery in particular takes exactly
/// one token, where one is left, records exactly one error, and yields one
/// invalid node; where no token is left it takes none, and the invalid node
/// has the empty span at the end of the tokens.
pub proof fn lemma_primary_sound<'a>(ts: Seq<(Token<'a>, Span)>, pos: int)
    requires
        0 <= pos,
    ensures
        is_sound(ts, pos, primary_at(ts, pos)),
        pos < ts.len() && ts[pos].0 is Scalar ==> {
            let p = primary_at(ts, pos);
            &&& p.next == pos + 1
            &&& p.errors == seq![(Error::Unimplemented, ts[pos].1)]
            &&& p.expr.ty is Invalid
            &&& p.expr.span == ts[pos].1
        },
        pos >= ts.len() ==> {
            let p = primary_at(ts, pos);
            &&& p.next == pos
            &&& p.errors == seq![(Error::Unimplemented, end_span(ts))]
            &&& p.expr.ty is Invalid
            &&& p.expr.span == end_span(ts)
        },
{
}

/// Every unary expression is sound.
pub proof fn lemma_unary_sound<'a>(ts: Seq<(Token<'a>, Span)>, pos: int)
    requires
        0 <= pos,
    ensures
        is_sound(ts, pos, unary_at(ts, pos)),
    decreases ts.len() - pos,
{
    match prefix_at(ts, pos) {
        Some(op) => {
            lemma_unary_sound(ts, pos + 1);
        },
        None => {
            lemma_primary_sound(ts, pos);
        },
    }
}

/// Every operand of a binary level is sound.
pub proof fn lemma_operand_sound<'a>(level: Level, ts: Seq<(Token<'a>, Span)>, pos: int)
    requires
        0 <= pos,
    ensures
        is_sound(ts, pos, operand_at(level, ts, pos)),
    decreases ts.len() - pos, level.rank(), 0nat,
{
    match level {
        Level::Equality => lemma_level_sound(Level::Comparison, ts, pos),
        Level::Comparison => lemma_level_sound(Level::Addition, ts, pos),
        Level::Addition => lemma_level_sound(Level::Multiplication, ts, pos),
        Level::Multiplication => lemma_unary_sound(ts, pos),
    }
}

/// Every binary level is sound.
pub proof fn lemma_level_sound<'a>(level: Level, ts: Seq<(Token<'a>, Span)>, pos: int)
    requires
        0 <= pos,
    ensures
        is_sound(ts, pos, level_at(level, ts, pos)),
    decreases ts.len() - pos, level.rank(), 2nat,
{
    lemma_operand_sound(level, ts, pos);
    lemma_fold_sound(level, ts, pos, pos, operand_at(level, ts, pos));
}

/// Folding further operands into a sound left operand is sound.
pub proof fn lemma_fold_sound<'a>(
    level: Level,
    ts: Seq<(Token<'a>, Span)>,
    pos: int,
    from: int,
    lhs: Parsed<'a>,
)
    requires
        0 <= pos <= from <= lhs.next,
        is_sound(ts, pos, lhs),
    ensures
        is_sound(ts, pos, fold_at(level, ts, from, lhs)),
    decreases ts.len() - from, level.rank(), 1nat,
{
    match infix_at(level, ts, lhs.next) {
        Some(op) => {
            let rhs = operand_at(level, ts, lhs.next + 1);
            lemma_operand_sound(level, ts, lhs.next + 1);
            let both = join(lhs, op, rhs);
            assert(is_sound(ts, pos, both));
            lemma_fold_sound(level, ts, pos, lhs.next + 1, both);
        },
        None => {},
    }
}

/// Parsing is sound from every position.
pub proof fn lemma_parse_sound<'a>(ts: Seq<(Token<'a>, Span)>, pos: int)
    requires
        0 <= pos,
    ensures
        is_sound(ts, pos, parse_at(ts, pos)),
{
    lemma_level_sound(Level::Equality, ts, pos);
}

/// An expression that binds within a rank binds within every looser rank.
pub proof fn lemma_binds_looser<'a>(expr: Expr<'a>, rank: nat, looser: nat)
    requires
        expr.binds_within(rank),
        rank <= looser,
    ensures
        expr.binds_within(looser),
{
}

/// Precedence and associativity in a unary expression: its operand holds no
/// binary operator.
pub proof fn lemma_unary_binds<'a>(ts: Seq<(Token<'a>, Span)>, pos: int)
    ensures
        unary_at(ts, pos).expr.binds_within(0),
    decreases ts.len() - pos,
{
    if prefix_at(ts, pos) is Some {
        lemma_unary_binds(ts, pos + 1);
    }
}

/// Precedence and associativity in an operand of a level: it binds tighter
/// than the level.
pub proof fn lemma_operand_binds<'a>(level: Level, ts: Seq<(Token<'a>, Span)>, pos: int)
    ensures
        operand_at(level, ts, pos).expr.binds_within((level.rank() - 1) as nat),
    decreases ts.len() - pos, level.rank(), 0nat,
{
    match level {
        Level::Equality => lemma_level_binds(Level::Comparison, ts, pos),
        Level::Comparison => lemma_level_binds(Level::Addition, ts, pos),
        Level::Addition => lemma_level_binds(Level::Multiplication, ts, pos),
        Level::Multiplication => lemma_unary_binds(ts, pos),
    }
}

/// Precedence and associativity in a level: its expression binds within the
/// level, its operators associate to the left, and tighter operators are
/// applied first.
pub proof fn lemma_level_binds<'a>(level: Level, ts: Seq<(Token<'a>, Span)>, pos: int)
    ensures
        level_at(level, ts, pos).expr.binds_within(level.rank()),
    decreases ts.len() - pos, level.rank(), 2nat,
{
    let first = operand_at(level, ts, pos);
    lemma_operand_binds(level, ts, pos);
    lemma_binds_looser(first.expr, (level.rank() - 1) as nat, level.rank());
    lemma_fold_binds(level, ts, pos, first);
}

/// Folding further operands of a level into a left operand that binds
/// within the level yields an expression that binds within the level.
pub proof fn lemma_fold_binds<'a>(
    level: Level,
    ts: Seq<(Token<'a>, Span)>,
    from: int,
    lhs: Parsed<'a>,
)
    requires
        lhs.expr.binds_within(level.rank()),
    ensures
        fold_at(level, ts, from, lhs).expr.binds_within(level.rank()),
    decreases ts.len() - from, level.rank(), 1nat,
{
    match infix_at(level, ts, lhs.next) {
        Some(op) => {
            if from <= lhs.next {
                let rhs = operand_at(level, ts, lhs.next + 1);
                lemma_operand_binds(level, ts, lhs.next + 1);
                assert(rank_of(op.sc) == level.rank());
                lemma_fold_binds(level, ts, lhs.next + 1, join(lhs, op, rhs));
            }
        },
        None => {},
    }
}

/// The spans of the tokens from `from` up to `to`.
pub open spec fn spans_of<'a>(ts: Seq<(Token<'a>, Span)>, from: int, to: int) -> Seq<Span> {
    Seq::new((to - from) as nat, |i: int| ts[from + i].1)
}

/// The leaves of the expression of `p`, which began at `pos`, are the tokens
/// it took, in their order, each once; behind them stands at most the empty
/// span at the end of the tokens, that of the invalid node which marks that
/// end.
pub open spec fn takes_its_leaves<'a>(ts: Seq<(Token<'a>, Span)>, pos: int, p: Parsed<'a>) -> bool {
    let leaves = p.expr.leaves();
    let taken = p.next - pos;
    &&& 0 <= taken <= leaves.len() <= taken + 1
    &&& leaves.take(taken) == spans_of(ts, pos, p.next)
    &&& leaves.len() == taken + 1 ==> p.next >= ts.len() && leaves.last() == end_span(ts)
}

/// The leaves of a unary expression are the tokens it took.
pub proof fn lemma_unary_leaves<'a>(ts: Seq<(Token<'a>, Span)>, pos: int)
    requires
        0 <= pos,
    ensures
        takes_its_leaves(ts, pos, unary_at(ts, pos)),
    decreases ts.len() - pos,
{
    let p = unary_at(ts, pos);
    match prefix_at(ts, pos) {
        Some(op) => {
            let rhs = unary_at(ts, pos + 1);
            lemma_unary_leaves(ts, pos + 1);
            lemma_unary_sound(ts, pos + 1);
            let taken = rhs.next - (pos + 1);
            assert(p.expr.leaves() =~= seq![op.sp] + rhs.expr.leaves());
            assert(p.expr.leaves().take(taken + 1) =~= seq![op.sp] + rhs.expr.leaves().take(taken));
            assert(seq![op.sp] + spans_of(ts, pos + 1, rhs.next) =~= spans_of(ts, pos, rhs.next));
        },
        None => {
            assert(p.expr.leaves() =~= seq![p.expr.span]);
            assert(p.expr.leaves().take(p.next - pos) =~= spans_of(ts, pos, p.next));
        },
    }
}

/// The leaves of an operand of a level are the tokens it took.
pub proof fn lemma_operand_leaves<'a>(level: Level, ts: Seq<(Token<'a>, Span)>, pos: int)
    requires
        0 <= pos,
    ensures
        takes_its_leaves(ts, pos, operand_at(level, ts, pos)),
    decreases ts.len() - pos, level.rank(), 0nat,
{
    match level {
        Level::Equality => lemma_level_leaves(Level::Comparison, ts, pos),
        Level::Comparison => lemma_level_leaves(Level::Addition, ts, pos),
        Level::Addition => lemma_level_leaves(Level::Multiplication, ts, pos),
        Level::Multiplication => lemma_unary_leaves(ts, pos),
    }
}

/// The leaves of the expression of a level are the tokens it took: none is
/// dropped, none is taken twice, and none changes its place.
pub proof fn lemma_level_leaves<'a>(level: Level, ts: Seq<(Token<'a>, Span)>, pos: int)
    requires
        0 <= pos,
    ensures
        takes_its_leaves(ts, pos, level_at(level, ts, pos)),
    decreases ts.len() - pos, level.rank(), 2nat,
{
    lemma_operand_leaves(level, ts, pos);
    lemma_operand_sound(level, ts, pos);
    lemma_fold_leaves(level, ts, pos, pos, operand_at(level, ts, pos));
}

/// Folding further operands into a left operand that takes its leaves yields
/// an expression that takes its leaves.
pub proof fn lemma_fold_leaves<'a>(
    level: Level,
    ts: Seq<(Token<'a>, Span)>,
    pos: int,
    from: int,
    lhs: Parsed<'a>,
)
    requires
        0 <= pos <= from <= lhs.next,
        takes_its_leaves(ts, pos, lhs),
    ensures
        takes_its_leaves(ts, pos, fold_at(level, ts, from, lhs)),
    decreases ts.len() - from, level.rank(), 1nat,
{
    match infix_at(level, ts, lhs.next) {
        Some(op) => {
            let rhs = operand_at(level, ts, lhs.next + 1);
            lemma_operand_leaves(level, ts, lhs.next + 1);
            lemma_operand_sound(level, ts, lhs.next + 1);
            let both = join(lhs, op, rhs);
            let left = lhs.expr.leaves();
            let right = rhs.expr.leaves();
            let taken = rhs.next - (lhs.next + 1);
            assert(left =~= spans_of(ts, pos, lhs.next)) by {
                assert(left.take(lhs.next - pos) =~= left);
            }
            assert(both.expr.leaves() =~= left + seq![op.sp] + right);
            assert(both.expr.leaves().take(both.next - pos) =~= left + seq![op.sp] + right.take(
                taken,
            ));
            assert(left + seq![op.sp] + spans_of(ts, lhs.next + 1, rhs.next) =~= spans_of(
                ts,
                pos,
                rhs.next,
            ));
            assert(takes_its_leaves(ts, pos, both));
            lemma_fold_leaves(level, ts, pos, lhs.next + 1, both);
        },
        None => {},
    }
}

} // verus!
