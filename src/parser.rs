//! Recursive-descent parser from tokens to an expression tree.
use vstd::prelude::*;
use vstd::string::StringSliceAdditionalSpecFns;
use crate::lexer::{Lexer, Span, Token, TK, token_stream, eof_token, lemma_token_stream, bytes_between};

verus! {

/// A binary operator; all three share one precedence level.
#[derive(Debug, Clone, Copy, PartialEq, Eq, Structural)]
pub enum BinOp {
    And,
    Or,
    Xor,
}

impl BinOp {
    pub open spec fn spec_from_kind(tk: TK) -> BinOp {
        match tk {
            TK::And => BinOp::And,
            TK::Or => BinOp::Or,
            _ => BinOp::Xor,
        }
    }

    /// The operator that a binary-operator token stands for.
    pub fn from_kind(tk: TK) -> (r: BinOp)
        requires
            tk == TK::And || tk == TK::Or || tk == TK::Xor,
        ensures
            r == Self::spec_from_kind(tk),
    {
        match tk {
            TK::And => BinOp::And,
            TK::Or => BinOp::Or,
            _ => BinOp::Xor,
        }
    }
}

/// A node together with the source span it was parsed from.
#[derive(Debug)]
pub struct Spanned<T> {
    pub span: Span,
    pub node: T,
}

pub type SpanExpr = Spanned<Expr>;

/// An expression node; children are owned by their parent.
#[derive(Debug)]
pub enum Expr {
    Bool(bool),
    Var(usize),
    Not(Box<SpanExpr>),
    BinOp { op: BinOp, lhs: Box<SpanExpr>, rhs: Box<SpanExpr> },
}

/// The value of an expression under an assignment of the variables by index.
pub open spec fn eval(e: SpanExpr, a: Seq<bool>) -> bool
    decreases e,
{
    match e.node {
        Expr::Bool(b) => b,
        Expr::Var(i) => a[i as int],
        Expr::Not(x) => !eval(*x, a),
        Expr::BinOp { op, lhs, rhs } => apply(op, eval(*lhs, a), eval(*rhs, a)),
    }
}

pub open spec fn apply(op: BinOp, l: bool, r: bool) -> bool {
    match op {
        BinOp::And => l && r,
        BinOp::Or => l || r,
        BinOp::Xor => l != r,
    }
}

/// Every variable index in the tree is below `n`.
pub open spec fn vars_below(e: SpanExpr, n: int) -> bool
    decreases e,
{
    match e.node {
        Expr::Bool(_) => true,
        Expr::Var(i) => i < n,
        Expr::Not(x) => vars_below(*x, n),
        Expr::BinOp { op, lhs, rhs } => vars_below(*lhs, n) && vars_below(*rhs, n),
    }
}

pub proof fn lemma_vars_below_mono(e: SpanExpr, n: int, m: int)
    requires
        vars_below(e, n),
        n <= m,
    ensures
        vars_below(e, m),
    decreases e,
{
    match e.node {
        Expr::Bool(_) => {},
        Expr::Var(i) => {},
        Expr::Not(x) => lemma_vars_below_mono(*x, n, m),
        Expr::BinOp { op, lhs, rhs } => {
            lemma_vars_below_mono(*lhs, n, m);
            lemma_vars_below_mono(*rhs, n, m);
        },
    }
}

/// What the parser was looking for when it met an unexpected token.
#[derive(Debug, Clone, Copy, PartialEq, Eq, Structural)]
pub enum Expected {
    /// The start of an operand.
    Expression,
    /// A binary operator or the end of a group.
    Operator,
    /// One particular token kind.
    Kind(TK),
}

/// Why a source text is not an equation. Each variant carries the offending
/// token.
#[derive(Debug, Clone, Copy, PartialEq, Eq, Structural)]
pub enum SyntaxError {
    UnexpectedToken { expected: Expected, got: Token },
    UnexpectedEof(Token),
}

/// A parsed equation.
pub struct Equation {
    /// The expression's variable names, by index.
    pub inputs: Vec<Vec<u8>>,
    pub lhs: SpanExpr,
    pub output: Vec<u8>,
}

/// The names of a list of byte strings.
pub open spec fn names_view(v: Seq<Vec<u8>>) -> Seq<Seq<u8>> {
    v.map_values(|n: Vec<u8>| n@)
}

/// A parse step's outcome: the node, the next token's position and the names
/// interned so far, by index; or the error.
pub type Parsed<T> = Result<(T, int, Seq<Seq<u8>>), SyntaxError>;

pub open spec fn peek_kind(t: Seq<Token>, i: int) -> TK {
    if 0 <= i < t.len() {
        t[i].kind
    } else {
        TK::Eof
    }
}

/// Takes the token at `i`; fails at the end of the sequence.
pub open spec fn take(t: Seq<Token>, src: Seq<u8>, i: int) -> Result<Token, SyntaxError> {
    if 0 <= i < t.len() {
        Ok(t[i])
    } else {
        Err(SyntaxError::UnexpectedEof(eof_token(src)))
    }
}

/// Takes the token at `i`, which must be of kind `k`.
pub open spec fn take_kind(t: Seq<Token>, src: Seq<u8>, i: int, k: TK) -> Result<Token, SyntaxError> {
    match take(t, src, i) {
        Ok(tok) => if tok.kind == k {
            Ok(tok)
        } else {
            Err(SyntaxError::UnexpectedToken { expected: Expected::Kind(k), got: tok })
        },
        Err(e) => Err(e),
    }
}

/// Index of `name` in `vars` from `j` on, or `vars.len()` where it is absent.
pub open spec fn find_from(vars: Seq<Seq<u8>>, name: Seq<u8>, j: int) -> int
    decreases vars.len() - j,
{
    if j < 0 || j >= vars.len() {
        vars.len() as int
    } else if vars[j] == name {
        j
    } else {
        find_from(vars, name, j + 1)
    }
}

/// No name occurs twice.
pub open spec fn distinct(vars: Seq<Seq<u8>>) -> bool {
    forall|i: int, j: int| 0 <= i < j < vars.len() ==> vars[i] != vars[j]
}

/// Where the search from `j` finds nothing, no name from `j` on is `name`.
proof fn lemma_find_absent(vars: Seq<Seq<u8>>, name: Seq<u8>, j: int)
    requires
        0 <= j <= vars.len(),
        find_from(vars, name, j) == vars.len(),
    ensures
        forall|k: int| j <= k < vars.len() ==> vars[k] != name,
    decreases vars.len() - j,
{
    if j < vars.len() {
        lemma_find_absent(vars, name, j + 1);
    }
}

/// The names after interning `name`: unchanged where it is known, else with
/// `name` added at the next index.
pub open spec fn interned(vars: Seq<Seq<u8>>, name: Seq<u8>) -> Seq<Seq<u8>> {
    if find_from(vars, name, 0) < vars.len() {
        vars
    } else {
        vars.push(name)
    }
}

pub open spec fn span_of(start: Span, end: Span) -> Span {
    Span { start: start.start, end: end.end }
}

/// `expr := unary (BINOP expr)?`, parsed from token `i` on.
pub open spec fn parse_expr_spec(t: Seq<Token>, src: Seq<u8>, i: int, vars: Seq<Seq<u8>>) -> Parsed<SpanExpr>
    decreases t.len() - i, 1int,
{
    match parse_unary_spec(t, src, i, vars) {
        Err(e) => Err(e),
        Ok((lhs, j, v1)) => if !(i < j < t.len()) {
            Err(SyntaxError::UnexpectedEof(eof_token(src)))
        } else {
            let k = peek_kind(t, j);
            if k == TK::And || k == TK::Or || k == TK::Xor {
                match parse_expr_spec(t, src, j + 1, v1) {
                    Err(e) => Err(e),
                    Ok((rhs, m, v2)) => Ok((Spanned {
                        span: span_of(lhs.span, rhs.span),
                        node: Expr::BinOp {
                            op: BinOp::spec_from_kind(k),
                            lhs: Box::new(lhs),
                            rhs: Box::new(rhs),
                        },
                    }, m, v2)),
                }
            } else if k == TK::RParen || k == TK::Equals || k == TK::Eof {
                Ok((lhs, j, v1))
            } else {
                Err(SyntaxError::UnexpectedToken { expected: Expected::Operator, got: t[j] })
            }
        },
    }
}

/// `unary := BOOL | VAR | '!' expr | '(' expr ')'`, parsed from token `i` on.
pub open spec fn parse_unary_spec(t: Seq<Token>, src: Seq<u8>, i: int, vars: Seq<Seq<u8>>) -> Parsed<SpanExpr>
    decreases t.len() - i, 0int,
{
    let k = peek_kind(t, i);
    if k == TK::True || k == TK::False {
        Ok((Spanned { span: t[i].span, node: Expr::Bool(k == TK::True) }, i + 1, vars))
    } else if k == TK::Var {
        let name = src.subrange(t[i].span.start as int, t[i].span.end as int);
        let v1 = interned(vars, name);
        Ok((Spanned { span: t[i].span, node: Expr::Var(find_from(v1, name, 0) as usize) }, i + 1, v1))
    } else if k == TK::Not {
        match parse_expr_spec(t, src, i + 1, vars) {
            Err(e) => Err(e),
            Ok((e, j, v1)) => Ok((Spanned { span: span_of(t[i].span, e.span), node: Expr::Not(Box::new(e)) }, j, v1)),
        }
    } else if k == TK::LParen {
        match parse_expr_spec(t, src, i + 1, vars) {
            Err(e) => Err(e),
            Ok((e, j, v1)) => match take_kind(t, src, j, TK::RParen) {
                Err(err) => Err(err),
                Ok(rp) => Ok((Spanned { span: span_of(t[i].span, rp.span), node: e.node }, j + 1, v1)),
            },
        }
    } else {
        match take(t, src, i) {
            Ok(tok) => Err(SyntaxError::UnexpectedToken { expected: Expected::Expression, got: tok }),
            Err(e) => Err(e),
        }
    }
}

/// `equation := expr '=' VAR`: the tree, the names it uses by index, and the
/// output name.
pub open spec fn parse_equation_spec(t: Seq<Token>, src: Seq<u8>, i: int, vars: Seq<Seq<u8>>)
    -> Result<(SpanExpr, Seq<Seq<u8>>, Seq<u8>), SyntaxError>
{
    match parse_expr_spec(t, src, i, vars) {
        Err(e) => Err(e),
        Ok((lhs, j, v)) => match take_kind(t, src, j, TK::Equals) {
            Err(e) => Err(e),
            Ok(_) => match take_kind(t, src, j + 1, TK::Var) {
                Err(e) => Err(e),
                Ok(out) => Ok((lhs, v, src.subrange(out.span.start as int, out.span.end as int))),
            },
        },
    }
}

/// `r` and the parser's final state `fin` are what `p` describes.
pub open spec fn agrees(r: Result<SpanExpr, SyntaxError>, p: Parsed<SpanExpr>, fin: &Parser) -> bool {
    match p {
        Ok((e, j, v)) => r == Ok::<SpanExpr, SyntaxError>(e) && fin.position() == j && fin.names() == v,
        Err(err) => r == Err::<SpanExpr, SyntaxError>(err),
    }
}

/// Parses one source text. Variable names are interned in order of first
/// occurrence.
pub struct Parser {
    input: Vec<u8>,
    tokens: Vec<Token>,
    pos: usize,
    variables: Vec<Vec<u8>>,
}

impl Parser {
    pub closed spec fn source(&self) -> Seq<u8> {
        self.input@
    }

    pub closed spec fn tokens(&self) -> Seq<Token> {
        self.tokens@
    }

    pub closed spec fn position(&self) -> int {
        self.pos as int
    }

    pub closed spec fn names(&self) -> Seq<Seq<u8>> {
        names_view(self.variables@)
    }

    pub closed spec fn wf(&self) -> bool {
        &&& self.input@.len() <= usize::MAX
        &&& self.tokens@ == token_stream(self.input@)
        &&& self.pos <= self.tokens@.len()
        &&& self.variables@.len() <= self.pos
        &&& distinct(self.names())
    }

    pub fn new(input: &str) -> (r: Parser)
        ensures
            r.wf(),
            r.source() == input.spec_bytes(),
            r.tokens() == token_stream(input.spec_bytes()),
            r.position() == 0,
            r.names() == Seq::<Seq<u8>>::empty(),
    {
        let bytes = input.as_bytes();
        let mut lexer = Lexer::new(input);
        let mut tokens: Vec<Token> = Vec::new();
        loop
            invariant
                lexer.wf(),
                tokens@ + lexer.remaining() == token_stream(input.spec_bytes()),
            ensures
                tokens@ == token_stream(input.spec_bytes()),
            decreases lexer.remaining().len(),
        {
            let ghost before = lexer.remaining();
            match lexer.next() {
                Some(t) => {
                    tokens.push(t);
                    assert(tokens@ + lexer.remaining() =~= token_stream(input.spec_bytes()));
                },
                None => {
                    assert(tokens@ =~= token_stream(input.spec_bytes()));
                    break;
                },
            }
        }
        let variables: Vec<Vec<u8>> = Vec::new();
        assert(names_view(variables@) =~= Seq::<Seq<u8>>::empty());
        let input_bytes = bytes_between(bytes, 0, bytes.len());
        assert(input_bytes@ =~= bytes@);
        Parser { input: input_bytes, tokens, pos: 0, variables }
    }

    /// The source text, the tokens and the parse state are consistent.
    pub closed spec fn frame(&self, o: &Parser) -> bool {
        &&& self.wf()
        &&& self.input@ == o.input@
        &&& self.tokens@ == o.tokens@
    }

    /// Parses a whole equation: an expression, `=` and the output's name.
    pub fn parse_equation(&mut self) -> (r: Result<Equation, SyntaxError>)
        requires
            old(self).wf(),
        ensures
            match parse_equation_spec(
                old(self).tokens(),
                old(self).source(),
                old(self).position(),
                old(self).names(),
            ) {
                Ok((lhs, inputs, output)) => r.is_ok() && r.unwrap().lhs == lhs && names_view(
                    r.unwrap().inputs@,
                ) == inputs && r.unwrap().output@ == output,
                Err(e) => r == Err::<Equation, SyntaxError>(e),
            },
            r.is_ok() ==> vars_below(r.unwrap().lhs, r.unwrap().inputs@.len() as int),
            r.is_ok() ==> distinct(names_view(r.unwrap().inputs@)),
    {
        let lhs = match self.parse_expr() {
            Ok(e) => e,
            Err(e) => return Err(e),
        };
        match self.consume(TK::Equals) {
            Ok(()) => {},
            Err(e) => return Err(e),
        }
        let out = match self.expect(TK::Var) {
            Ok(t) => t,
            Err(e) => return Err(e),
        };
        proof {
            lemma_token_stream(self.input@);
        }
        let output = bytes_between(self.input.as_slice(), out.span.start, out.span.end);
        let inputs = copy_names(&self.variables);
        Ok(Equation { inputs, lhs, output })
    }

    fn parse_expr(&mut self) -> (r: Result<SpanExpr, SyntaxError>)
        requires
            old(self).wf(),
        ensures
            final(self).frame(old(self)),
            agrees(r, parse_expr_spec(old(self).tokens(), old(self).source(), old(self).position(), old(self).names()), final(self)),
            r.is_ok() ==> vars_below(r.unwrap(), final(self).names().len() as int)
                && old(self).names().len() <= final(self).names().len(),
            r.is_ok() ==> old(self).pos < final(self).pos < old(self).tokens@.len(),
        decreases old(self).tokens@.len() - old(self).pos, 2int,
    {
        let ghost t = self.tokens@;
        let ghost src = self.input@;
        let ghost i = self.pos as int;
        let ghost vars = self.names();
        proof {
            lemma_token_stream(src);
        }
        let k = self.peek();
        let lhs = if k == TK::True || k == TK::False {
            self.parse_bool(k)
        } else if k == TK::Var {
            self.parse_var()
        } else if k == TK::Not {
            self.parse_not()
        } else if k == TK::LParen {
            self.parse_group()
        } else {
            let got = self.next();
            return match got {
                Ok(token) => Err(SyntaxError::UnexpectedToken { expected: Expected::Expression, got: token }),
                Err(e) => Err(e),
            };
        };
        let lhs = match lhs {
            Ok(e) => e,
            Err(e) => return Err(e),
        };
        let ghost j = self.pos as int;
        let ghost v1 = self.names();
        assert(parse_unary_spec(t, src, i, vars) == Parsed::<SpanExpr>::Ok((lhs, j, v1)));
        let k = self.peek();
        if k == TK::And || k == TK::Or || k == TK::Xor {
            let op = BinOp::from_kind(k);
            self.advance();
            let rhs = match self.parse_expr() {
                Ok(e) => e,
                Err(e) => return Err(e),
            };
            proof {
                lemma_vars_below_mono(lhs, v1.len() as int, self.names().len() as int);
            }
            let span = Span { start: lhs.span.start, end: rhs.span.end };
            Ok(Spanned { span, node: Expr::BinOp { op, lhs: Box::new(lhs), rhs: Box::new(rhs) } })
        } else if k == TK::RParen || k == TK::Equals || k == TK::Eof {
            Ok(lhs)
        } else {
            let got = self.next();
            match got {
                Ok(token) => Err(SyntaxError::UnexpectedToken { expected: Expected::Operator, got: token }),
                Err(e) => Err(e),
            }
        }
    }

    fn parse_bool(&mut self, k: TK) -> (r: Result<SpanExpr, SyntaxError>)
        requires
            old(self).wf(),
            k == TK::True || k == TK::False,
            peek_kind(old(self).tokens(), old(self).position()) == k,
        ensures
            final(self).frame(old(self)),
            agrees(r, parse_unary_spec(old(self).tokens(), old(self).source(), old(self).position(), old(self).names()), final(self)),
            r.is_ok() ==> vars_below(r.unwrap(), final(self).names().len() as int)
                && old(self).names().len() <= final(self).names().len(),
            r.is_ok(),
            final(self).pos == old(self).pos + 1,
    {
        let token = match self.next() {
            Ok(t) => t,
            Err(e) => return Err(e),
        };
        Ok(Spanned { span: token.span, node: Expr::Bool(k == TK::True) })
    }

    fn parse_var(&mut self) -> (r: Result<SpanExpr, SyntaxError>)
        requires
            old(self).wf(),
            peek_kind(old(self).tokens(), old(self).position()) == TK::Var,
        ensures
            final(self).frame(old(self)),
            agrees(r, parse_unary_spec(old(self).tokens(), old(self).source(), old(self).position(), old(self).names()), final(self)),
            r.is_ok() ==> vars_below(r.unwrap(), final(self).names().len() as int)
                && old(self).names().len() <= final(self).names().len(),
            r.is_ok(),
            final(self).pos == old(self).pos + 1,
    {
        proof {
            lemma_token_stream(self.input@);
        }
        let token = match self.next() {
            Ok(t) => t,
            Err(e) => return Err(e),
        };
        let text = bytes_between(self.input.as_slice(), token.span.start, token.span.end);
        let index = self.insert_var(text);
        Ok(Spanned { span: token.span, node: Expr::Var(index) })
    }

    fn parse_not(&mut self) -> (r: Result<SpanExpr, SyntaxError>)
        requires
            old(self).wf(),
            peek_kind(old(self).tokens(), old(self).position()) == TK::Not,
        ensures
            final(self).frame(old(self)),
            agrees(r, parse_unary_spec(old(self).tokens(), old(self).source(), old(self).position(), old(self).names()), final(self)),
            r.is_ok() ==> vars_below(r.unwrap(), final(self).names().len() as int)
                && old(self).names().len() <= final(self).names().len(),
            r.is_ok() ==> old(self).pos < final(self).pos < old(self).tokens@.len(),
        decreases old(self).tokens@.len() - old(self).pos, 1int,
    {
        let not_token = match self.next() {
            Ok(t) => t,
            Err(e) => return Err(e),
        };
        let expr = match self.parse_expr() {
            Ok(e) => e,
            Err(e) => return Err(e),
        };
        let span = Span { start: not_token.span.start, end: expr.span.end };
        Ok(Spanned { span, node: Expr::Not(Box::new(expr)) })
    }

    fn parse_group(&mut self) -> (r: Result<SpanExpr, SyntaxError>)
        requires
            old(self).wf(),
            peek_kind(old(self).tokens(), old(self).position()) == TK::LParen,
        ensures
            final(self).frame(old(self)),
            agrees(r, parse_unary_spec(old(self).tokens(), old(self).source(), old(self).position(), old(self).names()), final(self)),
            r.is_ok() ==> vars_below(r.unwrap(), final(self).names().len() as int)
                && old(self).names().len() <= final(self).names().len(),
            r.is_ok() ==> old(self).pos < final(self).pos < old(self).tokens@.len(),
        decreases old(self).tokens@.len() - old(self).pos, 1int,
    {
        proof {
            lemma_token_stream(self.input@);
        }
        let lp_token = match self.next() {
            Ok(t) => t,
            Err(e) => return Err(e),
        };
        let expr = match self.parse_expr() {
            Ok(e) => e,
            Err(e) => return Err(e),
        };
        let rp_token = match self.expect(TK::RParen) {
            Ok(t) => t,
            Err(e) => return Err(e),
        };
        let span = Span { start: lp_token.span.start, end: rp_token.span.end };
        Ok(Spanned { span, node: expr.node })
    }

    /// Takes the next token.
    fn next(&mut self) -> (r: Result<Token, SyntaxError>)
        requires
            old(self).wf(),
        ensures
            final(self).frame(old(self)),
            final(self).variables@ == old(self).variables@,
            r == take(old(self).tokens(), old(self).source(), old(self).position()),
            final(self).pos == if r.is_ok() { old(self).pos + 1 } else { old(self).pos as int },
    {
        if self.pos < self.tokens.len() {
            let t = self.tokens[self.pos];
            self.pos = self.pos + 1;
            Ok(t)
        } else {
            let len = self.input.len();
            Err(SyntaxError::UnexpectedEof(Token { kind: TK::Eof, span: Span { start: len, end: len } }))
        }
    }

    fn peek(&self) -> (r: TK)
        ensures
            r == peek_kind(self.tokens(), self.position()),
    {
        if self.pos < self.tokens.len() {
            self.tokens[self.pos].kind
        } else {
            TK::Eof
        }
    }

    /// Steps over a token that `peek` has seen.
    fn advance(&mut self)
        requires
            old(self).wf(),
            old(self).pos < old(self).tokens@.len(),
        ensures
            final(self).frame(old(self)),
            final(self).variables@ == old(self).variables@,
            final(self).pos == old(self).pos + 1,
    {
        if self.pos < self.tokens.len() {
            self.pos = self.pos + 1;
        }
    }

    /// Takes the next token, which must be of kind `expected`.
    fn consume(&mut self, expected: TK) -> (r: Result<(), SyntaxError>)
        requires
            old(self).wf(),
        ensures
            final(self).frame(old(self)),
            final(self).variables@ == old(self).variables@,
            match take_kind(old(self).tokens(), old(self).source(), old(self).position(), expected) {
                Ok(_) => r.is_ok() && final(self).pos == old(self).pos + 1,
                Err(e) => r == Err::<(), SyntaxError>(e),
            },
    {
        let token = match self.next() {
            Ok(t) => t,
            Err(e) => return Err(e),
        };
        if token.kind != expected {
            Err(SyntaxError::UnexpectedToken { expected: Expected::Kind(expected), got: token })
        } else {
            Ok(())
        }
    }

    /// Takes the next token, which must be of kind `expected`, and returns it.
    fn expect(&mut self, expected: TK) -> (r: Result<Token, SyntaxError>)
        requires
            old(self).wf(),
        ensures
            final(self).frame(old(self)),
            final(self).variables@ == old(self).variables@,
            r == take_kind(old(self).tokens(), old(self).source(), old(self).position(), expected),
            r.is_ok() ==> final(self).pos == old(self).pos + 1,
    {
        let token = match self.next() {
            Ok(t) => t,
            Err(e) => return Err(e),
        };
        if token.kind != expected {
            Err(SyntaxError::UnexpectedToken { expected: Expected::Kind(expected), got: token })
        } else {
            Ok(token)
        }
    }

    /// The index of `key`, which receives the next free index on first sight.
    fn insert_var(&mut self, key: Vec<u8>) -> (r: usize)
        requires
            old(self).input@.len() <= usize::MAX,
            old(self).tokens@ == token_stream(old(self).input@),
            old(self).pos <= old(self).tokens@.len(),
            old(self).variables@.len() < old(self).pos,
            distinct(old(self).names()),
        ensures
            final(self).frame(old(self)),
            final(self).pos == old(self).pos,
            final(self).names() == interned(old(self).names(), key@),
            r == find_from(final(self).names(), key@, 0),
            r < final(self).names().len(),
            old(self).names().len() <= final(self).names().len(),
    {
        let ghost vars = self.names();
        let mut j: usize = 0;
        while j < self.variables.len()
            invariant
                self.input@ == old(self).input@,
                self.tokens@ == old(self).tokens@,
                self.pos == old(self).pos,
                self.variables@ == old(self).variables@,
                old(self).input@.len() <= usize::MAX,
                old(self).tokens@ == token_stream(old(self).input@),
                old(self).pos <= old(self).tokens@.len(),
                old(self).variables@.len() < old(self).pos,
                distinct(old(self).names()),
                vars == self.names(),
                0 <= j <= vars.len(),
                find_from(vars, key@, 0) == find_from(vars, key@, j as int),
            decreases self.variables@.len() - j,
        {
            if same_bytes(&self.variables[j], &key) {
                return j;
            }
            j = j + 1;
        }
        self.variables.push(key);
        proof {
            assert(self.names() =~= vars.push(key@));
            lemma_find_pushed(vars, key@);
            lemma_find_absent(vars, key@, 0);
            assert(distinct(self.names()));
        }
        j
    }
}

/// Finding a name that was just added past all others gives its index.
proof fn lemma_find_pushed(vars: Seq<Seq<u8>>, name: Seq<u8>)
    requires
        find_from(vars, name, 0) == vars.len(),
    ensures
        find_from(vars.push(name), name, 0) == vars.len(),
{
    lemma_find_pushed_from(vars, name, 0);
}

proof fn lemma_find_pushed_from(vars: Seq<Seq<u8>>, name: Seq<u8>, j: int)
    requires
        0 <= j <= vars.len(),
        find_from(vars, name, j) == vars.len(),
    ensures
        find_from(vars.push(name), name, j) == vars.len(),
    decreases vars.len() - j,
{
    if j < vars.len() {
        assert(vars.push(name)[j] == vars[j]);
        lemma_find_pushed_from(vars, name, j + 1);
    }
}

fn same_bytes(a: &Vec<u8>, b: &Vec<u8>) -> (r: bool)
    ensures
        r == (a@ == b@),
{
    if a.len() != b.len() {
        return false;
    }
    let mut i: usize = 0;
    while i < a.len()
        invariant
            a@.len() == b@.len(),
            0 <= i <= a@.len(),
            forall|k: int| 0 <= k < i ==> a@[k] == b@[k],
        decreases a@.len() - i,
    {
        if a[i] != b[i] {
            return false;
        }
        i = i + 1;
    }
    assert(a@ =~= b@);
    true
}

/// A copy of a list of byte strings.
pub(crate) fn copy_names(v: &Vec<Vec<u8>>) -> (r: Vec<Vec<u8>>)
    ensures
        names_view(r@) == names_view(v@),
{
    let mut r: Vec<Vec<u8>> = Vec::new();
    let mut i: usize = 0;
    while i < v.len()
        invariant
            0 <= i <= v@.len(),
            r@.len() == i,
            forall|k: int| 0 <= k < i ==> (#[trigger] r@[k])@ == v@[k]@,
        decreases v@.len() - i,
    {
        let n = bytes_between(v[i].as_slice(), 0, v[i].len());
        assert(n@ =~= v@[i as int]@);
        r.push(n);
        i = i + 1;
    }
    assert(names_view(r@) =~= names_view(v@));
    r
}

} // verus!
