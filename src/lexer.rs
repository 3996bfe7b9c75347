//! Splits an equation's source bytes into tokens.
use vstd::prelude::*;
use vstd::string::StringSliceAdditionalSpecFns;

verus! {

/// The kind of a token.
#[derive(Debug, Clone, Copy, PartialEq, Eq, Structural)]
pub enum TK {
    Not,
    And,
    Or,
    Xor,
    True,
    False,
    Var,
    LParen,
    RParen,
    Equals,
    Eof,
}

/// A half-open range of byte offsets into the source text.
#[derive(Debug, Clone, Copy, PartialEq, Eq, Structural)]
pub struct Span {
    pub start: usize,
    pub end: usize,
}

/// A token: its kind and where it stands in the source.
#[derive(Debug, Clone, Copy, PartialEq, Eq, Structural)]
pub struct Token {
    pub kind: TK,
    pub span: Span,
}

pub open spec fn is_letter(b: u8) -> bool {
    (65 <= b && b <= 90) || (97 <= b && b <= 122) || b == 95
}

pub open spec fn is_digit(b: u8) -> bool {
    48 <= b && b <= 57
}

/// Number of identifier bytes (letters, `_`, digits) from `p` on.
pub open spec fn ident_len(s: Seq<u8>, p: int) -> int
    decreases s.len() - p,
{
    if 0 <= p < s.len() && (is_letter(s[p]) || is_digit(s[p])) {
        1 + ident_len(s, p + 1)
    } else {
        0
    }
}

/// The kind of a word made of identifier bytes: a keyword or a variable.
pub open spec fn word_kind(w: Seq<u8>) -> TK {
    if w == seq![78u8, 79, 84] {
        TK::Not
    } else if w == seq![65u8, 78, 68] {
        TK::And
    } else if w == seq![79u8, 82] {
        TK::Or
    } else if w == seq![88u8, 79, 82] {
        TK::Xor
    } else if w == seq![116u8, 114, 117, 101] {
        TK::True
    } else if w == seq![102u8, 97, 108, 115, 101] {
        TK::False
    } else {
        TK::Var
    }
}

/// The token that starts at byte `p`, with its length, or `None` where no
/// token starts there (whitespace or an unrecognised byte).
pub open spec fn match_at(s: Seq<u8>, p: int) -> Option<(TK, int)> {
    if !(0 <= p < s.len()) {
        None
    } else {
        let b = s[p];
        if is_letter(b) {
            let n = ident_len(s, p);
            Some((word_kind(s.subrange(p, p + n)), n))
        } else if b == 33 {
            Some((TK::Not, 1))
        } else if b == 46 {
            Some((TK::And, 1))
        } else if b == 43 {
            Some((TK::Or, 1))
        } else if b == 94 {
            Some((TK::Xor, 1))
        } else if b == 49 {
            Some((TK::True, 1))
        } else if b == 48 {
            Some((TK::False, 1))
        } else if b == 40 {
            Some((TK::LParen, 1))
        } else if b == 41 {
            Some((TK::RParen, 1))
        } else if b == 61 {
            Some((TK::Equals, 1))
        } else if b == 45 && p + 1 < s.len() && s[p + 1] == 62 {
            Some((TK::Equals, 2))
        } else if b == 0xe2 && p + 2 < s.len() && s[p + 1] == 0x8a && (s[p + 2] == 0x95
            || s[p + 2] == 0xbb) {
            // U+2295 and U+22BB
            Some((TK::Xor, 3))
        } else {
            None
        }
    }
}

/// The tokens found from byte `p` to the end, skipping every byte at which no
/// token starts.
pub open spec fn lex_from(s: Seq<u8>, p: int) -> Seq<Token>
    decreases s.len() - p,
{
    if p < 0 || p >= s.len() {
        Seq::empty()
    } else {
        match match_at(s, p) {
            Some((k, n)) => if 0 < n && p + n <= s.len() {
                seq![Token { kind: k, span: Span { start: p as usize, end: (p + n) as usize } }]
                    + lex_from(s, p + n)
            } else {
                Seq::empty()
            },
            None => lex_from(s, p + 1),
        }
    }
}

pub open spec fn eof_token(s: Seq<u8>) -> Token {
    Token { kind: TK::Eof, span: Span { start: s.len() as usize, end: s.len() as usize } }
}

/// The whole token sequence of a source text: its tokens, then one `Eof`.
pub open spec fn token_stream(s: Seq<u8>) -> Seq<Token> {
    lex_from(s, 0).push(eof_token(s))
}

proof fn lemma_ident_len_bounds(s: Seq<u8>, p: int)
    requires
        0 <= p <= s.len(),
    ensures
        0 <= ident_len(s, p) <= s.len() - p,
    decreases s.len() - p,
{
    if p < s.len() && (is_letter(s[p]) || is_digit(s[p])) {
        lemma_ident_len_bounds(s, p + 1);
    }
}

proof fn lemma_match_len(s: Seq<u8>, p: int)
    requires
        0 <= p < s.len(),
    ensures
        match match_at(s, p) {
            Some((k, n)) => 1 <= n <= s.len() - p,
            None => true,
        },
{
    lemma_ident_len_bounds(s, p);
    if is_letter(s[p]) {
        lemma_ident_len_bounds(s, p + 1);
    }
}

/// Every token that `lex_from` finds is a real token (not `Eof`) whose span
/// lies within the text.
pub proof fn lemma_lex_from_tokens(s: Seq<u8>, p: int)
    requires
        0 <= p,
        s.len() <= usize::MAX,
    ensures
        forall|i: int|
            0 <= i < lex_from(s, p).len() ==> {
                let t = #[trigger] lex_from(s, p)[i];
                &&& t.kind != TK::Eof
                &&& p <= t.span.start < t.span.end <= s.len()
            },
    decreases s.len() - p,
{
    if p < s.len() {
        lemma_match_len(s, p);
        match match_at(s, p) {
            Some((k, n)) => {
                lemma_lex_from_tokens(s, p + n);
                assert(k != TK::Eof) by {
                    if is_letter(s[p]) {
                        let n = ident_len(s, p);
                        assert(word_kind(s.subrange(p, p + n)) != TK::Eof);
                    }
                }
                let t = Token { kind: k, span: Span { start: p as usize, end: (p + n) as usize } };
                let rest = lex_from(s, p + n);
                assert forall|i: int| 0 <= i < lex_from(s, p).len() implies {
                    let u = #[trigger] lex_from(s, p)[i];
                    &&& u.kind != TK::Eof
                    &&& p <= u.span.start < u.span.end <= s.len()
                } by {
                    assert(lex_from(s, p) == seq![t] + rest);
                    if i > 0 {
                        assert(lex_from(s, p)[i] == rest[i - 1]);
                    }
                }
            },
            None => {
                lemma_lex_from_tokens(s, p + 1);
            },
        }
    }
}

/// The token stream ends with its one `Eof`, and every span lies within the
/// text.
pub proof fn lemma_token_stream(s: Seq<u8>)
    requires
        s.len() <= usize::MAX,
    ensures
        token_stream(s).len() >= 1,
        token_stream(s).last() == eof_token(s),
        forall|i: int|
            0 <= i < token_stream(s).len() - 1 ==> (#[trigger] token_stream(s)[i]).kind
                != TK::Eof,
        forall|i: int|
            0 <= i < token_stream(s).len() ==> (#[trigger] token_stream(s)[i]).span.start
                <= token_stream(s)[i].span.end <= s.len(),
{
    lemma_lex_from_tokens(s, 0);
    let l = lex_from(s, 0);
    assert forall|i: int| 0 <= i < token_stream(s).len() - 1 implies (#[trigger] token_stream(
        s,
    )[i]).kind != TK::Eof by {
        assert(token_stream(s)[i] == l[i]);
    }
    assert forall|i: int| 0 <= i < token_stream(s).len() implies (#[trigger] token_stream(
        s,
    )[i]).span.start <= token_stream(s)[i].span.end <= s.len() by {
        if i < l.len() {
            assert(token_stream(s)[i] == l[i]);
        }
    }
}

impl Token {
    /// The source bytes that the token covers.
    pub fn text(&self, input: &str) -> (r: Vec<u8>)
        requires
            self.span.start <= self.span.end <= input.spec_bytes().len(),
        ensures
            r@ == input.spec_bytes().subrange(self.span.start as int, self.span.end as int),
    {
        bytes_between(input.as_bytes(), self.span.start, self.span.end)
    }
}

/// Copies `s[start..end]`.
pub fn bytes_between(s: &[u8], start: usize, end: usize) -> (r: Vec<u8>)
    requires
        start <= end <= s@.len(),
    ensures
        r@ == s@.subrange(start as int, end as int),
{
    let mut r: Vec<u8> = Vec::new();
    let mut i: usize = start;
    while i < end
        invariant
            start <= i <= end <= s@.len(),
            r@ == s@.subrange(start as int, i as int),
        decreases end - i,
    {
        r.push(s[i]);
        i = i + 1;
        assert(r@ =~= s@.subrange(start as int, i as int));
    }
    r
}

fn is_letter_exec(b: u8) -> (r: bool)
    ensures
        r == is_letter(b),
{
    (65 <= b && b <= 90) || (97 <= b && b <= 122) || b == 95
}

fn is_digit_exec(b: u8) -> (r: bool)
    ensures
        r == is_digit(b),
{
    48 <= b && b <= 57
}

fn ident_end(s: &Vec<u8>, p: usize) -> (r: usize)
    requires
        p <= s@.len(),
    ensures
        r as int == p + ident_len(s@, p as int),
        p <= r <= s@.len(),
{
    proof {
        lemma_ident_len_bounds(s@, p as int);
    }
    let mut i: usize = p;
    while i < s.len() && (is_letter_exec(s[i]) || is_digit_exec(s[i]))
        invariant
            p <= i <= s@.len(),
            ident_len(s@, p as int) == (i - p) + ident_len(s@, i as int),
        decreases s@.len() - i,
    {
        i = i + 1;
    }
    i
}

/// Whether `s[start..end]` spells `w`.
fn spells(s: &Vec<u8>, start: usize, end: usize, w: &[u8]) -> (r: bool)
    requires
        start <= end <= s@.len(),
    ensures
        r == (s@.subrange(start as int, end as int) == w@),
{
    if end - start != w.len() {
        assert(s@.subrange(start as int, end as int).len() != w@.len());
        return false;
    }
    let mut i: usize = 0;
    while i < w.len()
        invariant
            end - start == w@.len(),
            start <= end <= s@.len(),
            0 <= i <= w@.len(),
            forall|j: int| 0 <= j < i ==> s@[start + j] == w@[j],
        decreases w@.len() - i,
    {
        if s[start + i] != w[i] {
            assert(s@.subrange(start as int, end as int)[i as int] != w@[i as int]);
            return false;
        }
        i = i + 1;
    }
    assert(s@.subrange(start as int, end as int) =~= w@);
    true
}

fn word_kind_exec(s: &Vec<u8>, start: usize, end: usize) -> (r: TK)
    requires
        start <= end <= s@.len(),
    ensures
        r == word_kind(s@.subrange(start as int, end as int)),
{
    let ghost w = s@.subrange(start as int, end as int);
    let not_w: [u8; 3] = [78, 79, 84];
    let and_w: [u8; 3] = [65, 78, 68];
    let or_w: [u8; 2] = [79, 82];
    let xor_w: [u8; 3] = [88, 79, 82];
    let true_w: [u8; 4] = [116, 114, 117, 101];
    let false_w: [u8; 5] = [102, 97, 108, 115, 101];
    assert(not_w@ =~= seq![78u8, 79, 84]);
    assert(and_w@ =~= seq![65u8, 78, 68]);
    assert(or_w@ =~= seq![79u8, 82]);
    assert(xor_w@ =~= seq![88u8, 79, 82]);
    assert(true_w@ =~= seq![116u8, 114, 117, 101]);
    assert(false_w@ =~= seq![102u8, 97, 108, 115, 101]);
    if spells(s, start, end, &not_w) {
        TK::Not
    } else if spells(s, start, end, &and_w) {
        TK::And
    } else if spells(s, start, end, &or_w) {
        TK::Or
    } else if spells(s, start, end, &xor_w) {
        TK::Xor
    } else if spells(s, start, end, &true_w) {
        TK::True
    } else if spells(s, start, end, &false_w) {
        TK::False
    } else {
        TK::Var
    }
}

/// Computes `match_at(s, p)`, returning the kind and the end of the token.
fn match_at_exec(s: &Vec<u8>, p: usize) -> (r: Option<(TK, usize)>)
    requires
        p < s@.len(),
    ensures
        match match_at(s@, p as int) {
            Some((k, n)) => r == Some((k, (p + n) as usize)),
            None => r.is_none(),
        },
{
    let b = s[p];
    let len = s.len();
    if is_letter_exec(b) {
        let e = ident_end(s, p);
        Some((word_kind_exec(s, p, e), e))
    } else if b == 33 {
        Some((TK::Not, p + 1))
    } else if b == 46 {
        Some((TK::And, p + 1))
    } else if b == 43 {
        Some((TK::Or, p + 1))
    } else if b == 94 {
        Some((TK::Xor, p + 1))
    } else if b == 49 {
        Some((TK::True, p + 1))
    } else if b == 48 {
        Some((TK::False, p + 1))
    } else if b == 40 {
        Some((TK::LParen, p + 1))
    } else if b == 41 {
        Some((TK::RParen, p + 1))
    } else if b == 61 {
        Some((TK::Equals, p + 1))
    } else if b == 45 && p + 1 < len && s[p + 1] == 62 {
        Some((TK::Equals, p + 2))
    } else if b == 0xe2 && len - p > 2 && s[p + 1] == 0x8a && (s[p + 2] == 0x95 || s[p + 2]
        == 0xbb) {
        Some((TK::Xor, p + 3))
    } else {
        None
    }
}

/// A pull-based token source over one source text. After the last token it
/// hands out a single `Eof` token, and nothing after that.
pub struct Lexer {
    input: Vec<u8>,
    pos: usize,
    eof: bool,
}

impl Lexer {
    /// The tokens that are still to come.
    pub closed spec fn remaining(&self) -> Seq<Token> {
        if self.eof {
            Seq::empty()
        } else {
            lex_from(self.input@, self.pos as int).push(eof_token(self.input@))
        }
    }

    pub closed spec fn wf(&self) -> bool {
        self.pos <= self.input@.len()
    }

    pub fn new(input: &str) -> (r: Lexer)
        ensures
            r.wf(),
            r.remaining() == token_stream(input.spec_bytes()),
    {
        let bytes = input.as_bytes();
        let v = bytes_between(bytes, 0, bytes.len());
        assert(v@ =~= bytes@);
        Lexer { input: v, pos: 0, eof: false }
    }

    /// Hands out the next token.
    pub fn next(&mut self) -> (r: Option<Token>)
        requires
            old(self).wf(),
        ensures
            final(self).wf(),
            old(self).remaining().len() == 0 ==> r.is_none() && final(self).remaining().len()
                == 0,
            old(self).remaining().len() > 0 ==> r == Some(old(self).remaining()[0])
                && final(self).remaining() == old(self).remaining().drop_first(),
    {
        if self.eof {
            return None;
        }
        let len = self.input.len();
        while self.pos < len
            invariant
                self.pos <= len == self.input@.len(),
                !self.eof,
                !old(self).eof,
                lex_from(self.input@, self.pos as int) == lex_from(
                    old(self).input@,
                    old(self).pos as int,
                ),
                self.input@ == old(self).input@,
            decreases len - self.pos,
        {
            let p = self.pos;
            proof {
                lemma_match_len(self.input@, p as int);
            }
            match match_at_exec(&self.input, p) {
                Some((k, e)) => {
                    self.pos = e;
                    let t = Token { kind: k, span: Span { start: p, end: e } };
                    assert(lex_from(self.input@, p as int) == seq![t] + lex_from(
                        self.input@,
                        e as int,
                    ));
                    let ghost rest = lex_from(self.input@, e as int);
                    let ghost eof = eof_token(self.input@);
                    assert((seq![t] + rest).push(eof) =~= seq![t] + rest.push(eof));
                    assert(old(self).remaining() == (seq![t] + rest).push(eof));
                    assert(self.remaining() == rest.push(eof));
                    return Some(t);
                },
                None => {
                    self.pos = p + 1;
                },
            }
        }
        self.eof = true;
        Some(Token { kind: TK::Eof, span: Span { start: len, end: len } })
    }
}

} // verus!
