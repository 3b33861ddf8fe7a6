//! Tokenizer for the expression language. The token stream it produces is
//! specified exactly by the spec-level scanner `spec_lex`, over the character
//! sequence of the source text; each token carries its start offset.
use crate::num::dec_to_bits;
use rustc_apfloat::ieee::Double;
use rustc_apfloat::Float;
use rustc_apfloat::Round;
use vstd::prelude::*;
use vstd::string::StrSliceExecFns;

verus! {

/// An error found while reading a formula's source text; the payload is the
/// character offset at which it was found.
#[derive(Debug, PartialEq, Eq, Structural, Clone, Copy)]
pub enum ParseError {
    UnexpectedToken(usize),
    MissingRParen(usize),
    MissingArgument(usize),
    InvalidNumber(usize),
    UnterminatedRef(usize),
}

/// An arithmetic operator token.
#[derive(Debug, PartialEq, Eq, Structural, Clone, Copy)]
pub enum Arithm {
    Plus,
    Minus,
    Times,
    Div,
    Rem,
    Pow,
    Fact,
}

/// An expression token. `Number` carries the IEEE-754 bit pattern of the
/// double nearest the numeral; `Ref` is the name after a `&` marker.
#[derive(Debug, Clone)]
pub enum Token {
    Op(Arithm),
    LParen,
    RParen,
    Comma,
    Number(u64),
    Ident(String),
    Ref(String),
}

/// The spec-level image of a token: identifiers as character sequences.
pub enum TokenV {
    Op(Arithm),
    LParen,
    RParen,
    Comma,
    Number(u64),
    Ident(Seq<char>),
    Ref(Seq<char>),
}

/// The spec-level image of an executable token.
pub open spec fn token_view(t: Token) -> TokenV {
    match t {
        Token::Op(a) => TokenV::Op(a),
        Token::LParen => TokenV::LParen,
        Token::RParen => TokenV::RParen,
        Token::Comma => TokenV::Comma,
        Token::Number(b) => TokenV::Number(b),
        Token::Ident(s) => TokenV::Ident(s@),
        Token::Ref(s) => TokenV::Ref(s@),
    }
}

impl PartialEq for Token {
    fn eq(&self, other: &Token) -> (r: bool) {
        match (self, other) {
            (Token::Op(a), Token::Op(b)) => a == b,
            (Token::LParen, Token::LParen) => true,
            (Token::RParen, Token::RParen) => true,
            (Token::Comma, Token::Comma) => true,
            (Token::Number(a), Token::Number(b)) => a == b,
            (Token::Ident(a), Token::Ident(b)) => *a == *b,
            (Token::Ref(a), Token::Ref(b)) => *a == *b,
            _ => false,
        }
    }
}

impl vstd::std_specs::cmp::PartialEqSpecImpl for Token {
    open spec fn obeys_eq_spec() -> bool {
        true
    }

    open spec fn eq_spec(&self, other: &Token) -> bool {
        token_view(*self) == token_view(*other)
    }
}

pub open spec fn is_ws_char(c: char) -> bool {
    c == ' ' || c == '\t' || c == '\n' || c == '\r'
}

pub open spec fn is_digit_char(c: char) -> bool {
    '0' <= c && c <= '9'
}

pub open spec fn is_alpha_char(c: char) -> bool {
    ('a' <= c && c <= 'z') || ('A' <= c && c <= 'Z')
}

/// A character that may start an identifier.
pub open spec fn is_ident_start(c: char) -> bool {
    is_alpha_char(c) || c == '_'
}

/// A character that may continue an identifier.
pub open spec fn is_ident_char(c: char) -> bool {
    is_alpha_char(c) || is_digit_char(c) || c == '_'
}

/// The first position at or after `i` holding a non-digit (or the end).
pub open spec fn digits_end(s: Seq<char>, i: int) -> int
    decreases s.len() - i,
{
    if i < s.len() && is_digit_char(s[i]) {
        digits_end(s, i + 1)
    } else {
        i
    }
}

/// The first position at or after `i` that cannot continue an identifier.
pub open spec fn ident_end(s: Seq<char>, i: int) -> int
    decreases s.len() - i,
{
    if i < s.len() && is_ident_char(s[i]) {
        ident_end(s, i + 1)
    } else {
        i
    }
}

/// Where the number token starting at `i` ends: an integer part, an optional
/// fraction after one dot, and an optional exponent `e`/`E` with an optional
/// sign, taken only when at least one digit follows it.
pub open spec fn num_end(s: Seq<char>, i: int) -> int {
    let d1 = digits_end(s, i);
    let d2 = if d1 < s.len() && s[d1] == '.' {
        digits_end(s, d1 + 1)
    } else {
        d1
    };
    if d2 < s.len() && (s[d2] == 'e' || s[d2] == 'E') {
        let g = if d2 + 1 < s.len() && (s[d2 + 1] == '+' || s[d2 + 1] == '-') {
            d2 + 2
        } else {
            d2 + 1
        };
        if g < s.len() && is_digit_char(s[g]) {
            digits_end(s, g)
        } else {
            d2
        }
    } else {
        d2
    }
}

/// Whether `i` starts a number token: a digit, or a dot with a digit after.
pub open spec fn is_num_start(s: Seq<char>, i: int) -> bool {
    i < s.len() && (is_digit_char(s[i]) || (s[i] == '.' && i + 1 < s.len() && is_digit_char(
        s[i + 1],
    )))
}

/// A whole text that is exactly one number token.
pub open spec fn is_num_token(s: Seq<char>) -> bool {
    is_num_start(s, 0) && num_end(s, 0) == s.len()
}

/// Relies on rustc_apfloat: `Double::from_str_r` reads a decimal numeral of
/// the shape `digits [ '.' digits ] [ ('e'|'E') ['+'|'-'] digits ]` (the dot
/// may also lead or trail the digits) and yields the nearest double; exactly
/// the texts admitted by `is_num_token`, on which it never reports an error.
#[verifier::external_body]
pub(crate) fn parse_number_bits(s: &str) -> (r: u64)
    requires
        is_num_token(s@),
    ensures
        r == dec_to_bits(s@),
{
    match Double::from_str_r(s, Round::NearestTiesToEven) {
        Ok(v) => v.value.to_bits() as u64,
        Err(_) => 0,
    }
}

/// Prefixes already-scanned tokens onto the outcome of scanning the rest.
pub open spec fn lex_prepend(
    ts: Seq<(TokenV, int)>,
    rest: Result<Seq<(TokenV, int)>, ParseError>,
) -> Result<Seq<(TokenV, int)>, ParseError> {
    match rest {
        Ok(more) => Ok(ts + more),
        Err(e) => Err(e),
    }
}

/// The token (with its start offset and its end position) found at the
/// non-whitespace position `i`, or the error there.
pub open spec fn token_at(s: Seq<char>, i: int) -> Result<(TokenV, int), ParseError> {
    let c = s[i];
    if c == '+' {
        Ok((TokenV::Op(Arithm::Plus), i + 1))
    } else if c == '-' {
        Ok((TokenV::Op(Arithm::Minus), i + 1))
    } else if c == '*' {
        if i + 1 < s.len() && s[i + 1] == '*' {
            Ok((TokenV::Op(Arithm::Pow), i + 2))
        } else {
            Ok((TokenV::Op(Arithm::Times), i + 1))
        }
    } else if c == '/' {
        Ok((TokenV::Op(Arithm::Div), i + 1))
    } else if c == '%' {
        Ok((TokenV::Op(Arithm::Rem), i + 1))
    } else if c == '!' {
        Ok((TokenV::Op(Arithm::Fact), i + 1))
    } else if c == '(' {
        Ok((TokenV::LParen, i + 1))
    } else if c == ')' {
        Ok((TokenV::RParen, i + 1))
    } else if c == ',' {
        Ok((TokenV::Comma, i + 1))
    } else if c == '&' {
        if i + 1 < s.len() && is_ident_start(s[i + 1]) {
            let e = ident_end(s, i + 1);
            Ok((TokenV::Ref(s.subrange(i + 1, e)), e))
        } else {
            Err(ParseError::UnterminatedRef(i as usize))
        }
    } else if is_ident_start(c) {
        let e = ident_end(s, i);
        Ok((TokenV::Ident(s.subrange(i, e)), e))
    } else if is_num_start(s, i) {
        let e = num_end(s, i);
        Ok((TokenV::Number(dec_to_bits(s.subrange(i, e))), e))
    } else {
        Err(ParseError::UnexpectedToken(i as usize))
    }
}

/// The token stream of `s` from position `i` on: whitespace is skipped, and
/// each token starts at the first character that the previous one did not
/// consume.
pub open spec fn spec_lex_from(s: Seq<char>, i: int) -> Result<
    Seq<(TokenV, int)>,
    ParseError,
>
    decreases s.len() - i,
{
    if i < 0 || i >= s.len() {
        Ok(Seq::empty())
    } else if is_ws_char(s[i]) {
        spec_lex_from(s, i + 1)
    } else {
        match token_at(s, i) {
            Ok((t, e)) => if i < e <= s.len() {
                lex_prepend(seq![(t, i)], spec_lex_from(s, e))
            } else {
                Err(ParseError::UnexpectedToken(i as usize))
            },
            Err(err) => Err(err),
        }
    }
}

/// The token stream of the whole text.
pub open spec fn spec_lex(s: Seq<char>) -> Result<Seq<(TokenV, int)>, ParseError> {
    spec_lex_from(s, 0)
}

/// The spec-level image of an executable token vector with offsets.
pub open spec fn tokens_view(v: Seq<(Token, usize)>) -> Seq<(TokenV, int)> {
    v.map_values(|p: (Token, usize)| (token_view(p.0), p.1 as int))
}

proof fn lemma_digits_end_bounds(s: Seq<char>, i: int)
    requires
        0 <= i <= s.len(),
    ensures
        i <= digits_end(s, i) <= s.len(),
        forall|k: int| i <= k < digits_end(s, i) ==> is_digit_char(s[k]),
        digits_end(s, i) < s.len() ==> !is_digit_char(s[digits_end(s, i)]),
    decreases s.len() - i,
{
    if i < s.len() && is_digit_char(s[i]) {
        lemma_digits_end_bounds(s, i + 1);
    }
}

/// `digits_end` is the unique stopping point of the digit run.
proof fn lemma_digits_end_is(s: Seq<char>, i: int, e: int)
    requires
        0 <= i <= e <= s.len(),
        forall|k: int| i <= k < e ==> is_digit_char(s[k]),
        e < s.len() ==> !is_digit_char(s[e]),
    ensures
        digits_end(s, i) == e,
    decreases e - i,
{
    if i < e {
        assert(is_digit_char(s[i]));
        lemma_digits_end_is(s, i + 1, e);
    }
}

proof fn lemma_ident_end_bounds(s: Seq<char>, i: int)
    requires
        0 <= i <= s.len(),
    ensures
        i <= ident_end(s, i) <= s.len(),
        forall|k: int| i <= k < ident_end(s, i) ==> is_ident_char(s[k]),
        ident_end(s, i) < s.len() ==> !is_ident_char(s[ident_end(s, i)]),
    decreases s.len() - i,
{
    if i < s.len() && is_ident_char(s[i]) {
        lemma_ident_end_bounds(s, i + 1);
    }
}

/// The number token extracted from `s` is itself a whole number token: each
/// scan inside the extracted text stops where the scan inside `s` stopped.
proof fn lemma_num_token_extract(s: Seq<char>, i: int)
    requires
        0 <= i < s.len(),
        is_num_start(s, i),
    ensures
        i < num_end(s, i) <= s.len(),
        is_num_token(s.subrange(i, num_end(s, i))),
{
    let d1 = digits_end(s, i);
    lemma_digits_end_bounds(s, i);
    let dotted = d1 < s.len() && s[d1] == '.';
    let d2 = if dotted {
        digits_end(s, d1 + 1)
    } else {
        d1
    };
    if dotted {
        lemma_digits_end_bounds(s, d1 + 1);
    }
    let g = if d2 + 1 < s.len() && (s[d2 + 1] == '+' || s[d2 + 1] == '-') {
        d2 + 2
    } else {
        d2 + 1
    };
    let expo = d2 < s.len() && (s[d2] == 'e' || s[d2] == 'E') && g < s.len() && is_digit_char(
        s[g],
    );
    let e = if expo {
        digits_end(s, g)
    } else {
        d2
    };
    if expo {
        lemma_digits_end_bounds(s, g);
    }
    assert(e == num_end(s, i));
    assert(i < e) by {
        if !is_digit_char(s[i]) {
            assert(s[i] == '.' && i + 1 < s.len() && is_digit_char(s[i + 1]));
            assert(d1 == i);
            assert(dotted);
        }
    }
    let t = s.subrange(i, e);
    lemma_digits_end_is(t, 0, d1 - i);
    if dotted {
        lemma_digits_end_is(t, d1 + 1 - i, d2 - i);
    }
    if expo {
        lemma_digits_end_is(t, g - i, e - i);
    }
    assert(num_end(t, 0) == t.len());
}

proof fn lemma_ident_end_is(s: Seq<char>, i: int, e: int)
    requires
        0 <= i <= e <= s.len(),
        forall|k: int| i <= k < e ==> is_ident_char(s[k]),
        e < s.len() ==> !is_ident_char(s[e]),
    ensures
        ident_end(s, i) == e,
    decreases e - i,
{
    if i < e {
        assert(is_ident_char(s[i]));
        lemma_ident_end_is(s, i + 1, e);
    }
}

fn is_digit_exec(c: char) -> (b: bool)
    ensures
        b == is_digit_char(c),
{
    '0' <= c && c <= '9'
}

fn is_ident_start_exec(c: char) -> (b: bool)
    ensures
        b == is_ident_start(c),
{
    ('a' <= c && c <= 'z') || ('A' <= c && c <= 'Z') || c == '_'
}

fn is_ident_char_exec(c: char) -> (b: bool)
    ensures
        b == is_ident_char(c),
{
    ('a' <= c && c <= 'z') || ('A' <= c && c <= 'Z') || ('0' <= c && c <= '9') || c == '_'
}

fn is_ws_exec(c: char) -> (b: bool)
    ensures
        b == is_ws_char(c),
{
    c == ' ' || c == '\t' || c == '\n' || c == '\r'
}


/// One scanning step: tokens found so far, then the token at `pos`, then the
/// rest, associate either way.
proof fn lemma_lex_step(
    sv: Seq<char>,
    prev: Seq<(TokenV, int)>,
    t: TokenV,
    pos: int,
    next: int,
)
    requires
        spec_lex_from(sv, pos) == lex_prepend(seq![(t, pos)], spec_lex_from(sv, next)),
    ensures
        lex_prepend(prev, spec_lex_from(sv, pos)) == lex_prepend(
            prev + seq![(t, pos)],
            spec_lex_from(sv, next),
        ),
{
    match spec_lex_from(sv, next) {
        Ok(m) => {
            assert(prev + (seq![(t, pos)] + m) =~= (prev + seq![(t, pos)]) + m);
        },
        Err(_) => {},
    }
}

/// The tokenizer. `new` records the source text; `tokenize` scans it whole.
pub struct Lexer {
    text: String,
    src: Vec<char>,
}

impl Lexer {
    /// The character sequence being scanned.
    pub closed spec fn chars(&self) -> Seq<char> {
        self.src@
    }

    /// The two copies of the source (text and characters) agree.
    pub closed spec fn wf(&self) -> bool {
        self.text@ == self.src@
    }

    /// Records the source text of one formula.
    pub fn new(source: &str) -> (l: Lexer)
        ensures
            l.wf(),
            l.chars() == source@,
    {
        let text = source.to_owned();
        let n = source.unicode_len();
        let mut src: Vec<char> = Vec::new();
        let mut i: usize = 0;
        while i < n
            invariant
                i <= n,
                n == source@.len(),
                src@ == source@.subrange(0, i as int),
            decreases n - i,
        {
            let c = source.get_char(i);
            src.push(c);
            i = i + 1;
            assert(src@ =~= source@.subrange(0, i as int));
        }
        assert(src@ =~= source@);
        Lexer { text, src }
    }

    fn scan_digits(&self, i: usize) -> (e: usize)
        requires
            self.wf(),
            i <= self.src.len(),
        ensures
            e == digits_end(self.chars(), i as int),
            i <= e <= self.src.len(),
        decreases self.src.len() - i,
    {
        let n = self.src.len();
        let mut j = i;
        while j < n && is_digit_exec(self.src[j])
            invariant
                i <= j <= n,
                n == self.src.len(),
                forall|k: int| i <= k < j ==> is_digit_char(self.chars()[k]),
            decreases n - j,
        {
            j = j + 1;
        }
        proof {
            lemma_digits_end_is(self.chars(), i as int, j as int);
        }
        j
    }

    fn scan_ident(&self, i: usize) -> (e: usize)
        requires
            self.wf(),
            i <= self.src.len(),
        ensures
            e == ident_end(self.chars(), i as int),
            i <= e <= self.src.len(),
    {
        let n = self.src.len();
        let mut j = i;
        while j < n && is_ident_char_exec(self.src[j])
            invariant
                i <= j <= n,
                n == self.src.len(),
                forall|k: int| i <= k < j ==> is_ident_char(self.chars()[k]),
            decreases n - j,
        {
            j = j + 1;
        }
        proof {
            lemma_ident_end_is(self.chars(), i as int, j as int);
        }
        j
    }

    fn scan_number(&self, i: usize) -> (e: usize)
        requires
            self.wf(),
            is_num_start(self.chars(), i as int),
        ensures
            e == num_end(self.chars(), i as int),
            i < e <= self.src.len(),
            is_num_token(self.chars().subrange(i as int, e as int)),
    {
        let n = self.src.len();
        let d1 = self.scan_digits(i);
        let d2 = if d1 < n && self.src[d1] == '.' {
            self.scan_digits(d1 + 1)
        } else {
            d1
        };
        let e = if d2 < n && (self.src[d2] == 'e' || self.src[d2] == 'E') {
            let g = if d2 + 1 < n && (self.src[d2 + 1] == '+' || self.src[d2 + 1] == '-') {
                d2 + 2
            } else {
                d2 + 1
            };
            if g < n && is_digit_exec(self.src[g]) {
                self.scan_digits(g)
            } else {
                d2
            }
        } else {
            d2
        };
        proof {
            lemma_num_token_extract(self.chars(), i as int);
        }
        e
    }

    /// Takes the identifier text `[from, to)` out of the source.
    fn take_text(&self, from: usize, to: usize) -> (r: String)
        requires
            self.wf(),
            from <= to <= self.src.len(),
        ensures
            r@ == self.chars().subrange(from as int, to as int),
    {
        self.text.as_str().substring_char(from, to).to_owned()
    }

    /// Scans the whole source into its token stream, each token with its
    /// start offset, exactly as `spec_lex` describes; the first ill-formed
    /// piece of text is reported as the error `spec_lex` gives it.
    pub fn tokenize(&self) -> (r: Result<Vec<(Token, usize)>, ParseError>)
        requires
            self.wf(),
        ensures
            (match r {
                Ok(v) => spec_lex(self.chars()) == Ok::<_, ParseError>(tokens_view(v@)),
                Err(e) => spec_lex(self.chars()) == Err::<Seq<(TokenV, int)>, _>(e),
            }),
    {
        let n = self.src.len();
        let mut toks: Vec<(Token, usize)> = Vec::new();
        let mut i: usize = 0;
        while i < n
            invariant
                self.wf(),
                i <= n,
                n == self.src.len(),
                spec_lex(self.chars()) == lex_prepend(
                    tokens_view(toks@),
                    spec_lex_from(self.chars(), i as int),
                ),
            decreases n - i,
        {
            let sv = Ghost(self.chars());
            let prev = Ghost(toks@);
            let c = self.src[i];
            if is_ws_exec(c) {
                i = i + 1;
            } else {
                let pos = i;
                let tok: Token;
                let next: usize;
                if c == '+' {
                    tok = Token::Op(Arithm::Plus);
                    next = i + 1;
                } else if c == '-' {
                    tok = Token::Op(Arithm::Minus);
                    next = i + 1;
                } else if c == '*' {
                    if i + 1 < n && self.src[i + 1] == '*' {
                        tok = Token::Op(Arithm::Pow);
                        next = i + 2;
                    } else {
                        tok = Token::Op(Arithm::Times);
                        next = i + 1;
                    }
                } else if c == '/' {
                    tok = Token::Op(Arithm::Div);
                    next = i + 1;
                } else if c == '%' {
                    tok = Token::Op(Arithm::Rem);
                    next = i + 1;
                } else if c == '!' {
                    tok = Token::Op(Arithm::Fact);
                    next = i + 1;
                } else if c == '(' {
                    tok = Token::LParen;
                    next = i + 1;
                } else if c == ')' {
                    tok = Token::RParen;
                    next = i + 1;
                } else if c == ',' {
                    tok = Token::Comma;
                    next = i + 1;
                } else if c == '&' {
                    if i + 1 < n && is_ident_start_exec(self.src[i + 1]) {
                        let e = self.scan_ident(i + 1);
                        proof {
                            lemma_ident_end_bounds(self.chars(), i + 1 as int);
                        }
                        tok = Token::Ref(self.take_text(i + 1, e));
                        next = e;
                    } else {
                        return Err(ParseError::UnterminatedRef(i));
                    }
                } else if is_ident_start_exec(c) {
                    let e = self.scan_ident(i);
                    proof {
                        lemma_ident_end_bounds(self.chars(), i as int);
                    }
                    tok = Token::Ident(self.take_text(i, e));
                    next = e;
                } else if is_digit_exec(c) || (c == '.' && i + 1 < n && is_digit_exec(
                    self.src[i + 1],
                )) {
                    let e = self.scan_number(i);
                    let text = self.take_text(i, e);
                    let bits = parse_number_bits(text.as_str());
                    tok = Token::Number(bits);
                    next = e;
                } else {
                    return Err(ParseError::UnexpectedToken(i));
                }
                proof {
                    let tv = token_view(tok);
                    assert(token_at(sv@, pos as int) == Ok::<_, ParseError>((
                        tv,
                        next as int,
                    )));
                    assert(spec_lex_from(sv@, pos as int) == lex_prepend(
                        seq![(tv, pos as int)],
                        spec_lex_from(sv@, next as int),
                    ));
                    lemma_lex_step(sv@, tokens_view(prev@), tv, pos as int, next as int);
                }
                toks.push((tok, pos));
                proof {
                    assert(tokens_view(toks@) =~= tokens_view(prev@) + seq![
                        (token_view(toks@[toks@.len() - 1].0), pos as int),
                    ]);
                }
                i = next;
            }
        }
        proof {
            assert(spec_lex_from(self.chars(), i as int) == Ok::<Seq<(TokenV, int)>, ParseError>(
                Seq::empty(),
            ));
            assert(tokens_view(toks@) + Seq::<(TokenV, int)>::empty() =~= tokens_view(toks@));
        }
        Ok(toks)
    }
}

} // verus!
