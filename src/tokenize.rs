//! A single-pass tokenizer for JSON text: structural markers, the three keywords, and
//! literals (quoted strings and numbers) kept as raw bytes. It does not check how tokens
//! nest; any token that cannot be formed rejects the whole input.
use vstd::prelude::*;

verus! {

/// Byte values that the scanner tells apart.
pub const SPACE: u8 = 0x20;
pub const NEWLINE: u8 = 0x0a;
pub const CARRIAGE_RETURN: u8 = 0x0d;
pub const TAB: u8 = 0x09;
pub const COMMA: u8 = 0x2c;
pub const COLON: u8 = 0x3a;
pub const QUOTE: u8 = 0x22;
pub const BACKSLASH: u8 = 0x5c;
pub const OPEN_BRACE: u8 = 0x7b;
pub const CLOSE_BRACE: u8 = 0x7d;
pub const OPEN_BRACKET: u8 = 0x5b;
pub const CLOSE_BRACKET: u8 = 0x5d;
pub const DIGIT_ZERO: u8 = 0x30;
pub const DIGIT_NINE: u8 = 0x39;
pub const MINUS: u8 = 0x2d;
pub const PLUS: u8 = 0x2b;
pub const DOT: u8 = 0x2e;
pub const LOWER_A: u8 = 0x61;
pub const LOWER_E: u8 = 0x65;
pub const UPPER_E: u8 = 0x45;
pub const LOWER_F: u8 = 0x66;
pub const LOWER_L: u8 = 0x6c;
pub const LOWER_N: u8 = 0x6e;
pub const LOWER_R: u8 = 0x72;
pub const LOWER_S: u8 = 0x73;
pub const LOWER_T: u8 = 0x74;
pub const LOWER_U: u8 = 0x75;

/// The kind of a token.
#[derive(Clone, Copy, Debug, PartialEq, Eq, Structural)]
pub enum TokenType {
    Null,
    True,
    False,
    Literal,
    ObjectStart,
    ObjectEnd,
    ArrayStart,
    ArrayEnd,
    /// Returned once the input is used up; never collected by `Tokenizer::all`.
    EOF,
}

impl TokenType {
    /// The tag that identifies a kind in a token record read by the host.
    pub open spec fn spec_tag(self) -> u32 {
        match self {
            TokenType::Null => 0,
            TokenType::True => 1,
            TokenType::False => 2,
            TokenType::Literal => 3,
            TokenType::ObjectStart => 4,
            TokenType::ObjectEnd => 5,
            TokenType::ArrayStart => 6,
            TokenType::ArrayEnd => 7,
            TokenType::EOF => 8,
        }
    }

    /// The kind's tag, as `spec_tag` gives it.
    pub fn tag(&self) -> (r: u32)
        ensures
            r == self.spec_tag(),
    {
        match self {
            TokenType::Null => 0,
            TokenType::True => 1,
            TokenType::False => 2,
            TokenType::Literal => 3,
            TokenType::ObjectStart => 4,
            TokenType::ObjectEnd => 5,
            TokenType::ArrayStart => 6,
            TokenType::ArrayEnd => 7,
            TokenType::EOF => 8,
        }
    }
}

/// Why a tokenization was rejected. Every one of them rejects the whole input.
#[derive(Clone, Copy, Debug, PartialEq, Eq, Structural)]
pub enum TokenizeError {
    /// The first remaining byte starts no token.
    UnexpectedByte,
    /// A byte `n`, `t` or `f` is not followed by the rest of `null`, `true` or `false`.
    MalformedKeyword,
    /// A quoted string runs to the end of the input without an unescaped closing quote.
    UnterminatedString,
}

/// Bytes that separate tokens and carry no meaning of their own.
pub open spec fn is_skip_byte(b: u8) -> bool {
    b == SPACE || b == NEWLINE || b == CARRIAGE_RETURN || b == TAB || b == COMMA || b == COLON
}

/// Bytes that may make up a numeric literal.
pub open spec fn is_number_byte(b: u8) -> bool {
    (DIGIT_ZERO <= b && b <= DIGIT_NINE) || b == MINUS || b == PLUS || b == DOT || b == LOWER_E
        || b == UPPER_E
}

/// The position of the first byte at or after `i` that is not a skip byte.
pub open spec fn skip_end(s: Seq<u8>, i: int) -> int
    decreases s.len() - i,
{
    if 0 <= i < s.len() && is_skip_byte(s[i]) {
        skip_end(s, i + 1)
    } else {
        i
    }
}

/// Bytes that may start a numeric literal.
pub open spec fn is_number_start(b: u8) -> bool {
    (DIGIT_ZERO <= b && b <= DIGIT_NINE) || b == MINUS || b == PLUS
}

/// The position of the first byte at or after `i` that cannot belong to a numeric literal.
pub open spec fn number_end(s: Seq<u8>, i: int) -> int
    decreases s.len() - i,
{
    if 0 <= i < s.len() && is_number_byte(s[i]) {
        number_end(s, i + 1)
    } else {
        i
    }
}

/// Where a quoted string ends, scanning from `i` with the given escape flag: the position
/// just past the first quote met while the flag is clear. A backslash toggles the flag and
/// any other byte clears it. `None` when the input ends first.
pub open spec fn string_end(s: Seq<u8>, i: int, escaped: bool) -> Option<int>
    decreases s.len() - i,
{
    if 0 <= i < s.len() {
        if s[i] == QUOTE && !escaped {
            Some(i + 1)
        } else {
            string_end(s, i + 1, if s[i] == BACKSLASH { !escaped } else { false })
        }
    } else {
        None
    }
}

/// `null` stands at position `i`.
pub open spec fn null_at(s: Seq<u8>, i: int) -> bool {
    0 <= i && i + 4 <= s.len() && s[i] == LOWER_N && s[i + 1] == LOWER_U && s[i + 2] == LOWER_L
        && s[i + 3] == LOWER_L
}

/// `true` stands at position `i`.
pub open spec fn true_at(s: Seq<u8>, i: int) -> bool {
    0 <= i && i + 4 <= s.len() && s[i] == LOWER_T && s[i + 1] == LOWER_R && s[i + 2] == LOWER_U
        && s[i + 3] == LOWER_E
}

/// `false` stands at position `i`.
pub open spec fn false_at(s: Seq<u8>, i: int) -> bool {
    0 <= i && i + 5 <= s.len() && s[i] == LOWER_F && s[i + 1] == LOWER_A && s[i + 2] == LOWER_L
        && s[i + 3] == LOWER_S && s[i + 4] == LOWER_E
}

/// A token as a value: its kind and its literal bytes.
pub type TokenView = (TokenType, Seq<u8>);

/// A token without a literal.
pub open spec fn bare(kind: TokenType) -> TokenView {
    (kind, Seq::empty())
}

/// Only a `Literal` token carries literal bytes.
pub open spec fn token_view_wf(t: TokenView) -> bool {
    t.0 != TokenType::Literal ==> t.1.len() == 0
}

/// The token that starts at position `i` (a byte that is no skip byte), with the position
/// just past it. Keywords are matched on their bytes alone: what follows them is scanned
/// as the next token.
pub open spec fn scan_at(s: Seq<u8>, i: int) -> Result<(TokenView, int), TokenizeError>
    recommends
        0 <= i < s.len(),
{
    let b = s[i];
    if b == OPEN_BRACE {
        Ok((bare(TokenType::ObjectStart), i + 1))
    } else if b == CLOSE_BRACE {
        Ok((bare(TokenType::ObjectEnd), i + 1))
    } else if b == OPEN_BRACKET {
        Ok((bare(TokenType::ArrayStart), i + 1))
    } else if b == CLOSE_BRACKET {
        Ok((bare(TokenType::ArrayEnd), i + 1))
    } else if b == LOWER_N {
        if null_at(s, i) {
            Ok((bare(TokenType::Null), i + 4))
        } else {
            Err(TokenizeError::MalformedKeyword)
        }
    } else if b == LOWER_T {
        if true_at(s, i) {
            Ok((bare(TokenType::True), i + 4))
        } else {
            Err(TokenizeError::MalformedKeyword)
        }
    } else if b == LOWER_F {
        if false_at(s, i) {
            Ok((bare(TokenType::False), i + 5))
        } else {
            Err(TokenizeError::MalformedKeyword)
        }
    } else if b == QUOTE {
        match string_end(s, i, true) {
            Some(k) => Ok(((TokenType::Literal, s.subrange(i, k)), k)),
            None => Err(TokenizeError::UnterminatedString),
        }
    } else if is_number_start(b) {
        Ok(((TokenType::Literal, s.subrange(i, number_end(s, i))), number_end(s, i)))
    } else {
        Err(TokenizeError::UnexpectedByte)
    }
}

/// One step of the scanner from position `i`: skip the separators, then `None` at the end
/// of the input, or the next token and the position just past it.
pub open spec fn next_step(s: Seq<u8>, i: int) -> Result<Option<(TokenView, int)>, TokenizeError> {
    let j = skip_end(s, i);
    if 0 <= j < s.len() {
        match scan_at(s, j) {
            Ok(p) => Ok(Some(p)),
            Err(e) => Err(e),
        }
    } else {
        Ok(None)
    }
}

/// Every token from position `i` to the end of the input, or the error that rejects it.
pub open spec fn tokens_from(s: Seq<u8>, i: int) -> Result<Seq<TokenView>, TokenizeError>
    decreases s.len() - i,
    via tokens_from_decreases
{
    match next_step(s, i) {
        Err(e) => Err(e),
        Ok(None) => Ok(Seq::empty()),
        Ok(Some((t, k))) => match tokens_from(s, k) {
            Ok(rest) => Ok(seq![t] + rest),
            Err(e) => Err(e),
        },
    }
}

#[via_fn]
proof fn tokens_from_decreases(s: Seq<u8>, i: int) {
    lemma_next_step_advances(s, i);
}

proof fn lemma_skip_end_bounds(s: Seq<u8>, i: int)
    ensures
        i <= skip_end(s, i),
        i <= s.len() ==> skip_end(s, i) <= s.len(),
        skip_end(s, skip_end(s, i)) == skip_end(s, i),
    decreases s.len() - i,
{
    if 0 <= i < s.len() && is_skip_byte(s[i]) {
        lemma_skip_end_bounds(s, i + 1);
    }
}

proof fn lemma_number_end_bounds(s: Seq<u8>, i: int)
    ensures
        i <= number_end(s, i),
        i <= s.len() ==> number_end(s, i) <= s.len(),
    decreases s.len() - i,
{
    if 0 <= i < s.len() && is_number_byte(s[i]) {
        lemma_number_end_bounds(s, i + 1);
    }
}

proof fn lemma_string_end_bounds(s: Seq<u8>, i: int, escaped: bool)
    ensures
        string_end(s, i, escaped) matches Some(k) ==> {
            &&& i < k <= s.len()
            &&& s[k - 1] == QUOTE
            &&& escaped ==> i + 2 <= k
        },
    decreases s.len() - i,
{
    if 0 <= i < s.len() {
        let e = if s[i] == BACKSLASH { !escaped } else { false };
        lemma_string_end_bounds(s, i + 1, e);
    }
}

proof fn lemma_scan_at_advances(s: Seq<u8>, i: int)
    requires
        0 <= i < s.len(),
    ensures
        scan_at(s, i) matches Ok((t, k)) ==> {
            &&& i < k <= s.len()
            &&& t.0 != TokenType::EOF
            &&& token_view_wf(t)
        },
{
    lemma_number_end_bounds(s, i + 1);
    lemma_string_end_bounds(s, i, true);
}

proof fn lemma_next_step_advances(s: Seq<u8>, i: int)
    ensures
        next_step(s, i) matches Ok(Some((t, k))) ==> {
            &&& i < k <= s.len()
            &&& t.0 != TokenType::EOF
            &&& token_view_wf(t)
        },
{
    lemma_skip_end_bounds(s, i);
    let j = skip_end(s, i);
    if 0 <= j < s.len() {
        lemma_scan_at_advances(s, j);
    }
}

fn skip_byte(b: u8) -> (r: bool)
    ensures
        r == is_skip_byte(b),
{
    b == SPACE || b == NEWLINE || b == CARRIAGE_RETURN || b == TAB || b == COMMA || b == COLON
}

fn number_byte(b: u8) -> (r: bool)
    ensures
        r == is_number_byte(b),
{
    (DIGIT_ZERO <= b && b <= DIGIT_NINE) || b == MINUS || b == PLUS || b == DOT || b == LOWER_E
        || b == UPPER_E
}

/// The bytes of `src` from `start` up to `end`.
fn copy_range(src: &Vec<u8>, start: usize, end: usize) -> (r: Vec<u8>)
    requires
        start <= end <= src@.len(),
    ensures
        r@ == src@.subrange(start as int, end as int),
{
    let mut r: Vec<u8> = Vec::with_capacity(end - start);
    let mut i: usize = start;
    while i < end
        invariant
            start <= i <= end <= src@.len(),
            r@ == src@.subrange(start as int, i as int),
        decreases end - i,
    {
        r.push(src[i]);
        i = i + 1;
        assert(r@ =~= src@.subrange(start as int, i as int));
    }
    r
}

/// The numeric literal that starts at `start`: the longest run of number bytes there.
fn number_literal(src: &Vec<u8>, start: usize) -> (r: Vec<u8>)
    requires
        start <= src@.len(),
    ensures
        r@ == src@.subrange(start as int, number_end(src@, start as int)),
{
    let mut i: usize = start;
    while i < src.len() && number_byte(src[i])
        invariant
            start <= i <= src@.len(),
            number_end(src@, start as int) == number_end(src@, i as int),
        decreases src@.len() - i,
    {
        i = i + 1;
    }
    copy_range(src, start, i)
}

/// The quoted string that starts with the quote at `start`, both quotes included, or `None`
/// when the input ends before it is closed.
fn string_literal(src: &Vec<u8>, start: usize) -> (r: Option<Vec<u8>>)
    requires
        start <= src@.len(),
    ensures
        match string_end(src@, start as int, true) {
            Some(k) => r matches Some(v) && v@ == src@.subrange(start as int, k),
            None => r is None,
        },
{
    let mut escaped = true;
    let mut i: usize = start;
    while i < src.len()
        invariant
            start <= i <= src@.len(),
            string_end(src@, start as int, true) == string_end(src@, i as int, escaped),
        decreases src@.len() - i,
    {
        let b = src[i];
        if b == QUOTE {
            if !escaped {
                return Some(copy_range(src, start, i + 1));
            }
            escaped = false;
        } else if b == BACKSLASH {
            escaped = !escaped;
        } else {
            escaped = false;
        }
        i = i + 1;
    }
    None
}

fn is_null(b: &Vec<u8>, i: usize) -> (r: bool)
    requires
        i <= b@.len(),
    ensures
        r == null_at(b@, i as int),
{
    b.len() - i >= 4 && b[i] == LOWER_N && b[i + 1] == LOWER_U && b[i + 2] == LOWER_L && b[i + 3]
        == LOWER_L
}

fn is_true(b: &Vec<u8>, i: usize) -> (r: bool)
    requires
        i <= b@.len(),
    ensures
        r == true_at(b@, i as int),
{
    b.len() - i >= 4 && b[i] == LOWER_T && b[i + 1] == LOWER_R && b[i + 2] == LOWER_U && b[i + 3]
        == LOWER_E
}

fn is_false(b: &Vec<u8>, i: usize) -> (r: bool)
    requires
        i <= b@.len(),
    ensures
        r == false_at(b@, i as int),
{
    b.len() - i >= 5 && b[i] == LOWER_F && b[i + 1] == LOWER_A && b[i + 2] == LOWER_L && b[i + 3]
        == LOWER_S && b[i + 4] == LOWER_E
}

/// One token: its kind and, for a `Literal`, the raw bytes it was scanned from (a string
/// keeps its quotes).
#[derive(Clone, Debug)]
pub struct Token {
    pub token_type: TokenType,
    pub literal: Vec<u8>,
}

impl View for Token {
    type V = TokenView;

    open spec fn view(&self) -> TokenView {
        (self.token_type, self.literal@)
    }
}

/// The bytes of a literal without one surrounding pair of quotes, where it has one.
pub open spec fn unquoted(lit: Seq<u8>) -> Seq<u8> {
    if lit.len() >= 2 && lit[0] == QUOTE && lit[lit.len() - 1] == QUOTE {
        lit.subrange(1, lit.len() - 1)
    } else {
        lit
    }
}

impl Token {
    /// Only a `Literal` token carries literal bytes.
    pub open spec fn wf(&self) -> bool {
        token_view_wf(self@)
    }

    pub fn new(token_type: TokenType) -> (r: Token)
        ensures
            r@ == bare(token_type),
    {
        Token { token_type, literal: Vec::new() }
    }

    pub fn new_with_literal(token_type: TokenType, literal: Vec<u8>) -> (r: Token)
        requires
            token_view_wf((token_type, literal@)),
        ensures
            r@ == (token_type, literal@),
            r.wf(),
    {
        Token { token_type, literal }
    }

    /// The literal without its surrounding quotes: one leading and one trailing quote are
    /// dropped when both are there and the literal has at least two bytes.
    pub fn unquote(&self) -> (r: &[u8])
        ensures
            r@ == unquoted(self.literal@),
    {
        let n = self.literal.len();
        if n < 2 || self.literal[0] != QUOTE || self.literal[n - 1] != QUOTE {
            self.literal.as_slice()
        } else {
            &self.literal.as_slice()[1..n - 1]
        }
    }

    fn duplicate(&self) -> (r: Token)
        ensures
            r@ == self@,
    {
        Token { token_type: self.token_type, literal: copy_range(&self.literal, 0, self.literal.len()) }
    }
}

/// What a tokenizer is, as a value: its input, the position up to which the input has been
/// consumed, and the token that `peek` has scanned and `next` has not yet handed out.
pub ghost struct TokenizerState {
    pub input: Seq<u8>,
    pub pos: int,
    pub peeked: Option<TokenView>,
}

impl TokenizerState {
    pub open spec fn wf(self) -> bool {
        &&& 0 <= self.pos <= self.input.len()
        &&& self.peeked matches Some(t) ==> t.0 != TokenType::EOF && token_view_wf(t)
    }

    /// The token that the next call of `peek` or `next` returns: the cached one, or the
    /// next one in the input, `EOF` at its end.
    pub open spec fn front(self) -> Result<TokenView, TokenizeError> {
        match self.peeked {
            Some(t) => Ok(t),
            None => match next_step(self.input, self.pos) {
                Err(e) => Err(e),
                Ok(None) => Ok(bare(TokenType::EOF)),
                Ok(Some((t, _))) => Ok(t),
            },
        }
    }

    /// The state after `peek`: a token scanned from the input is cached and consumed.
    pub open spec fn after_peek(self) -> TokenizerState {
        match self.peeked {
            Some(_) => self,
            None => match next_step(self.input, self.pos) {
                Ok(Some((t, k))) => TokenizerState { pos: k, peeked: Some(t), ..self },
                _ => TokenizerState { pos: skip_end(self.input, self.pos), ..self },
            },
        }
    }

    /// The state after `next`: the cached token is dropped, or the next token is consumed.
    pub open spec fn after_next(self) -> TokenizerState {
        match self.peeked {
            Some(_) => TokenizerState { peeked: None, ..self },
            None => match next_step(self.input, self.pos) {
                Ok(Some((_, k))) => TokenizerState { pos: k, ..self },
                _ => TokenizerState { pos: skip_end(self.input, self.pos), ..self },
            },
        }
    }

    /// Every token still to come, the cached one first, or the error that rejects the
    /// rest of the input.
    pub open spec fn pending(self) -> Result<Seq<TokenView>, TokenizeError> {
        match tokens_from(self.input, self.pos) {
            Ok(rest) => match self.peeked {
                Some(t) => Ok(seq![t] + rest),
                None => Ok(rest),
            },
            Err(e) => Err(e),
        }
    }

    /// Bounds how many more calls of `next` can return a token.
    pub open spec fn remaining(self) -> nat {
        (2 * (self.input.len() - self.pos) + if self.peeked is Some { 1int } else { 0int }) as nat
    }
}

/// std's I/O error, carried through from a failed read.
#[verifier::external_type_specification]
#[verifier::external_body]
pub struct ExIoError(std::io::Error);

/// Relies on `std::io::Read::read_to_end`: on success the bytes read are appended to `buf`
/// and their number is returned.
#[verifier::external_body]
fn read_to_end<R: std::io::Read>(reader: &mut R, buf: &mut Vec<u8>) -> (r: std::io::Result<usize>)
    ensures
        r matches Ok(n) ==> final(buf)@.len() == old(buf)@.len() + n
            && final(buf)@.subrange(0, old(buf)@.len() as int) == old(buf)@,
{
    reader.read_to_end(buf)
}

/// A scanner over a byte buffer that hands out one token at a time, with one token of
/// lookahead. The buffer is kept whole and a cursor marks how much has been consumed.
pub struct Tokenizer {
    buf: Vec<u8>,
    pos: usize,
    peeked: Option<Token>,
}

impl View for Tokenizer {
    type V = TokenizerState;

    closed spec fn view(&self) -> TokenizerState {
        TokenizerState {
            input: self.buf@,
            pos: self.pos as int,
            peeked: match self.peeked {
                Some(t) => Some(t@),
                None => None,
            },
        }
    }
}

impl Tokenizer {
    /// The cursor stays within the buffer, and a cached token is a well-formed token
    /// other than `EOF`.
    pub open spec fn wf(&self) -> bool {
        self@.wf()
    }

    /// A tokenizer at the start of `buf`.
    pub fn new_from_bytes(buf: Vec<u8>) -> (r: Tokenizer)
        ensures
            r.wf(),
            r@ == (TokenizerState { input: buf@, pos: 0, peeked: None }),
    {
        Tokenizer { buf, pos: 0, peeked: None }
    }

    /// A tokenizer at the start of the UTF-8 bytes of `s`.
    pub fn new_from_string(s: String) -> (r: Tokenizer)
        ensures
            r.wf(),
            r@ == (TokenizerState { input: vstd::utf8::encode_utf8(s@), pos: 0, peeked: None }),
    {
        Self::new_from_bytes(vstd::slice::slice_to_vec(s.as_str().as_bytes()))
    }

    /// A tokenizer over everything that `reader` yields up to its end.
    pub fn new_from_reader<R: std::io::Read>(mut reader: R) -> (r: std::io::Result<Tokenizer>)
        ensures
            r matches Ok(t) ==> t.wf() && t@.pos == 0 && t@.peeked is None,
    {
        let mut buf: Vec<u8> = Vec::new();
        read_to_end(&mut reader, &mut buf)?;
        Ok(Self::new_from_bytes(buf))
    }

    /// Every token up to the end of the input, in order; `EOF` is not among them. Any
    /// malformed token rejects the whole input.
    pub fn all(&mut self) -> (r: Result<Vec<Token>, TokenizeError>)
        requires
            old(self).wf(),
        ensures
            final(self).wf(),
            final(self)@.input == old(self)@.input,
            match old(self)@.pending() {
                Ok(ts) => r matches Ok(v) && v@.map_values(|t: Token| t@) == ts
                    && final(self)@.pending() == Ok::<Seq<TokenView>, TokenizeError>(Seq::empty()),
                Err(e) => r == Err::<Vec<Token>, TokenizeError>(e),
            },
            r matches Ok(v) ==> forall|i: int|
                0 <= i < v.len() ==> v[i].token_type != TokenType::EOF && (#[trigger] v[i]).wf(),
    {
        let mut tokens: Vec<Token> = Vec::new();
        loop
            invariant
                self.wf(),
                self@.input == old(self)@.input,
                old(self)@.pending() == match self@.pending() {
                    Ok(rest) => Ok(tokens@.map_values(|t: Token| t@) + rest),
                    Err(e) => Err(e),
                },
                forall|i: int|
                    0 <= i < tokens.len() ==> tokens[i].token_type != TokenType::EOF
                        && (#[trigger] tokens[i]).wf(),
            decreases self@.remaining(),
        {
            proof {
                lemma_pending_unfolds(self@);
            }
            let token = self.next()?;
            if token.token_type == TokenType::EOF {
                assert(tokens@.map_values(|t: Token| t@) + Seq::<TokenView>::empty()
                    =~= tokens@.map_values(|t: Token| t@));
                return Ok(tokens);
            }
            let ghost before = tokens@.map_values(|t: Token| t@);
            tokens.push(token);
            assert(tokens@.map_values(|t: Token| t@) =~= before.push(token@));
            assert(forall|rest: Seq<TokenView>|
                before + (seq![token@] + rest) =~= before.push(token@) + rest);
        }
    }

    /// The next token, left in place for the following `peek` or `next`.
    pub fn peek(&mut self) -> (r: Result<Token, TokenizeError>)
        requires
            old(self).wf(),
        ensures
            final(self).wf(),
            final(self)@ == old(self)@.after_peek(),
            match old(self)@.front() {
                Ok(t) => r matches Ok(tok) && tok@ == t,
                Err(e) => r == Err::<Token, TokenizeError>(e),
            },
            r matches Ok(tok) ==> tok.wf(),
    {
        if let Some(t) = &self.peeked {
            return Ok(t.duplicate());
        }
        self.skip_whitespace();
        proof {
            lemma_skip_end_bounds(self.buf@, old(self).pos as int);
        }
        if self.pos >= self.buf.len() {
            return Ok(Token::new(TokenType::EOF));
        }
        proof {
            lemma_scan_at_advances(self.buf@, self.pos as int);
        }
        let (end, token) = self.parse_token()?;
        self.pos = end;
        self.peeked = Some(token.duplicate());
        Ok(token)
    }

    /// The next token, consumed: the one that `peek` cached, or the next one scanned from
    /// the input. At the end of the input, `EOF`.
    pub fn next(&mut self) -> (r: Result<Token, TokenizeError>)
        requires
            old(self).wf(),
        ensures
            final(self).wf(),
            final(self)@ == old(self)@.after_next(),
            match old(self)@.front() {
                Ok(t) => r matches Ok(tok) && tok@ == t,
                Err(e) => r == Err::<Token, TokenizeError>(e),
            },
            r matches Ok(tok) ==> tok.wf(),
    {
        if let Some(t) = self.peeked.take() {
            return Ok(t);
        }
        self.skip_whitespace();
        proof {
            lemma_skip_end_bounds(self.buf@, old(self).pos as int);
        }
        if self.pos >= self.buf.len() {
            return Ok(Token::new(TokenType::EOF));
        }
        proof {
            lemma_scan_at_advances(self.buf@, self.pos as int);
        }
        let (end, token) = self.parse_token()?;
        self.pos = end;
        Ok(token)
    }

    fn skip_whitespace(&mut self)
        requires
            old(self).pos <= old(self).buf@.len(),
        ensures
            final(self).buf@ == old(self).buf@,
            final(self).peeked == old(self).peeked,
            final(self).pos as int == skip_end(old(self).buf@, old(self).pos as int),
    {
        while self.pos < self.buf.len() && skip_byte(self.buf[self.pos])
            invariant
                self.pos <= self.buf@.len(),
                self.buf@ == old(self).buf@,
                self.peeked == old(self).peeked,
                skip_end(self.buf@, self.pos as int) == skip_end(old(self).buf@, old(self).pos as int),
            decreases self.buf@.len() - self.pos,
        {
            self.pos = self.pos + 1;
        }
    }

    /// The token at the cursor, which must stand on a byte other than a skip byte, and the
    /// position just past it.
    fn parse_token(&self) -> (r: Result<(usize, Token), TokenizeError>)
        requires
            self.pos < self.buf@.len() <= usize::MAX,
        ensures
            match scan_at(self.buf@, self.pos as int) {
                Ok((t, k)) => r matches Ok((end, tok)) && end == k && tok@ == t,
                Err(e) => r == Err::<(usize, Token), TokenizeError>(e),
            },
    {
        let i = self.pos;
        let b = self.buf[i];
        if b == OPEN_BRACE {
            Ok((i + 1, Token::new(TokenType::ObjectStart)))
        } else if b == CLOSE_BRACE {
            Ok((i + 1, Token::new(TokenType::ObjectEnd)))
        } else if b == OPEN_BRACKET {
            Ok((i + 1, Token::new(TokenType::ArrayStart)))
        } else if b == CLOSE_BRACKET {
            Ok((i + 1, Token::new(TokenType::ArrayEnd)))
        } else if b == LOWER_N {
            if is_null(&self.buf, i) {
                Ok((i + 4, Token::new(TokenType::Null)))
            } else {
                Err(TokenizeError::MalformedKeyword)
            }
        } else if b == LOWER_T {
            if is_true(&self.buf, i) {
                Ok((i + 4, Token::new(TokenType::True)))
            } else {
                Err(TokenizeError::MalformedKeyword)
            }
        } else if b == LOWER_F {
            if is_false(&self.buf, i) {
                Ok((i + 5, Token::new(TokenType::False)))
            } else {
                Err(TokenizeError::MalformedKeyword)
            }
        } else if b == QUOTE {
            proof {
                lemma_string_end_bounds(self.buf@, i as int, true);
            }
            match string_literal(&self.buf, i) {
                Some(literal) => {
                    let end = i + literal.len();
                    Ok((end, Token::new_with_literal(TokenType::Literal, literal)))
                },
                None => Err(TokenizeError::UnterminatedString),
            }
        } else if (DIGIT_ZERO <= b && b <= DIGIT_NINE) || b == MINUS || b == PLUS {
            proof {
                lemma_number_end_bounds(self.buf@, i as int);
            }
            let literal = number_literal(&self.buf, i);
            let end = i + literal.len();
            Ok((end, Token::new_with_literal(TokenType::Literal, literal)))
        } else {
            Err(TokenizeError::UnexpectedByte)
        }
    }
}

/// What `all` collects is what repeated calls of `next` hand out up to `EOF`: a token other
/// than `EOF` from `next` is followed by the tokens pending after it, `EOF` means that none
/// is pending, and an error from `next` is the error of the whole sequence.
pub proof fn lemma_pending_unfolds(st: TokenizerState)
    requires
        st.wf(),
    ensures
        st.after_next().wf(),
        st.front() matches Ok(t) && t.0 != TokenType::EOF ==> st.remaining() > st.after_next().remaining(),
        match st.front() {
            Ok(t) => if t.0 == TokenType::EOF {
                st.pending() == Ok::<Seq<TokenView>, TokenizeError>(Seq::empty())
            } else {
                st.pending() == match st.after_next().pending() {
                    Ok(rest) => Ok(seq![t] + rest),
                    Err(e) => Err(e),
                }
            },
            Err(e) => st.pending() == Err::<Seq<TokenView>, TokenizeError>(e),
        },
{
    lemma_next_step_advances(st.input, st.pos);
    lemma_skip_end_bounds(st.input, st.pos);
    assert(tokens_from(st.input, st.pos) == match next_step(st.input, st.pos) {
        Err(e) => Err(e),
        Ok(None) => Ok(Seq::empty()),
        Ok(Some((t, k))) => match tokens_from(st.input, k) {
            Ok(rest) => Ok(seq![t] + rest),
            Err(e) => Err(e),
        },
    });
}

/// `peek` is idempotent: a second `peek` returns the same token, or the same error, as the
/// first and leaves the tokenizer as the first left it.
pub proof fn lemma_peek_idempotent(st: TokenizerState)
    requires
        st.wf(),
    ensures
        st.after_peek().wf(),
        st.after_peek().front() == st.front(),
        st.after_peek().after_peek() == st.after_peek(),
{
    lemma_skip_end_bounds(st.input, st.pos);
    lemma_next_step_advances(st.input, st.pos);
}

/// `next` after `peek` returns the token that `peek` returned, and leaves the tokenizer as a
/// `next` alone would have: the cached token is handed out once, and scanning resumes after it.
pub proof fn lemma_next_after_peek(st: TokenizerState)
    requires
        st.wf(),
    ensures
        st.after_peek().front() == st.front(),
        st.after_peek().after_next() == st.after_next(),
        st.after_peek().after_next().peeked is None,
{
    lemma_peek_idempotent(st);
}

/// A scanned string literal keeps both of its quotes, and `unquote` removes exactly those two
/// bytes: what is left is the input between the quotes.
pub proof fn lemma_unquote_scanned_string(s: Seq<u8>, i: int)
    requires
        0 <= i < s.len(),
        s[i] == QUOTE,
    ensures
        scan_at(s, i) matches Ok((t, k)) ==> {
            &&& t.0 == TokenType::Literal
            &&& t.1.len() >= 2
            &&& t.1 == seq![QUOTE] + unquoted(t.1) + seq![QUOTE]
            &&& unquoted(t.1) == s.subrange(i + 1, k - 1)
        },
{
    lemma_string_end_bounds(s, i, true);
    if let Ok((t, k)) = scan_at(s, i) {
        assert(t.1 =~= seq![QUOTE] + unquoted(t.1) + seq![QUOTE]);
        assert(unquoted(t.1) =~= s.subrange(i + 1, k - 1));
    }
}

} // verus!
