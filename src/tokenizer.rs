use vstd::prelude::*;

use crate::errors::{LoxError, LoxErrorKind, LoxResult, SyntaxProblem};
use vstd::slice::slice_to_vec;

verus! {

/// The lexical categories of the language.
#[derive(Clone, Copy, Debug, PartialEq, Eq, Structural)]
pub enum TokenKind {
    // Single-character tokens:
    LeftParen,
    RightParen,
    LeftBrace,
    RightBrace,
    Comma,
    Dot,
    Minus,
    Plus,
    Semicolon,
    Slash,
    Star,
    // One or two character tokens:
    Bang,
    BangEqual,
    Equal,
    EqualEqual,
    Greater,
    GreaterEqual,
    Less,
    LessEqual,
    // Literals; their bytes are in `Token::text`:
    Identifier,
    StringLiteral,
    Number,
    // Keywords:
    And,
    Class,
    Else,
    Fun,
    For,
    If,
    Nil,
    Or,
    Return,
    Super,
    This,
    True,
    Var,
    While,
}

/// One token, with the line and column of its first byte (both counted from 1).
/// `text` holds the name of an identifier, the contents of a string literal
/// (without quotes) or the digits of a number, and is empty for other kinds.
#[derive(Debug)]
pub struct Token {
    pub kind: TokenKind,
    pub text: Vec<u8>,
    pub line: u32,
    pub column: u32,
}

/// The mathematical value of a token.
pub struct TokenModel {
    pub kind: TokenKind,
    pub text: Seq<u8>,
    pub line: u32,
    pub column: u32,
}

impl View for Token {
    type V = TokenModel;

    open spec fn view(&self) -> TokenModel {
        TokenModel { kind: self.kind, text: self.text@, line: self.line, column: self.column }
    }
}

/// What the scanner yields at each step: a token, or the error that ends the sequence.
pub type Lexed = Result<TokenModel, LoxErrorKind>;

pub open spec fn lexed_view(r: LoxResult<Token>) -> Lexed {
    match r {
        Ok(t) => Ok(t@),
        Err(e) => Err(e.kind),
    }
}

/// A string literal whose closing quote has not arrived yet.
pub struct OpenString {
    pub text: Vec<u8>,
    pub line: u32,
    pub column: u32,
}

pub struct OpenStringModel {
    pub text: Seq<u8>,
    pub line: u32,
    pub column: u32,
}

impl View for OpenString {
    type V = OpenStringModel;

    open spec fn view(&self) -> OpenStringModel {
        OpenStringModel { text: self.text@, line: self.line, column: self.column }
    }
}

pub open spec fn open_view(o: Option<OpenString>) -> Option<OpenStringModel> {
    match o {
        Some(s) => Some(s@),
        None => None,
    }
}

/// A (line, column) position.
pub type Pos = (u32, u32);

/// Counters stop at the largest `u32` rather than wrap.
pub open spec fn count_up(n: u32) -> u32 {
    if n == u32::MAX {
        n
    } else {
        (n + 1) as u32
    }
}

/// The position after one byte: a newline starts the next line at column 1.
pub open spec fn bump(p: Pos, b: u8) -> Pos {
    if b == ('\n' as u8) {
        (count_up(p.0), 1)
    } else {
        (p.0, count_up(p.1))
    }
}

/// The position reached from `p0` after the first `i` bytes of `s`.
pub open spec fn pos_at(p0: Pos, s: Seq<u8>, i: int) -> Pos
    decreases i,
{
    if i <= 0 {
        p0
    } else {
        bump(pos_at(p0, s, i - 1), s[i - 1])
    }
}

pub open spec fn is_blank(b: u8) -> bool {
    b == (' ' as u8) || b == ('\t' as u8) || b == ('\n' as u8)
}

pub open spec fn is_alpha(b: u8) -> bool {
    (('a' as u8) <= b && b <= ('z' as u8)) || (('A' as u8) <= b && b <= ('Z' as u8)) || b == ('_' as u8)
}

pub open spec fn is_digit(b: u8) -> bool {
    ('0' as u8) <= b && b <= ('9' as u8)
}

/// The classes of bytes that the scanner reads in runs.
#[derive(Clone, Copy)]
pub enum ByteClass {
    Blank,
    Word,
    Digit,
    InString,
    InLine,
}

pub open spec fn in_class(c: ByteClass, b: u8) -> bool {
    match c {
        ByteClass::Blank => is_blank(b),
        ByteClass::Word => is_alpha(b) || is_digit(b),
        ByteClass::Digit => is_digit(b),
        ByteClass::InString => b != ('"' as u8),
        ByteClass::InLine => b != ('\n' as u8),
    }
}

/// The end of the run of bytes of class `c` that starts at `i`.
pub open spec fn run_end(s: Seq<u8>, i: int, c: ByteClass) -> int
    decreases s.len() - i,
{
    if 0 <= i < s.len() && in_class(c, s[i]) {
        run_end(s, i + 1, c)
    } else {
        i
    }
}

/// The end of a number that starts at `j`: digits, then optionally a dot
/// followed by at least one digit and more digits.
pub open spec fn number_end(s: Seq<u8>, j: int) -> int {
    let d = run_end(s, j, ByteClass::Digit);
    if d + 1 < s.len() && s[d] == ('.' as u8) && is_digit(s[d + 1]) {
        run_end(s, d + 1, ByteClass::Digit)
    } else {
        d
    }
}

/// The token of a byte that is a token by itself.
pub open spec fn single_kind(b: u8) -> Option<TokenKind> {
    if b == ('(' as u8) {
        Some(TokenKind::LeftParen)
    } else if b == (')' as u8) {
        Some(TokenKind::RightParen)
    } else if b == ('{' as u8) {
        Some(TokenKind::LeftBrace)
    } else if b == ('}' as u8) {
        Some(TokenKind::RightBrace)
    } else if b == (',' as u8) {
        Some(TokenKind::Comma)
    } else if b == ('.' as u8) {
        Some(TokenKind::Dot)
    } else if b == ('-' as u8) {
        Some(TokenKind::Minus)
    } else if b == ('+' as u8) {
        Some(TokenKind::Plus)
    } else if b == (';' as u8) {
        Some(TokenKind::Semicolon)
    } else if b == ('/' as u8) {
        Some(TokenKind::Slash)
    } else if b == ('*' as u8) {
        Some(TokenKind::Star)
    } else {
        None
    }
}

/// For a byte that may be followed by `=`: the token alone, and the token with `=`.
pub open spec fn pair_kinds(b: u8) -> Option<(TokenKind, TokenKind)> {
    if b == ('!' as u8) {
        Some((TokenKind::Bang, TokenKind::BangEqual))
    } else if b == ('=' as u8) {
        Some((TokenKind::Equal, TokenKind::EqualEqual))
    } else if b == ('<' as u8) {
        Some((TokenKind::Less, TokenKind::LessEqual))
    } else if b == ('>' as u8) {
        Some((TokenKind::Greater, TokenKind::GreaterEqual))
    } else {
        None
    }
}

/// The keyword spelled by `t`, if any.
pub open spec fn keyword_kind(t: Seq<u8>) -> Option<TokenKind> {
    if t == seq![('a' as u8), ('n' as u8), ('d' as u8)] {
        Some(TokenKind::And)
    } else if t == seq![('c' as u8), ('l' as u8), ('a' as u8), ('s' as u8), ('s' as u8)] {
        Some(TokenKind::Class)
    } else if t == seq![('e' as u8), ('l' as u8), ('s' as u8), ('e' as u8)] {
        Some(TokenKind::Else)
    } else if t == seq![('f' as u8), ('u' as u8), ('n' as u8)] {
        Some(TokenKind::Fun)
    } else if t == seq![('f' as u8), ('o' as u8), ('r' as u8)] {
        Some(TokenKind::For)
    } else if t == seq![('i' as u8), ('f' as u8)] {
        Some(TokenKind::If)
    } else if t == seq![('n' as u8), ('i' as u8), ('l' as u8)] {
        Some(TokenKind::Nil)
    } else if t == seq![('o' as u8), ('r' as u8)] {
        Some(TokenKind::Or)
    } else if t == seq![('r' as u8), ('e' as u8), ('t' as u8), ('u' as u8), ('r' as u8), ('n' as u8)] {
        Some(TokenKind::Return)
    } else if t == seq![('s' as u8), ('u' as u8), ('p' as u8), ('e' as u8), ('r' as u8)] {
        Some(TokenKind::Super)
    } else if t == seq![('t' as u8), ('h' as u8), ('i' as u8), ('s' as u8)] {
        Some(TokenKind::This)
    } else if t == seq![('t' as u8), ('r' as u8), ('u' as u8), ('e' as u8)] {
        Some(TokenKind::True)
    } else if t == seq![('v' as u8), ('a' as u8), ('r' as u8)] {
        Some(TokenKind::Var)
    } else if t == seq![('w' as u8), ('h' as u8), ('i' as u8), ('l' as u8), ('e' as u8)] {
        Some(TokenKind::While)
    } else {
        None
    }
}

pub open spec fn word_kind(t: Seq<u8>) -> TokenKind {
    match keyword_kind(t) {
        Some(k) => k,
        None => TokenKind::Identifier,
    }
}

pub open spec fn token_at(kind: TokenKind, text: Seq<u8>, p: Pos) -> TokenModel {
    TokenModel { kind, text, line: p.0, column: p.1 }
}

pub proof fn lemma_run_end_bounds(s: Seq<u8>, i: int, c: ByteClass)
    requires
        0 <= i <= s.len(),
    ensures
        i <= run_end(s, i, c) <= s.len(),
        run_end(s, i, c) < s.len() ==> !in_class(c, s[run_end(s, i, c)]),
    decreases s.len() - i,
{
    if i < s.len() && in_class(c, s[i]) {
        lemma_run_end_bounds(s, i + 1, c);
    }
}

pub proof fn lemma_number_end_bounds(s: Seq<u8>, j: int)
    requires
        0 <= j <= s.len(),
    ensures
        j <= number_end(s, j) <= s.len(),
        j < s.len() && is_digit(s[j]) ==> j < number_end(s, j),
{
    lemma_run_end_bounds(s, j, ByteClass::Digit);
    let d = run_end(s, j, ByteClass::Digit);
    if d + 1 < s.len() && s[d] == ('.' as u8) && is_digit(s[d + 1]) {
        lemma_run_end_bounds(s, d + 1, ByteClass::Digit);
    }
}

#[via_fn]
proof fn scan_from_decreases(p0: Pos, s: Seq<u8>, i: int, open: Option<OpenStringModel>) {
    if 0 <= i <= s.len() {
        lemma_run_end_bounds(s, i, ByteClass::InString);
        lemma_run_end_bounds(s, i, ByteClass::Blank);
        let j = run_end(s, i, ByteClass::Blank);
        lemma_run_end_bounds(s, j, ByteClass::Word);
        lemma_number_end_bounds(s, j);
    }
}

/// The tokens scanned from byte `i` of `s` on, where `p0` is the position of
/// byte 0 and `open` a string literal still open at byte `i`; and the string
/// literal left open at the end, if any. The sequence stops at the first error.
pub open spec fn scan_from(p0: Pos, s: Seq<u8>, i: int, open: Option<OpenStringModel>) -> (Seq<
    Lexed,
>, Option<OpenStringModel>)
    decreases s.len() - i,
    via scan_from_decreases
{
    if i < 0 || i > s.len() {
        (seq![], open)
    } else {
        match open {
            Some(o) => {
                let q = run_end(s, i, ByteClass::InString);
                if q < s.len() {
                    let tok = TokenModel {
                        kind: TokenKind::StringLiteral,
                        text: o.text + s.subrange(i, q),
                        line: o.line,
                        column: o.column,
                    };
                    let rest = scan_from(p0, s, q + 1, None);
                    (seq![Ok(tok)] + rest.0, rest.1)
                } else {
                    (
                        seq![Err(LoxErrorKind::UnexpectedEof)],
                        Some(OpenStringModel { text: o.text + s.subrange(i, q), ..o }),
                    )
                }
            },
            None => {
                let j = run_end(s, i, ByteClass::Blank);
                if j >= s.len() {
                    (seq![], None)
                } else {
                    let b = s[j];
                    let p = pos_at(p0, s, j);
                    if b == ('"' as u8) {
                        scan_from(
                            p0,
                            s,
                            j + 1,
                            Some(OpenStringModel { text: seq![], line: p.0, column: p.1 }),
                        )
                    } else if single_kind(b) is Some {
                        let rest = scan_from(p0, s, j + 1, None);
                        (seq![Ok(token_at(single_kind(b)->0, seq![], p))] + rest.0, rest.1)
                    } else if pair_kinds(b) is Some {
                        let kinds = pair_kinds(b)->0;
                        if j + 1 < s.len() && s[j + 1] == ('=' as u8) {
                            let rest = scan_from(p0, s, j + 2, None);
                            (seq![Ok(token_at(kinds.1, seq![], p))] + rest.0, rest.1)
                        } else {
                            let rest = scan_from(p0, s, j + 1, None);
                            (seq![Ok(token_at(kinds.0, seq![], p))] + rest.0, rest.1)
                        }
                    } else if is_alpha(b) {
                        let e = run_end(s, j, ByteClass::Word);
                        let text = s.subrange(j, e);
                        let rest = scan_from(p0, s, e, None);
                        (seq![Ok(token_at(word_kind(text), text, p))] + rest.0, rest.1)
                    } else if is_digit(b) {
                        let e = number_end(s, j);
                        let rest = scan_from(p0, s, e, None);
                        (
                            seq![Ok(token_at(TokenKind::Number, s.subrange(j, e), p))] + rest.0,
                            rest.1,
                        )
                    } else {
                        (seq![Err(LoxErrorKind::SyntaxError(SyntaxProblem::UnexpectedCharacter))], None)
                    }
                }
            },
        }
    }
}

/// The tokens of `s` for a scanner at position `p0` with `open` pending.
pub open spec fn scan(p0: Pos, open: Option<OpenStringModel>, s: Seq<u8>) -> (Seq<Lexed>, Option<
    OpenStringModel,
>) {
    scan_from(p0, s, 0, open)
}


/// Where one step of scanning from byte `i` stops: just past the closing quote
/// of a string literal (or at the end of `s` when it stays open), just past
/// the other lexemes, just past a byte that starts no token, and at the end of
/// `s` when only blank bytes are left.
pub open spec fn step_end(s: Seq<u8>, i: int, open: Option<OpenStringModel>) -> int {
    let string_end = |from: int|
        {
            let q = run_end(s, from, ByteClass::InString);
            if q < s.len() {
                q + 1
            } else {
                q
            }
        };
    match open {
        Some(_) => string_end(i),
        None => {
            let j = run_end(s, i, ByteClass::Blank);
            if j >= s.len() {
                j
            } else {
                let b = s[j];
                if b == '"' as u8 {
                    string_end(j + 1)
                } else if single_kind(b) is Some {
                    j + 1
                } else if pair_kinds(b) is Some {
                    if j + 1 < s.len() && s[j + 1] == '=' as u8 {
                        j + 2
                    } else {
                        j + 1
                    }
                } else if is_alpha(b) {
                    run_end(s, j, ByteClass::Word)
                } else if is_digit(b) {
                    number_end(s, j)
                } else {
                    j + 1
                }
            }
        },
    }
}

/// The tokens of `s` for a fresh scanner.
pub open spec fn tokens_of(s: Seq<u8>) -> Seq<Lexed> {
    scan((1, 1), None, s).0
}



fn count_up_exec(n: u32) -> (r: u32)
    ensures
        r == count_up(n),
{
    if n < u32::MAX {
        n + 1
    } else {
        n
    }
}

pub(crate) fn byte_in_class(c: ByteClass, b: u8) -> (r: bool)
    ensures
        r == in_class(c, b),
{
    let digit = '0' as u8 <= b && b <= '9' as u8;
    match c {
        ByteClass::Blank => b == ' ' as u8 || b == '\t' as u8 || b == '\n' as u8,
        ByteClass::Word => ('a' as u8 <= b && b <= 'z' as u8) || ('A' as u8 <= b && b <= 'Z' as u8)
            || b == '_' as u8 || digit,
        ByteClass::Digit => digit,
        ByteClass::InString => b != '"' as u8,
        ByteClass::InLine => b != '\n' as u8,
    }
}

fn single_kind_of(b: u8) -> (r: Option<TokenKind>)
    ensures
        r == single_kind(b),
{
    if b == '(' as u8 {
        Some(TokenKind::LeftParen)
    } else if b == ')' as u8 {
        Some(TokenKind::RightParen)
    } else if b == '{' as u8 {
        Some(TokenKind::LeftBrace)
    } else if b == '}' as u8 {
        Some(TokenKind::RightBrace)
    } else if b == ',' as u8 {
        Some(TokenKind::Comma)
    } else if b == '.' as u8 {
        Some(TokenKind::Dot)
    } else if b == '-' as u8 {
        Some(TokenKind::Minus)
    } else if b == '+' as u8 {
        Some(TokenKind::Plus)
    } else if b == ';' as u8 {
        Some(TokenKind::Semicolon)
    } else if b == '/' as u8 {
        Some(TokenKind::Slash)
    } else if b == '*' as u8 {
        Some(TokenKind::Star)
    } else {
        None
    }
}

fn pair_kinds_of(b: u8) -> (r: Option<(TokenKind, TokenKind)>)
    ensures
        r == pair_kinds(b),
{
    if b == '!' as u8 {
        Some((TokenKind::Bang, TokenKind::BangEqual))
    } else if b == '=' as u8 {
        Some((TokenKind::Equal, TokenKind::EqualEqual))
    } else if b == '<' as u8 {
        Some((TokenKind::Less, TokenKind::LessEqual))
    } else if b == '>' as u8 {
        Some((TokenKind::Greater, TokenKind::GreaterEqual))
    } else {
        None
    }
}

fn spells(t: &[u8], w: &[u8]) -> (r: bool)
    ensures
        r == (t@ == w@),
{
    if t.len() != w.len() {
        return false;
    }
    let mut i: usize = 0;
    while i < t.len()
        invariant
            t@.len() == w@.len(),
            0 <= i <= t@.len(),
            forall|k: int| 0 <= k < i ==> t@[k] == w@[k],
        decreases t@.len() - i,
    {
        if t[i] != w[i] {
            return false;
        }
        i = i + 1;
    }
    assert(t@ =~= w@);
    true
}

fn word_kind_of(t: &[u8]) -> (r: TokenKind)
    ensures
        r == word_kind(t@),
{
    if spells(t, &['a' as u8, 'n' as u8, 'd' as u8]) {
        TokenKind::And
    } else if spells(t, &['c' as u8, 'l' as u8, 'a' as u8, 's' as u8, 's' as u8]) {
        TokenKind::Class
    } else if spells(t, &['e' as u8, 'l' as u8, 's' as u8, 'e' as u8]) {
        TokenKind::Else
    } else if spells(t, &['f' as u8, 'u' as u8, 'n' as u8]) {
        TokenKind::Fun
    } else if spells(t, &['f' as u8, 'o' as u8, 'r' as u8]) {
        TokenKind::For
    } else if spells(t, &['i' as u8, 'f' as u8]) {
        TokenKind::If
    } else if spells(t, &['n' as u8, 'i' as u8, 'l' as u8]) {
        TokenKind::Nil
    } else if spells(t, &['o' as u8, 'r' as u8]) {
        TokenKind::Or
    } else if spells(t, &['r' as u8, 'e' as u8, 't' as u8, 'u' as u8, 'r' as u8, 'n' as u8]) {
        TokenKind::Return
    } else if spells(t, &['s' as u8, 'u' as u8, 'p' as u8, 'e' as u8, 'r' as u8]) {
        TokenKind::Super
    } else if spells(t, &['t' as u8, 'h' as u8, 'i' as u8, 's' as u8]) {
        TokenKind::This
    } else if spells(t, &['t' as u8, 'r' as u8, 'u' as u8, 'e' as u8]) {
        TokenKind::True
    } else if spells(t, &['v' as u8, 'a' as u8, 'r' as u8]) {
        TokenKind::Var
    } else if spells(t, &['w' as u8, 'h' as u8, 'i' as u8, 'l' as u8, 'e' as u8]) {
        TokenKind::While
    } else {
        TokenKind::Identifier
    }
}


/// The scanner's state between chunks of input: the position of the next byte
/// and a string literal still waiting for its closing quote.
pub struct Tokenizer {
    pub line: u32,
    pub column: u32,
    pub open: Option<OpenString>,
}

/// A cursor over one chunk of input. Once it has yielded an error it is sealed
/// and yields nothing more.
pub struct TokenIterator {
    pub input: Vec<u8>,
    pub pos: usize,
    pub line: u32,
    pub column: u32,
    pub start_line: u32,
    pub start_column: u32,
    pub open: Option<OpenString>,
    pub sealed: bool,
}

impl Tokenizer {
    pub open spec fn position(&self) -> Pos {
        (self.line, self.column)
    }

    pub open spec fn pending(&self) -> Option<OpenStringModel> {
        open_view(self.open)
    }

    /// A scanner at line 1, column 1, with nothing pending.
    pub fn new() -> (r: Tokenizer)
        ensures
            r.position() == (1u32, 1u32),
            r.pending() is None,
    {
        Tokenizer { line: 1, column: 1, open: None }
    }

    /// A cursor over `input` that starts where this scanner stands. A pending
    /// string literal moves into the cursor.
    pub fn iter_tokens(&mut self, input: &[u8]) -> (it: TokenIterator)
        ensures
            it.wf(),
            it.input@ == input@,
            it.pos == 0,
            !it.sealed,
            it.start() == old(self).position(),
            open_view(it.open) == old(self).pending(),
            it.remaining() == scan(old(self).position(), old(self).pending(), input@).0,
            it.left_open() == scan(old(self).position(), old(self).pending(), input@).1,
            final(self).position() == old(self).position(),
            final(self).pending() is None,
    {
        let open = self.open.take();
        TokenIterator {
            input: slice_to_vec(input),
            pos: 0,
            line: self.line,
            column: self.column,
            start_line: self.line,
            start_column: self.column,
            open,
            sealed: false,
        }
    }
}

impl TokenIterator {
    pub open spec fn start(&self) -> Pos {
        (self.start_line, self.start_column)
    }

    pub open spec fn wf(&self) -> bool {
        &&& self.pos <= self.input@.len()
        &&& (self.line, self.column) == pos_at(self.start(), self.input@, self.pos as int)
    }

    /// What scanning from the cursor on gives, ignoring the seal.
    pub open spec fn state(&self) -> (Seq<Lexed>, Option<OpenStringModel>) {
        scan_from(self.start(), self.input@, self.pos as int, open_view(self.open))
    }

    /// The items this cursor has still to yield.
    pub open spec fn remaining(&self) -> Seq<Lexed> {
        if self.sealed {
            seq![]
        } else {
            self.state().0
        }
    }

    /// The string literal left open once the chunk is used up.
    pub open spec fn left_open(&self) -> Option<OpenStringModel> {
        if self.sealed {
            open_view(self.open)
        } else {
            self.state().1
        }
    }

    pub open spec fn same_chunk(&self, other: &TokenIterator) -> bool {
        &&& self.input@ == other.input@
        &&& self.start() == other.start()
        &&& self.sealed == other.sealed
    }

    fn consume_byte(&mut self)
        requires
            old(self).wf(),
            old(self).pos < old(self).input@.len(),
        ensures
            final(self).wf(),
            final(self).same_chunk(old(self)),
            final(self).pos == old(self).pos + 1,
            final(self).open == old(self).open,
    {
        let b = self.input[self.pos];
        assert(self.pos < self.input.len());
        if b == '\n' as u8 {
            self.line = count_up_exec(self.line);
            self.column = 1;
        } else {
            self.column = count_up_exec(self.column);
        }
        self.pos = self.pos + 1;
    }

    /// The byte at the cursor, consumed.
    fn read_byte(&mut self) -> (r: Option<u8>)
        requires
            old(self).wf(),
        ensures
            final(self).wf(),
            final(self).same_chunk(old(self)),
            final(self).open == old(self).open,
            old(self).pos < old(self).input@.len() ==> r == Some(old(self).input@[old(self).pos as int])
                && final(self).pos == old(self).pos + 1,
            old(self).pos >= old(self).input@.len() ==> r is None && final(self).pos == old(self).pos,
    {
        if self.pos < self.input.len() {
            let b = self.input[self.pos];
            self.consume_byte();
            Some(b)
        } else {
            None
        }
    }

    /// The byte `ahead` places past the cursor, not consumed.
    fn peek_byte(&self, ahead: usize) -> (r: Option<u8>)
        requires
            self.wf(),
            ahead <= 1,
        ensures
            self.pos + ahead < self.input@.len() ==> r == Some(self.input@[self.pos + ahead]),
            self.pos + ahead >= self.input@.len() ==> r is None,
    {
        if ahead < self.input.len() - self.pos {
            Some(self.input[self.pos + ahead])
        } else {
            None
        }
    }

    /// Consumes the run of bytes of class `c` at the cursor, appending them to `text`.
    fn read_run(&mut self, c: ByteClass, text: &mut Vec<u8>)
        requires
            old(self).wf(),
        ensures
            final(self).wf(),
            final(self).same_chunk(old(self)),
            final(self).open == old(self).open,
            final(self).pos == run_end(old(self).input@, old(self).pos as int, c),
            final(text)@ == old(text)@ + old(self).input@.subrange(
                old(self).pos as int,
                final(self).pos as int,
            ),
    {
        let ghost s = self.input@;
        let ghost p0 = self.pos as int;
        while self.pos < self.input.len() && byte_in_class(c, self.input[self.pos])
            invariant
                self.wf(),
                self.same_chunk(old(self)),
                self.open == old(self).open,
                s == self.input@,
                0 <= p0 <= self.pos,
                run_end(s, self.pos as int, c) == run_end(s, p0, c),
                text@ == old(text)@ + s.subrange(p0, self.pos as int),
            decreases self.input@.len() - self.pos,
        {
            text.push(self.input[self.pos]);
            self.consume_byte();
            assert(s.subrange(p0, self.pos as int) =~= s.subrange(p0, self.pos - 1).push(
                s[self.pos - 1],
            ));
            assert(text@ =~= old(text)@ + s.subrange(p0, self.pos as int));
        }
    }

    /// Skips spaces, tabs and newlines.
    fn skip_whitespace(&mut self)
        requires
            old(self).wf(),
        ensures
            final(self).wf(),
            final(self).same_chunk(old(self)),
            final(self).open == old(self).open,
            final(self).pos == run_end(old(self).input@, old(self).pos as int, ByteClass::Blank),
    {
        let ghost s = self.input@;
        let ghost p0 = self.pos as int;
        while self.pos < self.input.len() && byte_in_class(ByteClass::Blank, self.input[self.pos])
            invariant
                self.wf(),
                self.same_chunk(old(self)),
                self.open == old(self).open,
                s == self.input@,
                run_end(s, self.pos as int, ByteClass::Blank) == run_end(s, p0, ByteClass::Blank),
            decreases self.input@.len() - self.pos,
        {
            self.consume_byte();
        }
    }

    /// Consumes the byte at the cursor if it is `byte`.
    fn match_byte(&mut self, byte: u8) -> (r: bool)
        requires
            old(self).wf(),
        ensures
            final(self).wf(),
            final(self).same_chunk(old(self)),
            final(self).open == old(self).open,
            r == (old(self).pos < old(self).input@.len() && old(self).input@[old(self).pos as int]
                == byte),
            final(self).pos == if r {
                old(self).pos + 1
            } else {
                old(self).pos as int
            },
    {
        match self.peek_byte(0) {
            None => false,
            Some(x) => {
                if x == byte {
                    self.consume_byte();
                    true
                } else {
                    false
                }
            },
        }
    }
}


/// How one step of the cursor relates to what scanning promised before it.
pub open spec fn step_matches(
    before: (Seq<Lexed>, Option<OpenStringModel>),
    r: LoxResult<Option<Token>>,
    after: TokenIterator,
) -> bool {
    match r {
        Ok(None) => before.0 == Seq::<Lexed>::empty() && before.1 is None && after.open is None
            && after.state().0 == Seq::<Lexed>::empty() && after.state().1 is None,
        Ok(Some(t)) => before.0 == seq![Ok(t@)] + after.state().0 && before.1 == after.state().1,
        Err(e) => before.0 == seq![Err::<TokenModel, LoxErrorKind>(e.kind)] && open_view(after.open) == before.1,
    }
}

impl TokenIterator {
    /// Continues the open string literal up to its closing quote.
    fn read_string(&mut self) -> (r: LoxResult<Option<Token>>)
        requires
            old(self).wf(),
            old(self).open is Some,
        ensures
            final(self).wf(),
            final(self).same_chunk(old(self)),
            step_matches(old(self).state(), r, *final(self)),
            final(self).pos == step_end(
                old(self).input@,
                old(self).pos as int,
                open_view(old(self).open),
            ),
            r is Err ==> r->Err_0.kind == LoxErrorKind::UnexpectedEof,
    {
        let ghost s = self.input@;
        let ghost i = self.pos as int;
        let ghost o = open_view(self.open)->0;
        let mut open = self.open.take().unwrap();
        self.read_run(ByteClass::InString, &mut open.text);
        proof {
            lemma_run_end_bounds(s, i, ByteClass::InString);
        }
        if self.match_byte('"' as u8) {
            let tok = Token {
                kind: TokenKind::StringLiteral,
                text: open.text,
                line: open.line,
                column: open.column,
            };
            Ok(Some(tok))
        } else {
            self.open = Some(open);
            Err(LoxError::new(LoxErrorKind::UnexpectedEof))
        }
    }

    /// Scans the next token.
    fn read_token(&mut self) -> (r: LoxResult<Option<Token>>)
        requires
            old(self).wf(),
        ensures
            final(self).wf(),
            final(self).same_chunk(old(self)),
            step_matches(old(self).state(), r, *final(self)),
            final(self).pos == step_end(
                old(self).input@,
                old(self).pos as int,
                open_view(old(self).open),
            ),
    {
        if self.open.is_some() {
            return self.read_string();
        }
        let ghost s = self.input@;
        let ghost i = self.pos as int;
        self.skip_whitespace();
        let ghost j = self.pos as int;
        proof {
            lemma_run_end_bounds(s, i, ByteClass::Blank);
        }
        let line = self.line;
        let column = self.column;
        let byte = match self.read_byte() {
            None => return Ok(None),
            Some(byte) => byte,
        };
        if byte == '"' as u8 {
            self.open = Some(OpenString { text: Vec::new(), line, column });
            return self.read_string();
        }
        let kind;
        let text;
        if let Some(k) = single_kind_of(byte) {
            kind = k;
            text = Vec::new();
        } else if let Some(pair) = pair_kinds_of(byte) {
            kind = if self.match_byte('=' as u8) {
                pair.1
            } else {
                pair.0
            };
            text = Vec::new();
        } else if '0' as u8 <= byte && byte <= '9' as u8 {
            let mut digits = vec![byte];
            self.read_run(ByteClass::Digit, &mut digits);
            let ghost d = self.pos as int;
            proof {
                lemma_run_end_bounds(s, j + 1, ByteClass::Digit);
                assert(digits@ =~= s.subrange(j, d));
            }
            let dot = self.peek_byte(0);
            let after_dot = self.peek_byte(1);
            if let (Some(b0), Some(b1)) = (dot, after_dot) {
                if b0 == '.' as u8 && '0' as u8 <= b1 && b1 <= '9' as u8 {
                    digits.push(b0);
                    self.consume_byte();
                    assert(digits@ =~= s.subrange(j, d + 1));
                    self.read_run(ByteClass::Digit, &mut digits);
                    proof {
                        lemma_run_end_bounds(s, d + 1, ByteClass::Digit);
                    }
                }
            }
            assert(digits@ =~= s.subrange(j, self.pos as int));
            kind = TokenKind::Number;
            text = digits;
        } else if byte_in_class(ByteClass::Word, byte) {
            let mut word = vec![byte];
            self.read_run(ByteClass::Word, &mut word);
            proof {
                lemma_run_end_bounds(s, j + 1, ByteClass::Word);
            }
            assert(word@ =~= s.subrange(j, self.pos as int));
            kind = word_kind_of(word.as_slice());
            text = word;
        } else {
            return Err(LoxError::new(LoxErrorKind::SyntaxError(SyntaxProblem::UnexpectedCharacter)));
        }
        Ok(Some(Token { kind, text, line, column }))
    }

    /// The next token, or the error that ends the sequence; nothing once the
    /// chunk is used up or an error has been yielded.
    pub fn next(&mut self) -> (r: Option<LoxResult<Token>>)
        requires
            old(self).wf(),
        ensures
            final(self).wf(),
            final(self).input@ == old(self).input@,
            final(self).start() == old(self).start(),
            old(self).sealed ==> r is None && *final(self) == *old(self),
            !old(self).sealed ==> final(self).pos == step_end(
                old(self).input@,
                old(self).pos as int,
                open_view(old(self).open),
            ),
            r is None ==> old(self).remaining() == Seq::<Lexed>::empty() && final(self).remaining()
                == Seq::<Lexed>::empty() && open_view(final(self).open) == final(self).left_open(),
            r is Some ==> old(self).remaining() == seq![lexed_view(r->0)] + final(self).remaining(),
            r matches Some(Err(_)) ==> final(self).sealed,
            final(self).left_open() == old(self).left_open(),
    {
        if self.sealed {
            return None;
        }
        match self.read_token() {
            Ok(None) => None,
            Ok(Some(token)) => Some(Ok(token)),
            Err(err) => {
                self.sealed = true;
                assert(seq![lexed_view(Err(err))] + self.remaining() =~= seq![lexed_view(Err(err))]);
                Some(Err(err))
            },
        }
    }
}

impl Tokenizer {
    /// Takes back the state that a cursor leaves after its whole chunk: the
    /// position after the last byte of the chunk, and the string literal left
    /// open, if any. Tokens the cursor has not yet handed out are dropped.
    pub fn finish(&mut self, it: TokenIterator)
        requires
            it.wf(),
        ensures
            final(self).position() == pos_at(it.start(), it.input@, it.input@.len() as int),
            final(self).pending() == it.left_open(),
    {
        let ghost target = it.left_open();
        let ghost s = it.input@;
        let ghost p0 = it.start();
        let mut it = it;
        loop
            invariant
                it.wf(),
                it.input@ == s,
                it.start() == p0,
                it.left_open() == target,
            ensures
                it.wf(),
                it.input@ == s,
                it.start() == p0,
                open_view(it.open) == target,
            decreases it.remaining().len(),
        {
            match it.next() {
                None => break,
                Some(_) => {},
            }
        }
        while it.pos < it.input.len()
            invariant
                it.wf(),
                it.input@ == s,
                it.start() == p0,
                open_view(it.open) == target,
            decreases it.input@.len() - it.pos,
        {
            it.consume_byte();
        }
        self.line = it.line;
        self.column = it.column;
        self.open = it.open;
    }

    /// Scans a whole chunk: the tokens, up to and including the first error.
    /// Afterwards the scanner stands after the chunk, with the string literal
    /// that the chunk left open, if any.
    pub fn tokenize(&mut self, input: &[u8]) -> (r: Vec<LoxResult<Token>>)
        ensures
            r@.map_values(|x: LoxResult<Token>| lexed_view(x)) == scan(
                old(self).position(),
                old(self).pending(),
                input@,
            ).0,
            final(self).position() == pos_at(old(self).position(), input@, input@.len() as int),
            final(self).pending() == scan(old(self).position(), old(self).pending(), input@).1,
    {
        let ghost target = scan(self.position(), self.pending(), input@);
        let ghost p0 = self.position();
        let mut it = self.iter_tokens(input);
        let mut out: Vec<LoxResult<Token>> = Vec::new();
        loop
            invariant
                it.wf(),
                it.input@ == input@,
                it.start() == p0,
                out@.map_values(|x: LoxResult<Token>| lexed_view(x)) + it.remaining() == target.0,
                it.left_open() == target.1,
            ensures
                it.wf(),
                it.input@ == input@,
                it.start() == p0,
                out@.map_values(|x: LoxResult<Token>| lexed_view(x)) == target.0,
                it.left_open() == target.1,
            decreases it.remaining().len(),
        {
            let ghost before = out@.map_values(|x: LoxResult<Token>| lexed_view(x));
            match it.next() {
                None => {
                    assert(before + it.remaining() =~= before);
                    break;
                },
                Some(item) => {
                    out.push(item);
                    assert(out@.map_values(|x: LoxResult<Token>| lexed_view(x)) =~= before.push(
                        lexed_view(item),
                    ));
                },
            }
        }
        self.finish(it);
        out
    }
}


/// The token that a punctuation byte makes when nothing joins it.
pub open spec fn alone_kind(b: u8) -> TokenKind {
    if single_kind(b) is Some {
        single_kind(b)->0
    } else {
        match pair_kinds(b) {
            Some((one, _)) => one,
            None => TokenKind::Bang,
        }
    }
}

/// The token that a byte makes when `=` joins it.
pub open spec fn joined_kind(b: u8) -> TokenKind {
    match pair_kinds(b) {
        Some((_, two)) => two,
        None => TokenKind::BangEqual,
    }
}

pub open spec fn is_punctuation(b: u8) -> bool {
    single_kind(b) is Some || pair_kinds(b) is Some
}

/// Scanning no bytes yields no tokens and no error.
pub proof fn lemma_empty_input(p0: Pos)
    ensures
        scan(p0, None, seq![]) == (Seq::<Lexed>::empty(), None::<OpenStringModel>),
{
    assert(scan(p0, None, seq![]).0 =~= Seq::<Lexed>::empty());
}

/// A punctuation byte alone scans to exactly its token, at line 1, column 1.
pub proof fn lemma_single_punctuation(b: u8)
    requires
        is_punctuation(b),
    ensures
        tokens_of(seq![b]) == seq![Ok::<TokenModel, LoxErrorKind>(token_at(alone_kind(b), seq![], (1, 1)))],
{
    let s = seq![b];
    assert(run_end(s, 0, ByteClass::Blank) == 0);
    assert(run_end(s, 1, ByteClass::Blank) == 1);
    assert(scan_from((1, 1), s, 1, None).0 =~= Seq::<Lexed>::empty());
    assert(tokens_of(s) =~= seq![Ok::<TokenModel, LoxErrorKind>(token_at(alone_kind(b), seq![], (1, 1)))]);
}

/// Maximal munch: a byte that may be followed by `=`, followed by `=`, scans
/// to the one combined token.
pub proof fn lemma_combined_operator(b: u8)
    requires
        pair_kinds(b) is Some,
    ensures
        tokens_of(seq![b, '=' as u8]) == seq![
            Ok::<TokenModel, LoxErrorKind>(token_at(joined_kind(b), seq![], (1, 1))),
        ],
{
    let s = seq![b, '=' as u8];
    assert(run_end(s, 0, ByteClass::Blank) == 0);
    assert(run_end(s, 2, ByteClass::Blank) == 2);
    assert(scan_from((1, 1), s, 2, None).0 =~= Seq::<Lexed>::empty());
    assert(tokens_of(s) =~= seq![
        Ok::<TokenModel, LoxErrorKind>(token_at(joined_kind(b), seq![], (1, 1))),
    ]);
}

proof fn lemma_blank_run(s: Seq<u8>, i: int, e: int)
    requires
        0 <= i <= e <= s.len(),
        forall|k: int| i <= k < e ==> is_blank(#[trigger] s[k]),
        e < s.len() ==> !is_blank(s[e]),
    ensures
        run_end(s, i, ByteClass::Blank) == e,
    decreases e - i,
{
    if i < e {
        lemma_blank_run(s, i + 1, e);
    }
}

/// Spaces, tabs and newlines between two punctuation bytes make no token:
/// the two bytes scan to their two tokens, the second at the position that
/// the blank bytes lead to.
pub proof fn lemma_blanks_between(a: u8, w: Seq<u8>, b: u8)
    requires
        is_punctuation(a),
        is_punctuation(b),
        w.len() > 0,
        forall|k: int| 0 <= k < w.len() ==> is_blank(#[trigger] w[k]),
    ensures
        tokens_of(seq![a] + w + seq![b]) == seq![
            Ok::<TokenModel, LoxErrorKind>(token_at(alone_kind(a), seq![], (1, 1))),
            Ok::<TokenModel, LoxErrorKind>(token_at(
                alone_kind(b),
                seq![],
                pos_at((1, 1), seq![a] + w + seq![b], w.len() + 1int),
            )),
        ],
{
    let s = seq![a] + w + seq![b];
    let n: int = w.len() + 1int;
    assert(s[0] == a);
    assert(s[n] == b);
    assert forall|k: int| 1 <= k < n implies is_blank(#[trigger] s[k]) by {
        assert(s[k] == w[k - 1]);
    }
    assert(run_end(s, 0, ByteClass::Blank) == 0);
    lemma_blank_run(s, 1, n);
    assert(s[1] == w[0]);
    assert(run_end(s, n + 1, ByteClass::Blank) == n + 1);
    assert(scan_from((1, 1), s, n + 1, None).0 =~= Seq::<Lexed>::empty());
    let second = Ok::<TokenModel, LoxErrorKind>(
        token_at(alone_kind(b), seq![], pos_at((1, 1), s, n)),
    );
    assert(scan_from((1, 1), s, 1, None).0 =~= seq![second]);
    assert(tokens_of(s) =~= seq![
        Ok::<TokenModel, LoxErrorKind>(token_at(alone_kind(a), seq![], (1, 1))),
        second,
    ]);
}

/// A byte that starts no token yields one syntax error and nothing after it,
/// whatever follows.
pub proof fn lemma_unexpected_byte(b: u8, rest: Seq<u8>)
    requires
        !is_blank(b),
        !is_punctuation(b),
        !is_alpha(b),
        !is_digit(b),
        b != '"' as u8,
    ensures
        tokens_of(seq![b] + rest) == seq![
            Err::<TokenModel, LoxErrorKind>(LoxErrorKind::SyntaxError(SyntaxProblem::UnexpectedCharacter)),
        ],
{
    let s = seq![b] + rest;
    assert(s[0] == b);
    assert(run_end(s, 0, ByteClass::Blank) == 0);
}


proof fn lemma_prepend_ok(x: Lexed, rest: Seq<Lexed>)
    requires
        x is Ok,
        forall|k: int| 0 <= k < rest.len() - 1 ==> #[trigger] rest[k] is Ok,
    ensures
        forall|k: int| 0 <= k < (seq![x] + rest).len() - 1 ==> #[trigger] (seq![x] + rest)[k] is Ok,
{
    assert forall|k: int| 0 <= k < (seq![x] + rest).len() - 1 implies #[trigger] (seq![x]
        + rest)[k] is Ok by {
        if k > 0 {
            assert((seq![x] + rest)[k] == rest[k - 1]);
        }
    }
}

/// The scanner is fail-stop: an error can only be the last item it yields.
pub proof fn lemma_scan_fail_stop(p0: Pos, s: Seq<u8>, i: int, open: Option<OpenStringModel>)
    ensures
        forall|k: int|
            0 <= k < scan_from(p0, s, i, open).0.len() - 1 ==> #[trigger] scan_from(
                p0,
                s,
                i,
                open,
            ).0[k] is Ok,
    decreases s.len() - i,
{
    if 0 <= i <= s.len() {
        match open {
            Some(o) => {
                let q = run_end(s, i, ByteClass::InString);
                lemma_run_end_bounds(s, i, ByteClass::InString);
                if q < s.len() {
                    let tok = TokenModel {
                        kind: TokenKind::StringLiteral,
                        text: o.text + s.subrange(i, q),
                        line: o.line,
                        column: o.column,
                    };
                    lemma_scan_fail_stop(p0, s, q + 1, None);
                    lemma_prepend_ok(Ok(tok), scan_from(p0, s, q + 1, None).0);
                }
            },
            None => {
                let j = run_end(s, i, ByteClass::Blank);
                lemma_run_end_bounds(s, i, ByteClass::Blank);
                if j < s.len() {
                    let b = s[j];
                    let p = pos_at(p0, s, j);
                    if b == '"' as u8 {
                        lemma_scan_fail_stop(
                            p0,
                            s,
                            j + 1,
                            Some(OpenStringModel { text: seq![], line: p.0, column: p.1 }),
                        );
                    } else if single_kind(b) is Some {
                        lemma_scan_fail_stop(p0, s, j + 1, None);
                        lemma_prepend_ok(
                            Ok(token_at(single_kind(b)->0, seq![], p)),
                            scan_from(p0, s, j + 1, None).0,
                        );
                    } else if pair_kinds(b) is Some {
                        if j + 1 < s.len() && s[j + 1] == '=' as u8 {
                            lemma_scan_fail_stop(p0, s, j + 2, None);
                            lemma_prepend_ok(
                                Ok(token_at(joined_kind(b), seq![], p)),
                                scan_from(p0, s, j + 2, None).0,
                            );
                        } else {
                            lemma_scan_fail_stop(p0, s, j + 1, None);
                            lemma_prepend_ok(
                                Ok(token_at(alone_kind(b), seq![], p)),
                                scan_from(p0, s, j + 1, None).0,
                            );
                        }
                    } else if is_alpha(b) {
                        let e = run_end(s, j, ByteClass::Word);
                        lemma_run_end_bounds(s, j, ByteClass::Word);
                        let text = s.subrange(j, e);
                        lemma_scan_fail_stop(p0, s, e, None);
                        lemma_prepend_ok(
                            Ok(token_at(word_kind(text), text, p)),
                            scan_from(p0, s, e, None).0,
                        );
                    } else if is_digit(b) {
                        let e = number_end(s, j);
                        lemma_number_end_bounds(s, j);
                        lemma_scan_fail_stop(p0, s, e, None);
                        lemma_prepend_ok(
                            Ok(token_at(TokenKind::Number, s.subrange(j, e), p)),
                            scan_from(p0, s, e, None).0,
                        );
                    }
                }
            },
        }
    }
}

} // verus!
