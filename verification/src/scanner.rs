//! The scanner: from source text to tokens.

use crate::text::{decimal, lemma_boundaries_at_ascii, lemma_text_bytes, push_decimal, substring};
use vstd::prelude::*;
use vstd::string::StringSliceAdditionalSpecFns;
use vstd::utf8::decode_utf8;

verus! {

/// A horizontal tab.
pub const TAB: u8 = 9;

/// A line feed, which ends a line.
pub const LINE_FEED: u8 = 10;

/// A carriage return.
pub const CARRIAGE_RETURN: u8 = 13;

/// A space.
pub const SPACE: u8 = 32;

/// `!`
pub const BANG: u8 = 33;

/// The double quote that opens and closes a string literal.
pub const QUOTE: u8 = 34;

/// `(`
pub const LEFT_PAREN: u8 = 40;

/// `)`
pub const RIGHT_PAREN: u8 = 41;

/// `*`
pub const STAR: u8 = 42;

/// `+`
pub const PLUS: u8 = 43;

/// `,`
pub const COMMA: u8 = 44;

/// `-`
pub const MINUS: u8 = 45;

/// `.`
pub const DOT: u8 = 46;

/// `/`
pub const SLASH: u8 = 47;

/// The digit `0`, the first of the digits.
pub const DIGIT_ZERO: u8 = 48;

/// The digit `9`, the last of the digits.
pub const DIGIT_NINE: u8 = 57;

/// `;`
pub const SEMICOLON: u8 = 59;

/// `<`
pub const LESS: u8 = 60;

/// `=`
pub const EQUALS: u8 = 61;

/// `>`
pub const GREATER: u8 = 62;

/// `A`, the first of the capital letters.
pub const UPPER_A: u8 = 65;

/// `Z`, the last of the capital letters.
pub const UPPER_Z: u8 = 90;

/// `_`
pub const UNDERSCORE: u8 = 95;

/// `a`, the first of the small letters.
pub const LOWER_A: u8 = 97;

/// `z`, the last of the small letters.
pub const LOWER_Z: u8 = 122;

/// `{`
pub const LEFT_BRACE: u8 = 123;

/// `}`
pub const RIGHT_BRACE: u8 = 125;

/// A token of the language.
#[derive(Debug, PartialEq)]
pub enum Token {
    LParen,
    RParen,
    LBrace,
    RBrace,
    Comma,
    Eof,
    Dot,
    Minus,
    Semicolon,
    Plus,
    Star,
    Bang,
    BangEqual,
    Equal,
    EqualEqual,
    Less,
    LessEqual,
    Greater,
    GreaterEqual,
    Slash,
    SlashSlash,
    Whitespace,
    /// A string literal, without its quotes.
    LiteralString(String),
    /// A number literal, as it was written: digits with at most one dot.
    LiteralNumber(String),
    KeywordAnd,
    KeywordClass,
    KeywordElse,
    KeywordFalse,
    KeywordFun,
    KeywordFor,
    KeywordIf,
    KeywordNil,
    KeywordOr,
    KeywordPrint,
    KeywordReturn,
    KeywordSuper,
    KeywordThis,
    KeywordTrue,
    KeywordVar,
    KeywordWhile,
    Identifier(String),
}

/// What a [`Token`] stands for, with the texts it carries.
pub enum TokenView {
    LParen,
    RParen,
    LBrace,
    RBrace,
    Comma,
    Eof,
    Dot,
    Minus,
    Semicolon,
    Plus,
    Star,
    Bang,
    BangEqual,
    Equal,
    EqualEqual,
    Less,
    LessEqual,
    Greater,
    GreaterEqual,
    Slash,
    SlashSlash,
    Whitespace,
    LiteralString(Seq<char>),
    LiteralNumber(Seq<char>),
    KeywordAnd,
    KeywordClass,
    KeywordElse,
    KeywordFalse,
    KeywordFun,
    KeywordFor,
    KeywordIf,
    KeywordNil,
    KeywordOr,
    KeywordPrint,
    KeywordReturn,
    KeywordSuper,
    KeywordThis,
    KeywordTrue,
    KeywordVar,
    KeywordWhile,
    Identifier(Seq<char>),
}

impl View for Token {
    type V = TokenView;

    open spec fn view(&self) -> TokenView {
        match self {
            Token::LParen => TokenView::LParen,
            Token::RParen => TokenView::RParen,
            Token::LBrace => TokenView::LBrace,
            Token::RBrace => TokenView::RBrace,
            Token::Comma => TokenView::Comma,
            Token::Eof => TokenView::Eof,
            Token::Dot => TokenView::Dot,
            Token::Minus => TokenView::Minus,
            Token::Semicolon => TokenView::Semicolon,
            Token::Plus => TokenView::Plus,
            Token::Star => TokenView::Star,
            Token::Bang => TokenView::Bang,
            Token::BangEqual => TokenView::BangEqual,
            Token::Equal => TokenView::Equal,
            Token::EqualEqual => TokenView::EqualEqual,
            Token::Less => TokenView::Less,
            Token::LessEqual => TokenView::LessEqual,
            Token::Greater => TokenView::Greater,
            Token::GreaterEqual => TokenView::GreaterEqual,
            Token::Slash => TokenView::Slash,
            Token::SlashSlash => TokenView::SlashSlash,
            Token::Whitespace => TokenView::Whitespace,
            Token::LiteralString(text) => TokenView::LiteralString(text@),
            Token::LiteralNumber(text) => TokenView::LiteralNumber(text@),
            Token::KeywordAnd => TokenView::KeywordAnd,
            Token::KeywordClass => TokenView::KeywordClass,
            Token::KeywordElse => TokenView::KeywordElse,
            Token::KeywordFalse => TokenView::KeywordFalse,
            Token::KeywordFun => TokenView::KeywordFun,
            Token::KeywordFor => TokenView::KeywordFor,
            Token::KeywordIf => TokenView::KeywordIf,
            Token::KeywordNil => TokenView::KeywordNil,
            Token::KeywordOr => TokenView::KeywordOr,
            Token::KeywordPrint => TokenView::KeywordPrint,
            Token::KeywordReturn => TokenView::KeywordReturn,
            Token::KeywordSuper => TokenView::KeywordSuper,
            Token::KeywordThis => TokenView::KeywordThis,
            Token::KeywordTrue => TokenView::KeywordTrue,
            Token::KeywordVar => TokenView::KeywordVar,
            Token::KeywordWhile => TokenView::KeywordWhile,
            Token::Identifier(text) => TokenView::Identifier(text@),
        }
    }
}

/// What a [`ScanError`] reports.
pub struct ScanErrorView {
    pub line: usize,
    pub message: Seq<char>,
}

/// A fragment of the source that is no token, with the line it was found
/// on.
#[derive(Debug, PartialEq)]
pub struct ScanError {
    line: usize,
    message: String,
}

impl View for ScanError {
    type V = ScanErrorView;

    closed spec fn view(&self) -> ScanErrorView {
        ScanErrorView { line: self.line, message: self.message@ }
    }
}

/// The text of a report on `error`.
pub open spec fn report_text(error: ScanErrorView) -> Seq<char> {
    "[line "@ + decimal(error.line as nat) + "] Error: "@ + error.message
}

impl ScanError {
    /// The line on which the fragment was found.
    pub fn line(&self) -> (line: usize)
        ensures
            line == self@.line,
    {
        self.line
    }

    /// What is wrong with the fragment.
    pub fn message(&self) -> (message: &str)
        ensures
            message@ == self@.message,
    {
        self.message.as_str()
    }

    /// The report on the error, as one line of text.
    pub fn to_string(&self) -> (text: String)
        ensures
            text@ == report_text(self@),
    {
        let mut out = String::new();
        out.append("[line ");
        push_decimal(&mut out, self.line);
        out.append("] Error: ");
        out.append(self.message.as_str());
        assert(out@ =~= report_text(self@));
        out
    }
}

/// Whether `byte` is a decimal digit.
pub open spec fn is_digit(byte: u8) -> bool {
    DIGIT_ZERO <= byte <= DIGIT_NINE
}

/// Whether `byte` is a letter of the English alphabet.
pub open spec fn is_letter(byte: u8) -> bool {
    UPPER_A <= byte <= UPPER_Z || LOWER_A <= byte <= LOWER_Z
}

/// Whether `byte` can stand in an identifier: a letter, a digit or an
/// underscore.
pub open spec fn is_word_byte(byte: u8) -> bool {
    is_letter(byte) || is_digit(byte) || byte == UNDERSCORE
}

/// The offset of the first line feed at or behind `from`, or the length of
/// `bytes` if there is none.
pub open spec fn line_end(bytes: Seq<u8>, from: int) -> int
    decreases bytes.len() - from,
{
    if 0 <= from < bytes.len() && bytes[from] != LINE_FEED {
        line_end(bytes, from + 1)
    } else {
        from
    }
}

/// The offset of the first double quote at or behind `from`, or the length
/// of `bytes` if there is none.
pub open spec fn quote_end(bytes: Seq<u8>, from: int) -> int
    decreases bytes.len() - from,
{
    if 0 <= from < bytes.len() && bytes[from] != QUOTE {
        quote_end(bytes, from + 1)
    } else {
        from
    }
}

/// The number of line feeds in `bytes` from `from` up to `to`.
pub open spec fn line_feeds(bytes: Seq<u8>, from: int, to: int) -> int
    decreases to - from,
{
    if 0 <= from < to <= bytes.len() {
        line_feeds(bytes, from, to - 1) + if bytes[to - 1] == LINE_FEED {
            1int
        } else {
            0int
        }
    } else {
        0
    }
}

/// Where the number ends that is being read at `from`: at the first byte
/// that is neither a digit nor a dot, or at a dot when one was read already
/// (`seen_dot`).
pub open spec fn number_end(bytes: Seq<u8>, from: int, seen_dot: bool) -> int
    decreases bytes.len() - from,
{
    if 0 <= from < bytes.len() && (is_digit(bytes[from]) || (bytes[from] == DOT && !seen_dot)) {
        number_end(bytes, from + 1, seen_dot || bytes[from] == DOT)
    } else {
        from
    }
}

/// Where the word ends that is being read at `from`: at the first byte that
/// cannot stand in an identifier.
pub open spec fn word_end(bytes: Seq<u8>, from: int) -> int
    decreases bytes.len() - from,
{
    if 0 <= from < bytes.len() && is_word_byte(bytes[from]) {
        word_end(bytes, from + 1)
    } else {
        from
    }
}

/// The token that the word `word` is: a keyword, or else an identifier.
pub open spec fn word_token(word: Seq<char>) -> TokenView {
    if word == "and"@ {
        TokenView::KeywordAnd
    } else if word == "class"@ {
        TokenView::KeywordClass
    } else if word == "else"@ {
        TokenView::KeywordElse
    } else if word == "false"@ {
        TokenView::KeywordFalse
    } else if word == "fun"@ {
        TokenView::KeywordFun
    } else if word == "for"@ {
        TokenView::KeywordFor
    } else if word == "if"@ {
        TokenView::KeywordIf
    } else if word == "nil"@ {
        TokenView::KeywordNil
    } else if word == "or"@ {
        TokenView::KeywordOr
    } else if word == "print"@ {
        TokenView::KeywordPrint
    } else if word == "return"@ {
        TokenView::KeywordReturn
    } else if word == "super"@ {
        TokenView::KeywordSuper
    } else if word == "this"@ {
        TokenView::KeywordThis
    } else if word == "true"@ {
        TokenView::KeywordTrue
    } else if word == "var"@ {
        TokenView::KeywordVar
    } else if word == "while"@ {
        TokenView::KeywordWhile
    } else {
        TokenView::Identifier(word)
    }
}

/// The text that `bytes` hold from `from` up to `to`.
pub open spec fn text_between(bytes: Seq<u8>, from: int, to: int) -> Seq<char> {
    decode_utf8(bytes.subrange(from, to))
}

/// What the scanner finds at one position: a token or an error, the
/// position behind it and the line that position is on.
pub struct Scanned {
    pub item: Result<TokenView, ScanErrorView>,
    pub next: int,
    pub line: int,
}

/// One or two bytes: `double` where the byte at `pos + 1` is `second`, and
/// `single` otherwise.
pub open spec fn one_or_two(
    bytes: Seq<u8>,
    pos: int,
    line: int,
    second: u8,
    double: TokenView,
    single: TokenView,
) -> Scanned {
    if pos + 1 < bytes.len() && bytes[pos + 1] == second {
        Scanned { item: Ok(double), next: pos + 2, line }
    } else {
        Scanned { item: Ok(single), next: pos + 1, line }
    }
}

/// One byte that is the token `token`.
pub open spec fn one(pos: int, line: int, token: TokenView) -> Scanned {
    Scanned { item: Ok(token), next: pos + 1, line }
}

/// What the scanner finds at `pos`, which is on line `line`.
pub open spec fn scan_token(bytes: Seq<u8>, pos: int, line: int) -> Scanned {
    let byte = bytes[pos];
    if byte == LEFT_PAREN {
        one(pos, line, TokenView::LParen)
    } else if byte == RIGHT_PAREN {
        one(pos, line, TokenView::RParen)
    } else if byte == LEFT_BRACE {
        one(pos, line, TokenView::LBrace)
    } else if byte == RIGHT_BRACE {
        one(pos, line, TokenView::RBrace)
    } else if byte == COMMA {
        one(pos, line, TokenView::Comma)
    } else if byte == DOT {
        one(pos, line, TokenView::Dot)
    } else if byte == MINUS {
        one(pos, line, TokenView::Minus)
    } else if byte == PLUS {
        one(pos, line, TokenView::Plus)
    } else if byte == SEMICOLON {
        one(pos, line, TokenView::Semicolon)
    } else if byte == STAR {
        one(pos, line, TokenView::Star)
    } else if byte == BANG {
        one_or_two(bytes, pos, line, EQUALS, TokenView::BangEqual, TokenView::Bang)
    } else if byte == EQUALS {
        one_or_two(bytes, pos, line, EQUALS, TokenView::EqualEqual, TokenView::Equal)
    } else if byte == LESS {
        one_or_two(bytes, pos, line, EQUALS, TokenView::LessEqual, TokenView::Less)
    } else if byte == GREATER {
        one_or_two(bytes, pos, line, EQUALS, TokenView::GreaterEqual, TokenView::Greater)
    } else if byte == SLASH {
        if pos + 1 < bytes.len() && bytes[pos + 1] == SLASH {
            Scanned { item: Ok(TokenView::SlashSlash), next: line_end(bytes, pos + 1), line }
        } else {
            one(pos, line, TokenView::Slash)
        }
    } else if byte == SPACE || byte == TAB || byte == CARRIAGE_RETURN {
        one(pos, line, TokenView::Whitespace)
    } else if byte == LINE_FEED {
        Scanned { item: Ok(TokenView::Whitespace), next: pos + 1, line: line + 1 }
    } else if byte == QUOTE {
        let end = quote_end(bytes, pos + 1);
        let last_line = line + line_feeds(bytes, pos + 1, end);
        if end < bytes.len() {
            Scanned {
                item: Ok(TokenView::LiteralString(text_between(bytes, pos + 1, end))),
                next: end + 1,
                line: last_line,
            }
        } else {
            Scanned {
                item: Err(
                    ScanErrorView {
                        line: last_line as usize,
                        message: "Unterminated string literal \""@ + text_between(
                            bytes,
                            pos + 1,
                            end,
                        ),
                    },
                ),
                next: end,
                line: last_line,
            }
        }
    } else if is_digit(byte) {
        let end = number_end(bytes, pos + 1, false);
        Scanned { item: Ok(TokenView::LiteralNumber(text_between(bytes, pos, end))), next: end, line }
    } else if is_word_byte(byte) {
        let end = word_end(bytes, pos + 1);
        Scanned { item: Ok(word_token(text_between(bytes, pos, end))), next: end, line }
    } else {
        Scanned {
            item: Err(
                ScanErrorView {
                    line: line as usize,
                    message: "Unexpected character '"@.push(byte as char).push('\''),
                },
            ),
            next: pos + 1,
            line,
        }
    }
}

/// The ends of the runs that the scanner reads lie between their start and
/// the end of the source.
pub proof fn lemma_run_ends(bytes: Seq<u8>, from: int, seen_dot: bool)
    requires
        0 <= from <= bytes.len(),
    ensures
        from <= line_end(bytes, from) <= bytes.len(),
        from <= quote_end(bytes, from) <= bytes.len(),
        from <= number_end(bytes, from, seen_dot) <= bytes.len(),
        from <= word_end(bytes, from) <= bytes.len(),
    decreases bytes.len() - from,
{
    if from < bytes.len() {
        lemma_run_ends(bytes, from + 1, seen_dot);
        lemma_run_ends(bytes, from + 1, true);
    }
}

/// Whatever stands at a position inside the source, the scanner moves on by
/// at least one byte and stays inside the source.
pub proof fn lemma_scan_token_advances(bytes: Seq<u8>, pos: int, line: int)
    requires
        0 <= pos < bytes.len(),
    ensures
        pos < scan_token(bytes, pos, line).next <= bytes.len(),
{
    lemma_run_ends(bytes, pos + 1, false);
}

/// What a scan of the rest of the source finds, from `pos` on line `line`
/// to the end: the tokens and the errors, each in the order in which they
/// are met. `Eof` follows a token that ends the source.
pub struct Scan {
    pub tokens: Seq<TokenView>,
    pub errors: Seq<ScanErrorView>,
}

/// The scan of `bytes` from `pos`, which is on line `line`.
pub open spec fn scan_from(bytes: Seq<u8>, pos: int, line: int) -> Scan
    decreases bytes.len() - pos,
{
    if 0 <= pos < bytes.len() {
        let found = scan_token(bytes, pos, line);
        if pos < found.next <= bytes.len() {
            let rest = scan_from(bytes, found.next, found.line);
            match found.item {
                Ok(token) => Scan {
                    tokens: seq![token] + if found.next >= bytes.len() {
                        seq![TokenView::Eof]
                    } else {
                        Seq::empty()
                    } + rest.tokens,
                    errors: rest.errors,
                },
                Err(error) => Scan { tokens: rest.tokens, errors: seq![error] + rest.errors },
            }
        } else {
            Scan { tokens: Seq::empty(), errors: Seq::empty() }
        }
    } else {
        Scan { tokens: Seq::empty(), errors: Seq::empty() }
    }
}

/// Whether a token is kept in the result of a scan: white space and
/// comments are not.
pub open spec fn is_significant(token: TokenView) -> bool {
    token != TokenView::Whitespace && token != TokenView::SlashSlash
}

/// The significant tokens among `tokens`, in their order.
pub open spec fn significant(tokens: Seq<TokenView>) -> Seq<TokenView>
    decreases tokens.len(),
{
    if tokens.len() == 0 {
        Seq::empty()
    } else if is_significant(tokens.last()) {
        significant(tokens.drop_last()).push(tokens.last())
    } else {
        significant(tokens.drop_last())
    }
}

/// What the tokens of `tokens` stand for.
pub open spec fn token_views(tokens: Seq<Token>) -> Seq<TokenView> {
    Seq::new(tokens.len(), |i: int| tokens[i]@)
}

/// What the errors of `errors` report.
pub open spec fn error_views(errors: Seq<ScanError>) -> Seq<ScanErrorView> {
    Seq::new(errors.len(), |i: int| errors[i]@)
}

/// `String::push` appends one character to the text.
pub assume_specification[ String::push ](text: &mut String, ch: char)
    ensures
        final(text)@ == old(text)@.push(ch),
;

/// There are no more line feeds in a range than it has bytes.
pub proof fn lemma_line_feeds_bound(bytes: Seq<u8>, from: int, to: int)
    ensures
        0 <= line_feeds(bytes, from, to),
        0 <= from <= to ==> line_feeds(bytes, from, to) <= to - from,
    decreases to - from,
{
    if 0 <= from < to <= bytes.len() {
        lemma_line_feeds_bound(bytes, from, to - 1);
    }
}

/// Whether two texts are the same.
fn same_text(left: &str, right: &str) -> (same: bool)
    ensures
        same == (left@ == right@),
{
    let a = left.as_bytes();
    let b = right.as_bytes();
    proof {
        lemma_text_bytes(left);
        lemma_text_bytes(right);
    }
    if a.len() != b.len() {
        return false;
    }
    let mut i: usize = 0;
    while i < a.len()
        invariant
            i <= a@.len(),
            a@.len() == b@.len(),
            a@.take(i as int) == b@.take(i as int),
            a@ == left.spec_bytes(),
            b@ == right.spec_bytes(),
            decode_utf8(a@) == left@,
            decode_utf8(b@) == right@,
        decreases a@.len() - i,
    {
        if a[i] != b[i] {
            assert(a@[i as int] != b@[i as int]);
            return false;
        }
        assert(a@.take(i + 1) =~= a@.take(i as int).push(a@[i as int]));
        assert(b@.take(i + 1) =~= b@.take(i as int).push(b@[i as int]));
        i = i + 1;
    }
    assert(a@ =~= a@.take(i as int));
    assert(b@ =~= b@.take(i as int));
    true
}

/// The token that `word` is: a keyword, or else an identifier.
fn token_of_word(word: &str) -> (token: Token)
    ensures
        token@ == word_token(word@),
{
    if same_text(word, "and") {
        Token::KeywordAnd
    } else if same_text(word, "class") {
        Token::KeywordClass
    } else if same_text(word, "else") {
        Token::KeywordElse
    } else if same_text(word, "false") {
        Token::KeywordFalse
    } else if same_text(word, "fun") {
        Token::KeywordFun
    } else if same_text(word, "for") {
        Token::KeywordFor
    } else if same_text(word, "if") {
        Token::KeywordIf
    } else if same_text(word, "nil") {
        Token::KeywordNil
    } else if same_text(word, "or") {
        Token::KeywordOr
    } else if same_text(word, "print") {
        Token::KeywordPrint
    } else if same_text(word, "return") {
        Token::KeywordReturn
    } else if same_text(word, "super") {
        Token::KeywordSuper
    } else if same_text(word, "this") {
        Token::KeywordThis
    } else if same_text(word, "true") {
        Token::KeywordTrue
    } else if same_text(word, "var") {
        Token::KeywordVar
    } else if same_text(word, "while") {
        Token::KeywordWhile
    } else {
        Token::Identifier(word.to_owned())
    }
}

/// A scanner over one source text. It stands at a byte offset of the text
/// and knows the line that offset is on.
pub struct Scanner<'a> {
    source: &'a str,
    line: usize,
    lex_start_pos: usize,
    lex_curr_pos: usize,
}

impl<'a> Scanner<'a> {
    /// The bytes of the source text.
    pub closed spec fn bytes(&self) -> Seq<u8> {
        self.source.spec_bytes()
    }

    /// The offset the scanner stands at.
    pub closed spec fn position(&self) -> int {
        self.lex_curr_pos as int
    }

    /// The line that the scanner's position is on; the first line is 1.
    pub closed spec fn line(&self) -> int {
        self.line as int
    }

    /// The scanner's invariant: it stands inside the text or at its end, and
    /// has counted no more lines than it has passed bytes.
    pub closed spec fn well_formed(&self) -> bool {
        &&& self.lex_curr_pos <= self.source.spec_bytes().len()
        &&& self.source.spec_bytes().len() < usize::MAX
        &&& 1 <= self.line <= self.lex_curr_pos + 1
    }

    /// A scanner at the start of `code`.
    pub fn new(code: &'a str) -> (scanner: Self)
        requires
            code.spec_bytes().len() < usize::MAX,
        ensures
            scanner.well_formed(),
            scanner.bytes() == code.spec_bytes(),
            scanner.position() == 0,
            scanner.line() == 1,
    {
        Scanner { source: code, line: 1, lex_curr_pos: 0, lex_start_pos: 0 }
    }

    /// Whether there is a byte left to scan.
    fn can_scan(&self) -> (more: bool)
        requires
            self.well_formed(),
        ensures
            more == (self.position() < self.bytes().len()),
    {
        self.lex_curr_pos < self.source.len()
    }

    /// The byte the scanner stands at.
    fn peek_next(&self) -> (byte: u8)
        requires
            self.well_formed(),
            self.position() < self.bytes().len(),
        ensures
            byte == self.bytes()[self.position()],
    {
        self.source.as_bytes()[self.lex_curr_pos]
    }

    /// The byte the scanner stands at; the scanner moves behind it.
    fn scan_next(&mut self) -> (byte: u8)
        requires
            old(self).well_formed(),
            old(self).position() < old(self).bytes().len(),
        ensures
            final(self).well_formed(),
            final(self).bytes() == old(self).bytes(),
            final(self).line() == old(self).line(),
            final(self).position() == old(self).position() + 1,
            byte == old(self).bytes()[old(self).position()],
    {
        let byte = self.source.as_bytes()[self.lex_curr_pos];
        self.lex_curr_pos += 1;
        byte
    }

    /// Where the scanner stands at `val`, it moves behind it and returns
    /// `eq`; otherwise it stays and returns `fallback`.
    fn scan_next_if(&mut self, val: u8, eq: Token, fallback: Token) -> (token: Token)
        requires
            old(self).well_formed(),
        ensures
            final(self).well_formed(),
            final(self).bytes() == old(self).bytes(),
            final(self).line() == old(self).line(),
            old(self).position() < old(self).bytes().len() && old(self).bytes()[old(
                self,
            ).position()] == val ==> token == eq && final(self).position() == old(self).position()
                + 1,
            !(old(self).position() < old(self).bytes().len() && old(self).bytes()[old(
                self,
            ).position()] == val) ==> token == fallback && final(self).position() == old(
                self,
            ).position(),
    {
        if !self.can_scan() {
            return fallback;
        }
        let c = self.peek_next();
        if c == val {
            self.lex_curr_pos += 1;
            eq
        } else {
            fallback
        }
    }

    /// Moves to the end of the line. The scanner stands behind the first
    /// slash of a comment.
    fn skip_comment(&mut self)
        requires
            old(self).well_formed(),
        ensures
            final(self).well_formed(),
            final(self).bytes() == old(self).bytes(),
            final(self).line() == old(self).line(),
            final(self).position() == line_end(old(self).bytes(), old(self).position()),
            final(self).position() >= old(self).position(),
    {
        while self.can_scan() && self.peek_next() != LINE_FEED
            invariant
                self.well_formed(),
                self.bytes() == old(self).bytes(),
                self.line() == old(self).line(),
                self.position() >= old(self).position(),
                line_end(self.bytes(), self.position()) == line_end(
                    old(self).bytes(),
                    old(self).position(),
                ),
            decreases self.bytes().len() - self.position(),
        {
            let _ = self.scan_next();
        }
    }

    /// Reads a string literal. The scanner stands behind its opening quote.
    fn scan_string(&mut self) -> (item: Result<Token, ScanError>)
        requires
            old(self).well_formed(),
            old(self).position() >= 1,
            old(self).line() <= old(self).position(),
            old(self).bytes()[old(self).position() - 1] == QUOTE,
        ensures
            final(self).well_formed(),
            final(self).bytes() == old(self).bytes(),
            final(self).position() >= old(self).position(),
            ({
                let bytes = old(self).bytes();
                let start = old(self).position();
                let end = quote_end(bytes, start);
                let last_line = old(self).line() + line_feeds(bytes, start, end);
                &&& final(self).line() == last_line
                &&& end < bytes.len() ==> final(self).position() == end + 1 && item is Ok
                    && item->Ok_0@ == TokenView::LiteralString(text_between(bytes, start, end))
                &&& end >= bytes.len() ==> final(self).position() == end && item is Err
                    && item->Err_0@ == (ScanErrorView {
                    line: last_line as usize,
                    message: "Unterminated string literal \""@ + text_between(bytes, start, end),
                })
            }),
    {
        let start = self.lex_curr_pos;
        let ghost bytes = self.bytes();
        proof {
            lemma_text_bytes(self.source);
            lemma_boundaries_at_ascii(bytes, start - 1);
        }
        while self.can_scan() && self.peek_next() != QUOTE
            invariant
                self.well_formed(),
                self.bytes() == bytes,
                start <= self.position(),
                start == old(self).position(),
                quote_end(bytes, self.position()) == quote_end(bytes, start as int),
                self.line() == old(self).line() + line_feeds(bytes, start as int, self.position()),
                self.line() <= start + line_feeds(bytes, start as int, self.position()),
            decreases bytes.len() - self.position(),
        {
            let byte = self.scan_next();
            proof {
                lemma_line_feeds_bound(bytes, start as int, self.position() - 1);
            }
            if byte == LINE_FEED {
                self.line += 1;
            }
        }
        let end = self.lex_curr_pos;
        if self.can_scan() {
            proof {
                lemma_boundaries_at_ascii(bytes, end as int);
            }
            let text = substring(self.source, start, end).to_owned();
            self.lex_curr_pos += 1;
            Ok(Token::LiteralString(text))
        } else {
            proof {
                vstd::utf8::is_char_boundary_start_end_of_seq(bytes);
            }
            let mut message = "Unterminated string literal \"".to_owned();
            message.append(substring(self.source, start, end));
            Err(ScanError { line: self.line, message })
        }
    }

    /// Reads a number literal that starts at `start`, whose first digit the
    /// scanner has passed.
    fn scan_number(&mut self, start: usize) -> (token: Token)
        requires
            old(self).well_formed(),
            old(self).position() == start + 1,
            is_digit(old(self).bytes()[start as int]),
        ensures
            final(self).well_formed(),
            final(self).bytes() == old(self).bytes(),
            final(self).line() == old(self).line(),
            final(self).position() == number_end(old(self).bytes(), start + 1, false),
            final(self).position() > start,
            token@ == TokenView::LiteralNumber(
                text_between(old(self).bytes(), start as int, final(self).position()),
            ),
    {
        let ghost bytes = self.bytes();
        let mut seen_dot = false;
        loop
            invariant
                self.well_formed(),
                self.bytes() == bytes,
                self.line() == old(self).line(),
                start < self.position(),
                bytes[self.position() - 1] < 128,
                number_end(bytes, self.position(), seen_dot) == number_end(
                    bytes,
                    start + 1,
                    false,
                ),
            ensures
                self.well_formed(),
                self.bytes() == bytes,
                self.line() == old(self).line(),
                start < self.position(),
                bytes[self.position() - 1] < 128,
                self.position() == number_end(bytes, start + 1, false),
            decreases bytes.len() - self.position(),
        {
            if !self.can_scan() {
                break;
            }
            let byte = self.peek_next();
            let digit = DIGIT_ZERO <= byte && byte <= DIGIT_NINE;
            if !digit && byte != DOT {
                break;
            }
            if byte == DOT {
                if seen_dot {
                    break;
                }
                seen_dot = true;
            }
            let _ = self.scan_next();
        }
        proof {
            lemma_text_bytes(self.source);
            lemma_boundaries_at_ascii(bytes, start as int);
            lemma_boundaries_at_ascii(bytes, self.position() - 1);
        }
        Token::LiteralNumber(substring(self.source, start, self.lex_curr_pos).to_owned())
    }

    /// Reads a keyword or an identifier that starts at `start`, whose first
    /// byte the scanner has passed.
    fn scan_word(&mut self, start: usize) -> (token: Token)
        requires
            old(self).well_formed(),
            old(self).position() == start + 1,
            is_word_byte(old(self).bytes()[start as int]),
        ensures
            final(self).well_formed(),
            final(self).bytes() == old(self).bytes(),
            final(self).line() == old(self).line(),
            final(self).position() == word_end(old(self).bytes(), start + 1),
            final(self).position() > start,
            token@ == word_token(
                text_between(old(self).bytes(), start as int, final(self).position()),
            ),
    {
        let ghost bytes = self.bytes();
        loop
            invariant
                self.well_formed(),
                self.bytes() == bytes,
                self.line() == old(self).line(),
                start < self.position(),
                bytes[self.position() - 1] < 128,
                word_end(bytes, self.position()) == word_end(bytes, start + 1),
            ensures
                self.well_formed(),
                self.bytes() == bytes,
                self.line() == old(self).line(),
                start < self.position(),
                bytes[self.position() - 1] < 128,
                self.position() == word_end(bytes, start + 1),
            decreases bytes.len() - self.position(),
        {
            if !self.can_scan() {
                break;
            }
            let byte = self.peek_next();
            if !word_byte(byte) {
                break;
            }
            let _ = self.scan_next();
        }
        proof {
            lemma_text_bytes(self.source);
            lemma_boundaries_at_ascii(bytes, start as int);
            lemma_boundaries_at_ascii(bytes, self.position() - 1);
        }
        token_of_word(substring(self.source, start, self.lex_curr_pos))
    }

    /// Reads what stands at the scanner's position, a token or a fragment
    /// that is none, and moves behind it.
    fn emit_next(&mut self) -> (item: Result<Token, ScanError>)
        requires
            old(self).well_formed(),
            old(self).position() < old(self).bytes().len(),
        ensures
            final(self).well_formed(),
            final(self).bytes() == old(self).bytes(),
            ({
                let found = scan_token(old(self).bytes(), old(self).position(), old(self).line());
                &&& final(self).position() == found.next
                &&& final(self).line() == found.line
                &&& old(self).position() < found.next <= old(self).bytes().len()
                &&& match item {
                    Ok(token) => found.item == Ok::<TokenView, ScanErrorView>(token@),
                    Err(error) => found.item == Err::<TokenView, ScanErrorView>(error@),
                }
            }),
    {
        let start = self.lex_curr_pos;
        let c = self.scan_next();
        if c == LEFT_PAREN {
            Ok(Token::LParen)
        } else if c == RIGHT_PAREN {
            Ok(Token::RParen)
        } else if c == LEFT_BRACE {
            Ok(Token::LBrace)
        } else if c == RIGHT_BRACE {
            Ok(Token::RBrace)
        } else if c == COMMA {
            Ok(Token::Comma)
        } else if c == DOT {
            Ok(Token::Dot)
        } else if c == MINUS {
            Ok(Token::Minus)
        } else if c == PLUS {
            Ok(Token::Plus)
        } else if c == SEMICOLON {
            Ok(Token::Semicolon)
        } else if c == STAR {
            Ok(Token::Star)
        } else if c == BANG {
            Ok(self.scan_next_if(EQUALS, Token::BangEqual, Token::Bang))
        } else if c == EQUALS {
            Ok(self.scan_next_if(EQUALS, Token::EqualEqual, Token::Equal))
        } else if c == LESS {
            Ok(self.scan_next_if(EQUALS, Token::LessEqual, Token::Less))
        } else if c == GREATER {
            Ok(self.scan_next_if(EQUALS, Token::GreaterEqual, Token::Greater))
        } else if c == SLASH {
            if !self.can_scan() || self.peek_next() != SLASH {
                Ok(Token::Slash)
            } else {
                self.skip_comment();
                Ok(Token::SlashSlash)
            }
        } else if c == SPACE || c == TAB || c == CARRIAGE_RETURN {
            Ok(Token::Whitespace)
        } else if c == LINE_FEED {
            self.line += 1;
            Ok(Token::Whitespace)
        } else if c == QUOTE {
            proof {
                lemma_line_feeds_bound(
                    self.bytes(),
                    start + 1,
                    quote_end(self.bytes(), start + 1),
                );
            }
            self.scan_string()
        } else if DIGIT_ZERO <= c && c <= DIGIT_NINE {
            Ok(self.scan_number(start))
        } else if word_byte(c) {
            Ok(self.scan_word(start))
        } else {
            let mut message = "Unexpected character '".to_owned();
            message.push(c as char);
            message.push('\'');
            Err(ScanError { line: self.line, message })
        }
    }

    /// Scans the source from the scanner's position to its end. Where
    /// nothing is wrong, the result holds the tokens without white space and
    /// comments; otherwise it holds every error that was met.
    pub fn emit_all(&mut self) -> (result: Result<Vec<Token>, Vec<ScanError>>)
        requires
            old(self).well_formed(),
        ensures
            final(self).well_formed(),
            final(self).bytes() == old(self).bytes(),
            final(self).position() == old(self).bytes().len() || final(self).position() == old(
                self,
            ).position(),
            ({
                let scan = scan_from(old(self).bytes(), old(self).position(), old(self).line());
                match result {
                    Ok(tokens) => scan.errors.len() == 0 && token_views(tokens@) == significant(
                        scan.tokens,
                    ),
                    Err(errors) => scan.errors.len() > 0 && error_views(errors@) == scan.errors,
                }
            }),
    {
        let ghost bytes = self.bytes();
        let ghost whole = scan_from(bytes, self.position(), self.line());
        let mut tokens: Vec<Token> = Vec::new();
        let mut errors: Vec<ScanError> = Vec::new();
        while self.can_scan()
            invariant
                self.well_formed(),
                self.bytes() == bytes,
                self.position() == old(self).position() || self.position() > old(self).position(),
                whole == scan_from(old(self).bytes(), old(self).position(), old(self).line()),
                bytes == old(self).bytes(),
                token_views(tokens@) + scan_from(bytes, self.position(), self.line()).tokens
                    == whole.tokens,
                error_views(errors@) + scan_from(bytes, self.position(), self.line()).errors
                    == whole.errors,
            decreases bytes.len() - self.position(),
        {
            self.lex_start_pos = self.lex_curr_pos;
            let ghost here = scan_from(bytes, self.position(), self.line());
            let ghost seen_tokens = token_views(tokens@);
            let ghost seen_errors = error_views(errors@);
            match self.emit_next() {
                Ok(token) => {
                    let ghost view = token@;
                    tokens.push(token);
                    if !self.can_scan() {
                        tokens.push(Token::Eof);
                        assert(token_views(tokens@) =~= seen_tokens + seq![view, TokenView::Eof]);
                    } else {
                        assert(token_views(tokens@) =~= seen_tokens + seq![view]);
                    }
                    assert(error_views(errors@) =~= seen_errors);
                    let ghost rest = scan_from(bytes, self.position(), self.line());
                    assert(token_views(tokens@) + rest.tokens =~= seen_tokens + here.tokens);
                },
                Err(error) => {
                    let ghost view = error@;
                    errors.push(error);
                    assert(error_views(errors@) =~= seen_errors + seq![view]);
                    assert(token_views(tokens@) =~= seen_tokens);
                    let ghost rest = scan_from(bytes, self.position(), self.line());
                    assert(error_views(errors@) + rest.errors =~= seen_errors + here.errors);
                },
            }
        }
        assert(token_views(tokens@) =~= whole.tokens);
        assert(error_views(errors@) =~= whole.errors);
        if errors.len() > 0 {
            Err(errors)
        } else {
            Ok(without_trivia(tokens))
        }
    }
}

/// The tokens of `tokens` without white space and comments.
fn without_trivia(tokens: Vec<Token>) -> (kept: Vec<Token>)
    ensures
        token_views(kept@) == significant(token_views(tokens@)),
{
    let ghost all = token_views(tokens@);
    let mut rest = tokens;
    let mut reversed: Vec<Token> = Vec::new();
    while rest.len() > 0
        invariant
            token_views(rest@) + token_views(reversed@).reverse() == all,
        decreases rest@.len(),
    {
        let ghost before_rest = token_views(rest@);
        let ghost before_reversed = token_views(reversed@);
        let token = rest.pop().unwrap();
        reversed.push(token);
        assert(token_views(rest@) + token_views(reversed@).reverse() =~= before_rest
            + before_reversed.reverse());
    }
    let mut kept: Vec<Token> = Vec::new();
    let ghost mut done: Seq<TokenView> = Seq::empty();
    assert(token_views(reversed@).reverse() =~= all);
    assert(token_views(kept@) =~= significant(done));
    while reversed.len() > 0
        invariant
            done + token_views(reversed@).reverse() == all,
            token_views(kept@) == significant(done),
        decreases reversed@.len(),
    {
        let ghost before_reversed = token_views(reversed@);
        let ghost before_kept = token_views(kept@);
        let token = reversed.pop().unwrap();
        let ghost view = token@;
        proof {
            assert(done.push(view) + token_views(reversed@).reverse() =~= done
                + before_reversed.reverse());
            assert(done.push(view).drop_last() =~= done);
        }
        match token {
            Token::Whitespace => {},
            Token::SlashSlash => {},
            _ => {
                kept.push(token);
                assert(token_views(kept@) =~= before_kept.push(view));
            },
        }
        proof {
            done = done.push(view);
        }
    }
    assert(done =~= all);
    kept
}

/// Whether `byte` can stand in an identifier.
fn word_byte(byte: u8) -> (yes: bool)
    ensures
        yes == is_word_byte(byte),
{
    (UPPER_A <= byte && byte <= UPPER_Z) || (LOWER_A <= byte && byte <= LOWER_Z) || (DIGIT_ZERO
        <= byte && byte <= DIGIT_NINE) || byte == UNDERSCORE
}

} // verus!
