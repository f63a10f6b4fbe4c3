//! The tokenizer: text in, tokens with exact source ranges out.
//!
//! The tokenizer reads one character at a time and knows nothing of how
//! tokens nest. Its behaviour is defined by [`lex_step`], a function from the
//! state before a character to the state after it together with the tokens
//! that the character completes; [`tokenize_spec`] runs that function over a
//! whole text.
use crate::parser::order::{in_order, lemma_tokens_in_order};
use crate::parser::spans::{lemma_tokens_fit_source, tokens_fit_source};
use crate::types::{ParseError, ParseResult, Position, Range};
use vstd::prelude::*;

verus! {

/// One token of the source text.
#[derive(Debug)]
pub enum TokenType {
    /// A string literal: the span between the quotes, and the characters
    /// found there.
    String(Range, String),
    /// A number that is not a 64-bit integer, kept as it was written.
    Float(Range, String),
    Int(Range, i64),
    Bool(Range, bool),
    Null(Range),
    ObjectOpen(Range),
    ObjectClose(Range),
    ArrayOpen(Range),
    ArrayClose(Range),
    Comma,
    Colon,
    /// A `//` comment: the span after the slashes up to the end of the line,
    /// and the characters found there.
    Comment(Range, String),
}

/// The mathematical value of a token: text is a sequence of characters.
pub enum TokenView {
    String(Range, Seq<char>),
    Float(Range, Seq<char>),
    Int(Range, i64),
    Bool(Range, bool),
    Null(Range),
    ObjectOpen(Range),
    ObjectClose(Range),
    ArrayOpen(Range),
    ArrayClose(Range),
    Comma,
    Colon,
    Comment(Range, Seq<char>),
}

impl View for TokenType {
    type V = TokenView;

    open spec fn view(&self) -> TokenView {
        match *self {
            TokenType::String(range, text) => TokenView::String(range, text@),
            TokenType::Float(range, text) => TokenView::Float(range, text@),
            TokenType::Int(range, value) => TokenView::Int(range, value),
            TokenType::Bool(range, value) => TokenView::Bool(range, value),
            TokenType::Null(range) => TokenView::Null(range),
            TokenType::ObjectOpen(range) => TokenView::ObjectOpen(range),
            TokenType::ObjectClose(range) => TokenView::ObjectClose(range),
            TokenType::ArrayOpen(range) => TokenView::ArrayOpen(range),
            TokenType::ArrayClose(range) => TokenView::ArrayClose(range),
            TokenType::Comma => TokenView::Comma,
            TokenType::Colon => TokenView::Colon,
            TokenType::Comment(range, text) => TokenView::Comment(range, text@),
        }
    }
}

/// The values of a sequence of tokens, in order.
pub open spec fn token_views(tokens: Seq<TokenType>) -> Seq<TokenView> {
    Seq::new(tokens.len(), |i: int| tokens[i]@)
}

/// The values of tokens with one more token are the values of the tokens
/// with the value of that token.
pub(crate) proof fn lemma_token_views_push(tokens: Seq<TokenType>, token: TokenType)
    ensures
        token_views(tokens.push(token)) == token_views(tokens).push(token@),
{
    assert(token_views(tokens.push(token)) =~= token_views(tokens).push(token@));
}

/// The extent of one character: no lines, one column, one offset.
pub open spec fn one_char() -> Position {
    Position { line: 0, char: 1, idx: 1 }
}

/// The span of the single character at `pos`.
pub open spec fn char_range(pos: Position) -> Range {
    Range { start: pos, end: pos.offset_by(one_char()) }
}

/// The token that a character outside any literal stands for, if it is one
/// of the six structural characters.
pub open spec fn default_token(c: char, pos: Position) -> Option<TokenView> {
    if c == '{' {
        Some(TokenView::ObjectOpen(char_range(pos)))
    } else if c == '}' {
        Some(TokenView::ObjectClose(char_range(pos)))
    } else if c == '[' {
        Some(TokenView::ArrayOpen(char_range(pos)))
    } else if c == ']' {
        Some(TokenView::ArrayClose(char_range(pos)))
    } else if c == ',' {
        Some(TokenView::Comma)
    } else if c == ':' {
        Some(TokenView::Colon)
    } else {
        None
    }
}

/// The tokens that a character outside any literal adds: one or none.
pub open spec fn default_tokens(c: char, pos: Position) -> Seq<TokenView> {
    match default_token(c, pos) {
        Some(token) => seq![token],
        None => Seq::empty(),
    }
}

/// Whether `c` is one of the ten decimal digits.
pub open spec fn is_digit(c: char) -> bool {
    '0' <= c && c <= '9'
}

/// The number that a decimal digit stands for.
pub open spec fn digit_value(c: char) -> int {
    c as int - '0' as int
}

/// The number written by a sequence of decimal digits, most significant
/// first. Leading zeros do not count; no digits at all write zero.
pub open spec fn decimal_value(digits: Seq<char>) -> int
    decreases digits.len(),
{
    if digits.len() == 0 {
        0
    } else {
        decimal_value(digits.drop_last()) * 10 + digit_value(digits.last())
    }
}

/// Whether `text` is made of decimal digits alone.
pub open spec fn all_digits(text: Seq<char>) -> bool {
    forall|i: int| 0 <= i < text.len() ==> is_digit(#[trigger] text[i])
}

/// How many of the characters of `text` are a decimal point.
pub open spec fn dot_count(text: Seq<char>) -> nat
    decreases text.len(),
{
    if text.len() == 0 {
        0
    } else if text.last() == '.' {
        dot_count(text.drop_last()) + 1
    } else {
        dot_count(text.drop_last())
    }
}

/// Whether `text` is written as a 64-bit integer: digits alone, at least
/// one, whose value is in range.
pub open spec fn is_integer_text(text: Seq<char>) -> bool {
    text.len() > 0 && all_digits(text) && decimal_value(text) <= i64::MAX
}

/// Whether `text` is written as a decimal number: digits with at most one
/// decimal point among them, and at least one digit.
pub open spec fn is_decimal_text(text: Seq<char>) -> bool {
    &&& forall|i: int| 0 <= i < text.len() ==> is_digit(#[trigger] text[i]) || text[i] == '.'
    &&& exists|i: int| 0 <= i < text.len() && is_digit(#[trigger] text[i])
    &&& dot_count(text) <= 1
}

/// The token for the accumulated text of a number: an integer if the text
/// is one, else a float that keeps the text, else nothing.
pub open spec fn number_token(text: Seq<char>, range: Range) -> Option<TokenView> {
    if is_integer_text(text) {
        Some(TokenView::Int(range, decimal_value(text) as i64))
    } else if is_decimal_text(text) {
        Some(TokenView::Float(range, text))
    } else {
        None
    }
}

/// What the tokenizer has begun and not yet finished.
pub enum Pending {
    /// Nothing: the next character is free to start a token.
    Idle,
    /// Nothing, but the previous character was a `/` that may start a
    /// comment.
    Slash,
    /// Inside a comment whose text began at `start`.
    Comment { start: Position, text: Seq<char> },
    /// Inside a string whose content began at `start`; `escaped` is set
    /// right after an unescaped backslash.
    Text { start: Position, text: Seq<char>, escaped: bool },
    /// Inside a number that began at `start`.
    Number { start: Position, text: Seq<char> },
    /// Inside `true` or `false`, which began at `start`.
    Bool { start: Position, text: Seq<char> },
    /// Inside `null`, which began at `start`.
    Null { start: Position, text: Seq<char> },
}

/// The tokenizer between two characters: what is pending, and the line and
/// column of the next character.
pub struct Cursor {
    pub pending: Pending,
    pub line: int,
    pub column: int,
}

/// What one or more characters did: the cursor after them and the tokens
/// they completed.
pub struct Lexed {
    pub cursor: Cursor,
    pub tokens: Seq<TokenView>,
}

/// The cursor before the first character of a document.
pub open spec fn start_cursor() -> Cursor {
    Cursor { pending: Pending::Idle, line: 0, column: 0 }
}

/// The coordinate with the given line, column and offset.
pub open spec fn position_at(line: int, column: int, idx: int) -> Position {
    Position { line: line as usize, char: column as usize, idx: idx as usize }
}

/// A character met while nothing is pending: it starts a string, a literal,
/// a number or a possible comment, or is handled as a structural character.
pub open spec fn lex_idle(c: char, here: Position) -> (Pending, Seq<TokenView>) {
    if c == '"' {
        (
            Pending::Text { start: here.offset_by(one_char()), text: Seq::empty(), escaped: false },
            Seq::empty(),
        )
    } else if c == 'n' {
        (Pending::Null { start: here, text: seq![c] }, Seq::empty())
    } else if c == 't' || c == 'f' {
        (Pending::Bool { start: here, text: seq![c] }, Seq::empty())
    } else if is_digit(c) {
        (Pending::Number { start: here, text: seq![c] }, Seq::empty())
    } else if c == '/' {
        (Pending::Slash, Seq::empty())
    } else {
        (Pending::Idle, default_tokens(c, here))
    }
}

/// A character met at `here` with `pending` begun.
///
/// - In a string every character is kept as it is, a newline too; a
///   backslash makes the character behind it one of the string even where it
///   is a quote, and a quote that is not escaped ends the string.
/// - A number goes on with digits and points and ends at the first other
///   character, a newline too. The character that ends it is then handled
///   as a structural character.
/// - `true`, `false` and `null` end at the character behind their last
///   letter, which is then handled as a structural character. What has been
///   gathered must be the beginning of the word.
/// - A comment runs up to the newline that ends its line.
pub open spec fn lex_char(pending: Pending, c: char, here: Position) -> Result<
    (Pending, Seq<TokenView>),
    ParseError,
> {
    match pending {
        Pending::Idle => Ok(lex_idle(c, here)),
        Pending::Slash => if c == '/' {
            Ok(
                (
                    Pending::Comment { start: here.offset_by(one_char()), text: Seq::empty() },
                    Seq::empty(),
                ),
            )
        } else {
            Ok(lex_idle(c, here))
        },
        Pending::Comment { start, text } => if c == '\n' {
            Ok((Pending::Idle, seq![TokenView::Comment(Range { start, end: here }, text)]))
        } else {
            Ok((Pending::Comment { start, text: text.push(c) }, Seq::empty()))
        },
        Pending::Text { start, text, escaped } => if !escaped && c == '\\' {
            Ok((Pending::Text { start, text: text.push(c), escaped: true }, Seq::empty()))
        } else if !escaped && c == '"' {
            Ok((Pending::Idle, seq![TokenView::String(Range { start, end: here }, text)]))
        } else {
            Ok((Pending::Text { start, text: text.push(c), escaped: false }, Seq::empty()))
        },
        Pending::Number { start, text } => if is_digit(c) || c == '.' {
            Ok((Pending::Number { start, text: text.push(c) }, Seq::empty()))
        } else {
            match number_token(text, Range { start, end: here }) {
                Some(token) => Ok((Pending::Idle, seq![token] + default_tokens(c, here))),
                None => Err(ParseError::InvalidType),
            }
        },
        Pending::Bool { start, text } => if text == "true"@ || text == "false"@ {
            Ok(
                (
                    Pending::Idle,
                    seq![TokenView::Bool(Range { start, end: here }, text == "true"@)]
                        + default_tokens(c, here),
                ),
            )
        } else if !text.is_prefix_of("true"@) && !text.is_prefix_of("false"@) {
            Err(ParseError::InvalidType)
        } else {
            Ok((Pending::Bool { start, text: text.push(c) }, Seq::empty()))
        },
        Pending::Null { start, text } => if text == "null"@ {
            Ok(
                (
                    Pending::Idle,
                    seq![TokenView::Null(Range { start, end: here })] + default_tokens(c, here),
                ),
            )
        } else if !text.is_prefix_of("null"@) {
            Err(ParseError::InvalidType)
        } else {
            Ok((Pending::Null { start, text: text.push(c) }, Seq::empty()))
        },
    }
}

/// One step of the tokenizer: the character `c`, which stands at offset
/// `idx` of the text, met with the cursor at `cur`.
///
/// What is pending deals with the character as [`lex_char`] says. Then a
/// newline moves the cursor to the start of the next line, and every other
/// character moves it one column on.
pub open spec fn lex_step(cur: Cursor, c: char, idx: int) -> Result<Lexed, ParseError> {
    let here = position_at(cur.line, cur.column, idx);
    match lex_char(cur.pending, c, here) {
        Ok((pending, tokens)) => Ok(
            Lexed {
                cursor: if c == '\n' {
                    Cursor { pending, line: cur.line + 1, column: 0 }
                } else {
                    Cursor { pending, line: cur.line, column: cur.column + 1 }
                },
                tokens,
            },
        ),
        Err(e) => Err(e),
    }
}

/// The characters of `text` from offset `from` up to `to`, met in order
/// with the cursor at `cur` before the first of them. The first failing
/// step fails the whole run.
pub open spec fn lex_range(cur: Cursor, text: Seq<char>, from: int, to: int) -> Result<
    Lexed,
    ParseError,
>
    decreases to - from,
{
    if to <= from {
        Ok(Lexed { cursor: cur, tokens: Seq::empty() })
    } else {
        match lex_range(cur, text, from, to - 1) {
            Ok(done) => match lex_step(done.cursor, text[to - 1], to - 1) {
                Ok(step) => Ok(Lexed { cursor: step.cursor, tokens: done.tokens + step.tokens }),
                Err(e) => Err(e),
            },
            Err(e) => Err(e),
        }
    }
}

/// The tokens of a whole text.
///
/// What is still pending when the text ends is dropped: a token is only
/// produced by the character that completes it.
pub open spec fn tokenize_spec(text: Seq<char>) -> Result<Seq<TokenView>, ParseError> {
    match lex_range(start_cursor(), text, 0, text.len() as int) {
        Ok(done) => Ok(done.tokens),
        Err(e) => Err(e),
    }
}

/// Appends the structural token that `c` stands for, if any.
fn handle_defaults(c: char, tokens: &mut Vec<TokenType>, pos: Position)
    requires
        pos.can_offset_by(one_char()),
    ensures
        token_views(final(tokens)@) == token_views(old(tokens)@) + default_tokens(c, pos),
{
    let ghost before = tokens@;
    let range = Range { start: pos, end: pos + Position::new(0, 1, 1) };
    match c {
        '{' => {
            tokens.push(TokenType::ObjectOpen(range));
        },
        '}' => {
            tokens.push(TokenType::ObjectClose(range));
        },
        '[' => {
            tokens.push(TokenType::ArrayOpen(range));
        },
        ']' => {
            tokens.push(TokenType::ArrayClose(range));
        },
        ',' => {
            tokens.push(TokenType::Comma);
        },
        ':' => {
            tokens.push(TokenType::Colon);
        },
        _ => {},
    }
    proof {
        if default_token(c, pos) is Some {
            lemma_token_views_push(before, tokens@.last());
            assert(tokens@ == before.push(tokens@.last()));
        }
        assert(token_views(tokens@) =~= token_views(before) + default_tokens(c, pos));
    }
}

/// `String::push` of the standard library appends one character to the end
/// of the string and leaves the characters before it as they were.
pub assume_specification[ std::string::String::push ](s: &mut std::string::String, ch: char)
    ensures
        final(s)@ == old(s)@.push(ch),
;

/// The characters of `string`, in order.
pub fn chars_of(string: &str) -> (chars: Vec<char>)
    ensures
        chars@ == string@,
{
    let mut chars: Vec<char> = Vec::new();
    for c in it: string.chars()
        invariant
            it.seq() == string@,
            chars@ == it.seq().take(it.index()),
    {
        chars.push(c);
        assert(it.seq().take(it.index() + 1) =~= it.seq().take(it.index()).push(c));
    }
    assert(string@.take(string@.len() as int) =~= string@);
    chars
}

/// The string made of `chars`, in order.
pub fn text_of(chars: &Vec<char>) -> (text: String)
    ensures
        text@ == chars@,
{
    let mut text = String::new();
    let mut i: usize = 0;
    while i < chars.len()
        invariant
            i <= chars.len(),
            text@ == chars@.take(i as int),
        decreases chars.len() - i,
    {
        text.push(chars[i]);
        assert(chars@.take(i + 1) =~= chars@.take(i as int).push(chars@[i as int]));
        i += 1;
    }
    assert(chars@.take(chars.len() as int) =~= chars@);
    text
}

/// Whether `chars` spells out `literal`.
fn chars_are(chars: &Vec<char>, literal: &str) -> (same: bool)
    ensures
        same == (chars@ == literal@),
{
    let n = literal.unicode_len();
    if chars.len() != n {
        return false;
    }
    let mut i: usize = 0;
    while i < n
        invariant
            i <= n,
            n == chars.len(),
            n == literal@.len(),
            chars@.take(i as int) == literal@.take(i as int),
        decreases n - i,
    {
        if chars[i] != literal.get_char(i) {
            assert(chars@[i as int] != literal@[i as int]);
            return false;
        }
        assert(chars@.take(i + 1) =~= chars@.take(i as int).push(chars@[i as int]));
        assert(literal@.take(i + 1) =~= literal@.take(i as int).push(literal@[i as int]));
        i += 1;
    }
    assert(chars@.take(n as int) =~= chars@);
    assert(literal@.take(n as int) =~= literal@);
    true
}

/// Whether `chars` spells out the beginning of `literal`, or all of it.
fn chars_begin(chars: &Vec<char>, literal: &str) -> (begins: bool)
    ensures
        begins == chars@.is_prefix_of(literal@),
{
    let n = literal.unicode_len();
    if chars.len() > n {
        return false;
    }
    let mut i: usize = 0;
    while i < chars.len()
        invariant
            i <= chars.len() <= n,
            n == literal@.len(),
            chars@.take(i as int) == literal@.take(i as int),
        decreases chars.len() - i,
    {
        if chars[i] != literal.get_char(i) {
            assert(chars@[i as int] != literal@.subrange(0, chars@.len() as int)[i as int]);
            return false;
        }
        assert(chars@.take(i + 1) =~= chars@.take(i as int).push(chars@[i as int]));
        assert(literal@.take(i + 1) =~= literal@.take(i as int).push(literal@[i as int]));
        i += 1;
    }
    assert(chars@.take(chars.len() as int) =~= chars@);
    true
}

/// Whether `c` is a decimal digit.
fn is_digit_char(c: char) -> (digit: bool)
    ensures
        digit == is_digit(c),
{
    '0' <= c && c <= '9'
}

/// The number that the decimal digit `c` stands for.
fn digit_of(c: char) -> (value: i64)
    requires
        is_digit(c),
    ensures
        value == digit_value(c),
{
    (c as u8 - '0' as u8) as i64
}

/// A sequence of digits writes no negative number, and one more digit never
/// writes a smaller one.
pub(crate) proof fn lemma_decimal_value_grows(digits: Seq<char>)
    requires
        all_digits(digits),
    ensures
        decimal_value(digits) >= 0,
        digits.len() > 0 ==> decimal_value(digits) >= decimal_value(digits.drop_last()),
    decreases digits.len(),
{
    if digits.len() > 0 {
        let front = digits.drop_last();
        assert forall|i: int| 0 <= i < front.len() implies is_digit(#[trigger] front[i]) by {
            assert(front[i] == digits[i]);
        }
        lemma_decimal_value_grows(front);
        assert(is_digit(digits[digits.len() - 1]));
    }
}

/// The token for the accumulated text of a number.
fn number_from(text: &Vec<char>, range: Range) -> (token: Option<TokenType>)
    ensures
        match token {
            Some(t) => number_token(text@, range) == Some(t@),
            None => number_token(text@, range) is None,
        },
{
    let mut value: i64 = 0;
    let mut fits = true;
    let mut digits_only = true;
    let mut some_digit = false;
    let mut plain = true;
    let mut dots: usize = 0;
    let mut i: usize = 0;
    while i < text.len()
        invariant
            i <= text.len(),
            0 <= value,
            digits_only == all_digits(text@.take(i as int)),
            digits_only && fits ==> value == decimal_value(text@.take(i as int)),
            digits_only && !fits ==> decimal_value(text@.take(i as int)) > i64::MAX,
            some_digit == (exists|j: int| 0 <= j < i && is_digit(#[trigger] text@[j])),
            plain == (forall|j: int| 0 <= j < i ==> is_digit(#[trigger] text@[j]) || text@[j] == '.'),
            dots <= 2,
            dots < 2 ==> dots == dot_count(text@.take(i as int)),
            dots == 2 ==> dot_count(text@.take(i as int)) >= 2,
        decreases text.len() - i,
    {
        let c = text[i];
        let ghost before = text@.take(i as int);
        let ghost after = text@.take(i + 1);
        proof {
            assert(after.drop_last() =~= before);
            assert(after.last() == c);
            if all_digits(after) {
                assert forall|j: int| 0 <= j < before.len() implies is_digit(
                    #[trigger] before[j],
                ) by {
                    assert(before[j] == after[j]);
                }
                lemma_decimal_value_grows(after);
            }
            if all_digits(before) && is_digit(c) {
                assert forall|j: int| 0 <= j < after.len() implies is_digit(#[trigger] after[j]) by {
                    if j < before.len() {
                        assert(after[j] == before[j]);
                    }
                }
                lemma_decimal_value_grows(after);
            }
        }
        if is_digit_char(c) {
            some_digit = true;
            if fits {
                let d = digit_of(c);
                if value > (i64::MAX - d) / 10 {
                    fits = false;
                } else {
                    value = value * 10 + d;
                }
            }
        } else {
            assert(!is_digit(after[i as int]));
            digits_only = false;
            if c == '.' {
                if dots < 2 {
                    dots += 1;
                }
            } else {
                plain = false;
            }
        }
        i += 1;
    }
    proof {
        assert(text@.take(text.len() as int) =~= text@);
    }
    if text.len() > 0 && digits_only && fits {
        Some(TokenType::Int(range, value))
    } else if plain && some_digit && dots <= 1 {
        Some(TokenType::Float(range, text_of(text)))
    } else {
        None
    }
}

/// Which kind of token the tokenizer has begun.
#[derive(Clone, Copy, PartialEq, Eq, Structural)]
enum LexMode {
    Idle,
    Slash,
    Comment,
    Text,
    Number,
    Bool,
    Null,
}

/// The running state of the tokenizer. `start`, `buffer` and `escaped` only
/// mean something while a token that uses them is pending.
struct Lexer {
    mode: LexMode,
    start: Position,
    buffer: Vec<char>,
    escaped: bool,
    line: usize,
    column: usize,
}

impl Lexer {
    spec fn pending(&self) -> Pending {
        match self.mode {
            LexMode::Idle => Pending::Idle,
            LexMode::Slash => Pending::Slash,
            LexMode::Comment => Pending::Comment { start: self.start, text: self.buffer@ },
            LexMode::Text => Pending::Text {
                start: self.start,
                text: self.buffer@,
                escaped: self.escaped,
            },
            LexMode::Number => Pending::Number { start: self.start, text: self.buffer@ },
            LexMode::Bool => Pending::Bool { start: self.start, text: self.buffer@ },
            LexMode::Null => Pending::Null { start: self.start, text: self.buffer@ },
        }
    }

    spec fn cursor(&self) -> Cursor {
        Cursor { pending: self.pending(), line: self.line as int, column: self.column as int }
    }

    /// The tokenizer before the first character: nothing is pending, nothing
    /// is gathered, and the cursor stands at the origin.
    fn new() -> (lexer: Lexer)
        ensures
            lexer.mode == LexMode::Idle,
            lexer.start == Position::origin(),
            lexer.buffer@ == Seq::<char>::empty(),
            !lexer.escaped,
            lexer.line == 0,
            lexer.column == 0,
            lexer.cursor() == start_cursor(),
    {
        Lexer {
            mode: LexMode::Idle,
            start: Position::default(),
            buffer: Vec::new(),
            escaped: false,
            line: 0,
            column: 0,
        }
    }

    /// Begins a token of kind `mode` at `start`, with `c` as its first
    /// character.
    fn begin(&mut self, mode: LexMode, start: Position, c: char)
        ensures
            final(self).mode == mode,
            final(self).start == start,
            final(self).buffer@ == seq![c],
            final(self).escaped == old(self).escaped,
            final(self).line == old(self).line,
            final(self).column == old(self).column,
    {
        self.mode = mode;
        self.start = start;
        self.buffer = Vec::new();
        self.buffer.push(c);
        assert(self.buffer@ =~= seq![c]);
    }

    /// Forgets the pending token.
    fn finish(&mut self)
        ensures
            final(self).mode == LexMode::Idle,
            final(self).line == old(self).line,
            final(self).column == old(self).column,
    {
        self.mode = LexMode::Idle;
        self.buffer = Vec::new();
    }

    /// A character met while nothing is pending.
    fn on_idle(&mut self, tokens: &mut Vec<TokenType>, c: char, here: Position)
        requires
            here.can_offset_by(one_char()),
        ensures
            final(self).pending() == lex_idle(c, here).0,
            token_views(final(tokens)@) == token_views(old(tokens)@) + lex_idle(c, here).1,
            final(self).line == old(self).line,
            final(self).column == old(self).column,
    {
        assert(token_views(tokens@) + Seq::<TokenView>::empty() =~= token_views(tokens@));
        if c == '"' {
            self.mode = LexMode::Text;
            self.start = here + Position::new(0, 1, 1);
            self.buffer = Vec::new();
            self.escaped = false;
        } else if c == 'n' {
            self.begin(LexMode::Null, here, c);
        } else if c == 't' || c == 'f' {
            self.begin(LexMode::Bool, here, c);
        } else if is_digit_char(c) {
            self.begin(LexMode::Number, here, c);
        } else if c == '/' {
            self.mode = LexMode::Slash;
        } else {
            self.mode = LexMode::Idle;
            handle_defaults(c, tokens, here);
        }
    }

    /// Completes the pending token with `token`, then handles `c` as a
    /// character outside any literal.
    fn complete(&mut self, tokens: &mut Vec<TokenType>, token: TokenType, c: char, here: Position)
        requires
            here.can_offset_by(one_char()),
        ensures
            final(self).mode == LexMode::Idle,
            token_views(final(tokens)@) == token_views(old(tokens)@) + (seq![token@]
                + default_tokens(c, here)),
            final(self).line == old(self).line,
            final(self).column == old(self).column,
    {
        let ghost before = tokens@;
        tokens.push(token);
        proof {
            lemma_token_views_push(before, token);
        }
        self.finish();
        handle_defaults(c, tokens, here);
        assert(token_views(tokens@) =~= token_views(before) + (seq![token@] + default_tokens(
            c,
            here,
        )));
    }

    /// A character met with whatever is pending.
    fn on_char(&mut self, tokens: &mut Vec<TokenType>, c: char, here: Position) -> (result: Result<
        (),
        ParseError,
    >)
        requires
            here.can_offset_by(one_char()),
        ensures
            match lex_char(old(self).pending(), c, here) {
                Ok((pending, added)) => {
                    &&& result is Ok
                    &&& final(self).pending() == pending
                    &&& token_views(final(tokens)@) == token_views(old(tokens)@) + added
                },
                Err(e) => result == Err::<(), ParseError>(e),
            },
            final(self).line == old(self).line,
            final(self).column == old(self).column,
    {
        let ghost before = token_views(tokens@);
        assert(before + Seq::<TokenView>::empty() =~= before);
        match self.mode {
            LexMode::Idle => {
                self.on_idle(tokens, c, here);
            },
            LexMode::Slash => {
                if c == '/' {
                    self.mode = LexMode::Comment;
                    self.start = here + Position::new(0, 1, 1);
                    self.buffer = Vec::new();
                } else {
                    self.on_idle(tokens, c, here);
                }
            },
            LexMode::Comment => {
                if c == '\n' {
                    let token = TokenType::Comment(
                        Range { start: self.start, end: here },
                        text_of(&self.buffer),
                    );
                    tokens.push(token);
                    proof {
                        lemma_token_views_push(old(tokens)@, token);
                    }
                    self.finish();
                } else {
                    self.buffer.push(c);
                }
            },
            LexMode::Text => {
                if !self.escaped && c == '\\' {
                    self.escaped = true;
                    self.buffer.push(c);
                } else if !self.escaped && c == '"' {
                    let token = TokenType::String(
                        Range { start: self.start, end: here },
                        text_of(&self.buffer),
                    );
                    tokens.push(token);
                    proof {
                        lemma_token_views_push(old(tokens)@, token);
                    }
                    self.finish();
                } else {
                    self.escaped = false;
                    self.buffer.push(c);
                }
            },
            LexMode::Number => {
                if is_digit_char(c) || c == '.' {
                    self.buffer.push(c);
                } else {
                    match number_from(&self.buffer, Range { start: self.start, end: here }) {
                        Some(token) => {
                            self.complete(tokens, token, c, here);
                        },
                        None => {
                            return Err(ParseError::InvalidType);
                        },
                    }
                }
            },
            LexMode::Bool => {
                let is_true = chars_are(&self.buffer, "true");
                if is_true || chars_are(&self.buffer, "false") {
                    let token = TokenType::Bool(Range { start: self.start, end: here }, is_true);
                    self.complete(tokens, token, c, here);
                } else if !chars_begin(&self.buffer, "true") && !chars_begin(
                    &self.buffer,
                    "false",
                ) {
                    return Err(ParseError::InvalidType);
                } else {
                    self.buffer.push(c);
                }
            },
            LexMode::Null => {
                if chars_are(&self.buffer, "null") {
                    let token = TokenType::Null(Range { start: self.start, end: here });
                    self.complete(tokens, token, c, here);
                } else if !chars_begin(&self.buffer, "null") {
                    return Err(ParseError::InvalidType);
                } else {
                    self.buffer.push(c);
                }
            },
        }
        Ok(())
    }

    /// One step of the tokenizer, on the character at offset `idx`.
    fn step(&mut self, tokens: &mut Vec<TokenType>, c: char, idx: usize) -> (result: Result<
        (),
        ParseError,
    >)
        requires
            old(self).line <= idx,
            old(self).column <= idx,
            idx < usize::MAX,
        ensures
            match lex_step(old(self).cursor(), c, idx as int) {
                Ok(lexed) => {
                    &&& result is Ok
                    &&& final(self).cursor() == lexed.cursor
                    &&& token_views(final(tokens)@) == token_views(old(tokens)@) + lexed.tokens
                    &&& final(self).line <= idx + 1
                    &&& final(self).column <= idx + 1
                },
                Err(e) => result == Err::<(), ParseError>(e),
            },
    {
        let here = Position::new(self.line, self.column, idx);
        match self.on_char(tokens, c, here) {
            Ok(()) => {
                if c == '\n' {
                    self.line += 1;
                    self.column = 0;
                } else {
                    self.column += 1;
                }
                Ok(())
            },
            Err(e) => Err(e),
        }
    }
}

/// Splits the characters of a text into tokens.
///
/// Fails with `InvalidType`, and with nothing else, at the first malformed
/// number or literal. Every token of the result stands in the text where its
/// range says, and the tokens come in the order of the text.
pub fn tokenize_chars(text: &Vec<char>) -> (result: ParseResult<Vec<TokenType>>)
    ensures
        match tokenize_spec(text@) {
            Ok(tokens) => result is Ok && token_views(result->Ok_0@) == tokens,
            Err(e) => result == Err::<Vec<TokenType>, ParseError>(e),
        },
        result matches Ok(tokens) ==> tokens_fit_source(text@, token_views(tokens@)),
        result matches Ok(tokens) ==> in_order(token_views(tokens@)),
        result matches Err(e) ==> e == ParseError::InvalidType,
{
    proof {
        assert(text@.len() == text.len());
        lemma_tokens_fit_source(text@);
        lemma_tokens_in_order(text@);
        lemma_lex_range_error(start_cursor(), text@, 0, text@.len() as int);
    }
    let mut tokens: Vec<TokenType> = Vec::new();
    let mut lexer = Lexer::new();
    let mut idx: usize = 0;
    assert(token_views(tokens@) =~= Seq::<TokenView>::empty());
    while idx < text.len()
        invariant
            idx <= text.len(),
            lexer.line <= idx,
            lexer.column <= idx,
            lex_range(start_cursor(), text@, 0, idx as int) == Ok::<Lexed, ParseError>(
                Lexed { cursor: lexer.cursor(), tokens: token_views(tokens@) },
            ),
        decreases text.len() - idx,
    {
        match lexer.step(&mut tokens, text[idx], idx) {
            Ok(()) => {},
            Err(e) => {
                proof {
                    lemma_lex_range_fails(start_cursor(), text@, 0, idx + 1, text@.len() as int);
                }
                return Err(e);
            },
        }
        idx += 1;
    }
    Ok(tokens)
}

/// Splits a text into tokens.
///
/// Fails with `InvalidType`, and with nothing else, at the first malformed
/// number or literal. Every token of the result stands in the text where its
/// range says, and the tokens come in the order of the text.
pub fn tokenize(string: &str) -> (result: ParseResult<Vec<TokenType>>)
    ensures
        match tokenize_spec(string@) {
            Ok(tokens) => result is Ok && token_views(result->Ok_0@) == tokens,
            Err(e) => result == Err::<Vec<TokenType>, ParseError>(e),
        },
        result matches Ok(tokens) ==> tokens_fit_source(string@, token_views(tokens@)),
        result matches Ok(tokens) ==> in_order(token_views(tokens@)),
        result matches Err(e) ==> e == ParseError::InvalidType,
{
    let text = chars_of(string);
    tokenize_chars(&text)
}

/// The tokenizer fails with `InvalidType` or not at all.
pub proof fn lemma_lex_range_error(cur: Cursor, text: Seq<char>, from: int, to: int)
    ensures
        lex_range(cur, text, from, to) matches Err(e) ==> e == ParseError::InvalidType,
    decreases to - from,
{
    if from < to {
        lemma_lex_range_error(cur, text, from, to - 1);
    }
}

/// A run that has failed stays failed however far it is continued.
pub(crate) proof fn lemma_lex_range_fails(cur: Cursor, text: Seq<char>, from: int, mid: int, to: int)
    requires
        from <= mid <= to,
        lex_range(cur, text, from, mid) is Err,
    ensures
        lex_range(cur, text, from, to) == lex_range(cur, text, from, mid),
    decreases to - mid,
{
    if mid < to {
        lemma_lex_range_fails(cur, text, from, mid, to - 1);
    }
}

} // verus!
