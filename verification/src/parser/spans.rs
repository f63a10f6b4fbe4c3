//! Every token stands where its range says.
//!
//! The offsets of a token's range are offsets into the text that was
//! tokenized: the characters between them are the characters that the token
//! was made of. This holds whatever the line and column of the range say.
use crate::parser::tokenize::{
    char_range, decimal_value, default_token, default_tokens, is_decimal_text, is_digit,
    is_integer_text, lemma_decimal_value_grows, lex_char, lex_idle, lex_range, lex_step,
    number_token, one_char, position_at, start_cursor, tokenize_spec, Cursor, Pending, TokenView,
};
use crate::types::{Position, Range};
use vstd::prelude::*;

verus! {

/// Whether the offsets of `range` delimit a part of `text`.
pub open spec fn spans(text: Seq<char>, range: Range) -> bool {
    range.start.idx <= range.end.idx <= text.len()
}

/// What `text` holds between the offsets of `range`.
pub open spec fn source_of(text: Seq<char>, range: Range) -> Seq<char> {
    text.subrange(range.start.idx as int, range.end.idx as int)
}

/// Whether `range` covers exactly one character of `text`, which is `c`.
pub open spec fn covers_char(text: Seq<char>, range: Range, c: char) -> bool {
    &&& range.start.idx < text.len()
    &&& range.end.idx == range.start.idx + 1
    &&& text[range.start.idx as int] == c
}

/// Whether `token` stands in `text` where its range says.
///
/// - A brace or bracket covers the one character that it is.
/// - A string covers what lies between its quotes, and holds it.
/// - A comment covers what lies between `//` and the end of the line, and
///   holds it.
/// - A number covers the digits and points that it was read from; an integer
///   has their value, a float holds them.
/// - A literal covers its letters.
pub open spec fn token_fits_source(text: Seq<char>, token: TokenView) -> bool {
    match token {
        TokenView::Comma => true,
        TokenView::Colon => true,
        TokenView::ObjectOpen(range) => covers_char(text, range, '{'),
        TokenView::ObjectClose(range) => covers_char(text, range, '}'),
        TokenView::ArrayOpen(range) => covers_char(text, range, '['),
        TokenView::ArrayClose(range) => covers_char(text, range, ']'),
        TokenView::String(range, content) => {
            &&& spans(text, range)
            &&& 1 <= range.start.idx
            &&& range.end.idx < text.len()
            &&& text[range.start.idx - 1] == '"'
            &&& text[range.end.idx as int] == '"'
            &&& content == source_of(text, range)
        },
        TokenView::Comment(range, content) => {
            &&& spans(text, range)
            &&& 2 <= range.start.idx
            &&& range.end.idx < text.len()
            &&& text[range.start.idx - 2] == '/'
            &&& text[range.start.idx - 1] == '/'
            &&& text[range.end.idx as int] == '\n'
            &&& content == text.subrange(range.start.idx as int, range.end.idx as int)
            &&& forall|k: int| 0 <= k < content.len() ==> content[k] != '\n'
        },
        TokenView::Int(range, value) => {
            &&& spans(text, range)
            &&& is_integer_text(source_of(text, range))
            &&& value == decimal_value(source_of(text, range))
        },
        TokenView::Float(range, content) => {
            &&& spans(text, range)
            &&& content == source_of(text, range)
            &&& is_decimal_text(content)
            &&& !is_integer_text(content)
        },
        TokenView::Bool(range, value) => {
            &&& spans(text, range)
            &&& source_of(text, range) == if value {
                "true"@
            } else {
                "false"@
            }
        },
        TokenView::Null(range) => {
            &&& spans(text, range)
            &&& source_of(text, range) == "null"@
        },
    }
}

/// Whether each of `tokens` stands in `text` where its range says.
pub open spec fn tokens_fit_source(text: Seq<char>, tokens: Seq<TokenView>) -> bool {
    forall|i: int| 0 <= i < tokens.len() ==> token_fits_source(text, #[trigger] tokens[i])
}

/// Whether what is pending after the first `n` characters of `text` began
/// where its start says and holds what was read since.
spec fn pending_fits(text: Seq<char>, n: int, pending: Pending) -> bool {
    match pending {
        Pending::Idle => true,
        Pending::Slash => 1 <= n && text[n - 1] == '/',
        Pending::Comment { start, text: content } => {
            &&& 2 <= start.idx <= n
            &&& text[start.idx - 2] == '/'
            &&& text[start.idx - 1] == '/'
            &&& content == text.subrange(start.idx as int, n)
            &&& forall|k: int| 0 <= k < content.len() ==> content[k] != '\n'
        },
        Pending::Text { start, text: content, escaped } => {
            &&& 1 <= start.idx <= n
            &&& text[start.idx - 1] == '"'
            &&& content == text.subrange(start.idx as int, n)
        },
        Pending::Number { start, text: content } => {
            &&& start.idx <= n
            &&& content == text.subrange(start.idx as int, n)
        },
        Pending::Bool { start, text: content } => {
            &&& start.idx <= n
            &&& content == text.subrange(start.idx as int, n)
        },
        Pending::Null { start, text: content } => {
            &&& start.idx <= n
            &&& content == text.subrange(start.idx as int, n)
        },
    }
}

/// Whether the cursor after the first `n` characters of `text` is in step
/// with the text.
spec fn cursor_fits(text: Seq<char>, n: int, cur: Cursor) -> bool {
    &&& 0 <= cur.line <= n
    &&& 0 <= cur.column <= n
    &&& pending_fits(text, n, cur.pending)
}

/// One more character of the text is one more character of what was read.
proof fn lemma_source_grows(text: Seq<char>, from: int, n: int)
    requires
        0 <= from <= n < text.len(),
    ensures
        text.subrange(from, n + 1) == text.subrange(from, n).push(text[n]),
{
    assert(text.subrange(from, n + 1) =~= text.subrange(from, n).push(text[n]));
}

/// A structural character is a token that covers it.
proof fn lemma_default_tokens_fit(text: Seq<char>, n: int, here: Position)
    requires
        0 <= n < text.len() <= usize::MAX,
        here.idx == n,
    ensures
        tokens_fit_source(text, default_tokens(text[n], here)),
{
    let c = text[n];
    let range = char_range(here);
    assert(range.start.idx == n);
    assert(range.end.idx == n + 1);
    match default_token(c, here) {
        Some(token) => {
            assert(token_fits_source(text, token));
            assert(default_tokens(c, here)[0] == token);
        },
        None => {},
    }
}

/// A token that fits, followed by tokens that fit, are tokens that fit.
proof fn lemma_fit_after(text: Seq<char>, first: TokenView, rest: Seq<TokenView>)
    requires
        token_fits_source(text, first),
        tokens_fit_source(text, rest),
    ensures
        tokens_fit_source(text, seq![first] + rest),
{
    let all = seq![first] + rest;
    assert forall|i: int| 0 <= i < all.len() implies token_fits_source(text, #[trigger] all[i]) by {
        if i > 0 {
            assert(all[i] == rest[i - 1]);
        }
    }
}

/// Tokens that fit, followed by tokens that fit, are tokens that fit.
proof fn lemma_fit_concat(text: Seq<char>, front: Seq<TokenView>, back: Seq<TokenView>)
    requires
        tokens_fit_source(text, front),
        tokens_fit_source(text, back),
    ensures
        tokens_fit_source(text, front + back),
{
    let all = front + back;
    assert forall|i: int| 0 <= i < all.len() implies token_fits_source(text, #[trigger] all[i]) by {
        if i < front.len() {
            assert(all[i] == front[i]);
        } else {
            assert(all[i] == back[i - front.len()]);
        }
    }
}

/// A character met while nothing is pending leaves the cursor in step and
/// makes only tokens that fit.
proof fn lemma_idle_fits(text: Seq<char>, n: int, here: Position)
    requires
        0 <= n < text.len() <= usize::MAX,
        here.idx == n,
    ensures
        pending_fits(text, n + 1, lex_idle(text[n], here).0),
        tokens_fit_source(text, lex_idle(text[n], here).1),
{
    let c = text[n];
    lemma_default_tokens_fit(text, n, here);
    assert(text.subrange(n + 1, n + 1) =~= Seq::<char>::empty());
    assert(text.subrange(n, n + 1) =~= seq![c]);
    assert(here.offset_by(one_char()).idx == n + 1);
}

/// One step of the tokenizer leaves the cursor in step with the text and
/// makes only tokens that fit.
proof fn lemma_step_fits(text: Seq<char>, n: int, cur: Cursor)
    requires
        0 <= n < text.len() <= usize::MAX,
        cursor_fits(text, n, cur),
        lex_step(cur, text[n], n) is Ok,
    ensures
        cursor_fits(text, n + 1, lex_step(cur, text[n], n)->Ok_0.cursor),
        tokens_fit_source(text, lex_step(cur, text[n], n)->Ok_0.tokens),
{
    let c = text[n];
    let here = position_at(cur.line, cur.column, n);
    let (pending, tokens) = lex_char(cur.pending, c, here)->Ok_0;
    assert(here.idx == n);
    assert(here.offset_by(one_char()).idx == n + 1);
    lemma_default_tokens_fit(text, n, here);
    match cur.pending {
        Pending::Idle => {
            lemma_idle_fits(text, n, here);
        },
        Pending::Slash => {
            if c == '/' {
                assert(text.subrange(n + 1, n + 1) =~= Seq::<char>::empty());
            } else {
                lemma_idle_fits(text, n, here);
            }
        },
        Pending::Comment { start, text: content } => {
            lemma_source_grows(text, start.idx as int, n);
            if c == '\n' {
                let token = TokenView::Comment(Range { start, end: here }, content);
                assert(token_fits_source(text, token));
                assert(tokens[0] == token);
            } else {
                let longer = content.push(c);
                assert forall|k: int| 0 <= k < longer.len() implies longer[k] != '\n' by {
                    if k < content.len() {
                        assert(longer[k] == content[k]);
                    }
                }
            }
        },
        Pending::Text { start, text: content, escaped } => {
            lemma_source_grows(text, start.idx as int, n);
            if !(!escaped && c == '\\') && !escaped && c == '"' {
                let token = TokenView::String(Range { start, end: here }, content);
                assert(token_fits_source(text, token));
                assert(tokens[0] == token);
            }
        },
        Pending::Number { start, text: content } => {
            lemma_source_grows(text, start.idx as int, n);
            if !(is_digit(c) || c == '.') {
                let range = Range { start, end: here };
                let token = number_token(content, range)->Some_0;
                assert(source_of(text, range) == content);
                if is_integer_text(content) {
                    lemma_decimal_value_grows(content);
                }
                assert(token_fits_source(text, token));
                lemma_fit_after(text, token, default_tokens(c, here));
            }
        },
        Pending::Bool { start, text: content } => {
            lemma_source_grows(text, start.idx as int, n);
            if content == "true"@ || content == "false"@ {
                let range = Range { start, end: here };
                let token = TokenView::Bool(range, content == "true"@);
                assert(source_of(text, range) == content);
                assert(token_fits_source(text, token));
                lemma_fit_after(text, token, default_tokens(c, here));
            }
        },
        Pending::Null { start, text: content } => {
            lemma_source_grows(text, start.idx as int, n);
            if content == "null"@ {
                let range = Range { start, end: here };
                let token = TokenView::Null(range);
                assert(source_of(text, range) == content);
                assert(token_fits_source(text, token));
                lemma_fit_after(text, token, default_tokens(c, here));
            }
        },
    }
}

/// A run of the tokenizer from the start of the text leaves the cursor in
/// step with the text and makes only tokens that fit.
proof fn lemma_run_fits(text: Seq<char>, n: int)
    requires
        0 <= n <= text.len() <= usize::MAX,
        lex_range(start_cursor(), text, 0, n) is Ok,
    ensures
        cursor_fits(text, n, lex_range(start_cursor(), text, 0, n)->Ok_0.cursor),
        tokens_fit_source(text, lex_range(start_cursor(), text, 0, n)->Ok_0.tokens),
    decreases n,
{
    if n > 0 {
        let done = lex_range(start_cursor(), text, 0, n - 1)->Ok_0;
        lemma_run_fits(text, n - 1);
        lemma_step_fits(text, n - 1, done.cursor);
        lemma_fit_concat(text, done.tokens, lex_step(done.cursor, text[n - 1], n - 1)->Ok_0.tokens);
    }
}

/// The offsets of every token's range are the offsets of the characters that
/// the token was made of.
///
/// For every text that can be held in memory and every token that the
/// tokenizer makes of it, the token stands in the text where its range says.
pub proof fn lemma_tokens_fit_source(text: Seq<char>)
    requires
        text.len() <= usize::MAX,
    ensures
        tokenize_spec(text) matches Ok(tokens) ==> tokens_fit_source(text, tokens),
{
    if tokenize_spec(text) is Ok {
        lemma_run_fits(text, text.len() as int);
    }
}

} // verus!
