//! A document that is written out is read back.
//!
//! [`text_of`] writes a JSON value in the compact form, without any space.
//! The law proved here closes the circle: the text of an object is parsed
//! into a tree whose root stands for that object.
use crate::comments::{lemma_lex_range_split, lemma_without_comments_keeps};
use crate::meaning::{
    distinct_keys, lemma_object_is_built, nowhere, root_of, tokens_of, tokens_of_elements,
    tokens_of_fields, value_of, Elements, Fields, Json,
};
use crate::parser::alike::{lemma_same_tokens_concat, same_token, same_tokens};
use crate::parser::order::lemma_no_more_tokens_than_characters;
use crate::parser::tokenize::{
    all_digits, decimal_value, default_tokens, digit_value, is_decimal_text, is_digit,
    is_integer_text, lex_range, lex_step, number_token, position_at, start_cursor, tokenize_spec,
    Cursor, Lexed, Pending, TokenView,
};
use crate::types::{ParseError, Range};
use crate::{document_tree, without_comments};
use vstd::prelude::*;

verus! {

/// The digit for a number below ten.
pub open spec fn digit_for(d: nat) -> char {
    ('0' as int + d) as char
}

/// The decimal digits of a number, most significant first, without leading
/// zeros.
pub open spec fn digits_of(n: nat) -> Seq<char>
    decreases n,
{
    if n < 10 {
        seq![digit_for(n)]
    } else {
        digits_of(n / 10).push(digit_for(n % 10))
    }
}

/// The digits of a number are digits, and they write that number.
pub proof fn lemma_digits_of(n: nat)
    ensures
        digits_of(n).len() >= 1,
        all_digits(digits_of(n)),
        decimal_value(digits_of(n)) == n,
    decreases n,
{
    if n < 10 {
        let one = seq![digit_for(n)];
        assert(one.drop_last() =~= Seq::<char>::empty());
        assert(decimal_value(one.drop_last()) == 0);
        assert(digit_value(digit_for(n)) == n);
        assert(is_digit(one[0]));
    } else {
        lemma_digits_of(n / 10);
        let front = digits_of(n / 10);
        let all = front.push(digit_for(n % 10));
        assert(all.drop_last() =~= front);
        assert(digit_value(digit_for(n % 10)) == n % 10);
        assert forall|i: int| 0 <= i < all.len() implies is_digit(#[trigger] all[i]) by {
            if i < front.len() {
                assert(all[i] == front[i]);
            }
        }
    }
}

/// Whether the character behind `text` in a string is escaped: whether
/// `text` ends with a backslash that is not escaped itself.
pub open spec fn escapes_next(text: Seq<char>) -> bool
    decreases text.len(),
{
    if text.len() == 0 {
        false
    } else {
        !escapes_next(text.drop_last()) && text.last() == '\\'
    }
}

/// Whether `text` can stand between two quotes and be read back as it is:
/// every quote in it is escaped, and it does not escape the quote that
/// closes it.
pub open spec fn is_string_content(text: Seq<char>) -> bool {
    &&& forall|k: int| 0 <= k < text.len() && #[trigger] text[k] == '"' ==> escapes_next(text.take(k))
    &&& !escapes_next(text)
}

/// Whether `text` is how a number that is not a 64-bit integer is written:
/// it starts with a digit and is a decimal number.
pub open spec fn is_float_text(text: Seq<char>) -> bool {
    &&& text.len() > 0
    &&& is_digit(text[0])
    &&& is_decimal_text(text)
    &&& !is_integer_text(text)
}

/// Whether a value can be written and read back: no integer is negative,
/// every float is written as one, and every string and key can stand between
/// quotes.
pub open spec fn writable(value: Json) -> bool
    decreases value,
{
    match value {
        Json::Object(fields) => writable_fields(fields),
        Json::Array(elements) => writable_elements(elements),
        Json::String(text) => is_string_content(text),
        Json::Int(number) => number >= 0,
        Json::Float(text) => is_float_text(text),
        Json::Bool(_) => true,
        Json::Null => true,
    }
}

/// Whether every key and value of the fields can be written and read back.
pub open spec fn writable_fields(fields: Fields) -> bool
    decreases fields,
{
    match fields {
        Fields::End => true,
        Fields::Field(name, value, rest) => is_string_content(name) && writable(*value)
            && writable_fields(*rest),
    }
}

/// Whether every element can be written and read back.
pub open spec fn writable_elements(elements: Elements) -> bool
    decreases elements,
{
    match elements {
        Elements::End => true,
        Elements::Element(value, rest) => writable(*value) && writable_elements(*rest),
    }
}

/// A value in the compact form.
pub open spec fn text_of(value: Json) -> Seq<char>
    decreases value,
{
    match value {
        Json::Object(fields) => seq!['{'] + text_of_fields(fields) + seq!['}'],
        Json::Array(elements) => seq!['['] + text_of_elements(elements) + seq![']'],
        Json::String(text) => seq!['"'] + text + seq!['"'],
        Json::Int(number) => digits_of(number as nat),
        Json::Float(text) => text,
        Json::Bool(truth) => if truth {
            "true"@
        } else {
            "false"@
        },
        Json::Null => "null"@,
    }
}

/// Fields in the compact form: each key in quotes, a colon, the value, and a
/// comma between one field and the next.
pub open spec fn text_of_fields(fields: Fields) -> Seq<char>
    decreases fields,
{
    match fields {
        Fields::End => Seq::empty(),
        Fields::Field(name, value, rest) => seq!['"'] + name + seq!['"', ':'] + text_of(*value) + (
        if *rest is End {
            Seq::empty()
        } else {
            seq![','] + text_of_fields(*rest)
        }),
    }
}

/// Elements in the compact form: the values, and a comma between one element
/// and the next.
pub open spec fn text_of_elements(elements: Elements) -> Seq<char>
    decreases elements,
{
    match elements {
        Elements::End => Seq::empty(),
        Elements::Element(value, rest) => text_of(*value) + (if *rest is End {
            Seq::empty()
        } else {
            seq![','] + text_of_elements(*rest)
        }),
    }
}

/// Whether `part` stands in `text` from offset `at` on.
pub open spec fn stands_at(text: Seq<char>, at: int, part: Seq<char>) -> bool {
    &&& 0 <= at
    &&& at + part.len() <= text.len()
    &&& text.subrange(at, at + part.len()) == part
}

/// Where two parts stand one after the other, each of them stands.
proof fn lemma_stands_split(text: Seq<char>, at: int, front: Seq<char>, back: Seq<char>)
    requires
        stands_at(text, at, front + back),
    ensures
        stands_at(text, at, front),
        stands_at(text, at + front.len(), back),
{
    let whole = text.subrange(at, at + (front + back).len());
    assert(text.subrange(at, at + front.len()) =~= front) by {
        assert forall|i: int| 0 <= i < front.len() implies text[at + i] == front[i] by {
            assert(whole[i] == (front + back)[i]);
        }
    }
    assert(text.subrange(at + front.len(), at + front.len() + back.len()) =~= back) by {
        assert forall|i: int| 0 <= i < back.len() implies text[at + front.len() + i] == back[i] by {
            assert(whole[front.len() + i] == (front + back)[front.len() + i]);
        }
    }
}

/// Where a part stands, each of its characters stands at its offset.
proof fn lemma_stands_char(text: Seq<char>, at: int, part: Seq<char>, i: int)
    requires
        stands_at(text, at, part),
        0 <= i < part.len(),
    ensures
        text[at + i] == part[i],
{
    assert(text.subrange(at, at + part.len())[i] == part[i]);
}

/// Whether the tokenizer, with nothing pending, reads the characters from
/// `from` up to `to` as tokens that are alike `expected`, and has nothing
/// pending behind them.
#[verifier::opaque]
pub open spec fn reads(
    cur: Cursor,
    text: Seq<char>,
    from: int,
    to: int,
    expected: Seq<TokenView>,
) -> bool {
    lex_range(cur, text, from, to) matches Ok(done) && done.cursor.pending is Idle && same_tokens(
        done.tokens,
        expected,
    )
}

/// The cursor behind a stretch that was read.
pub open spec fn behind(cur: Cursor, text: Seq<char>, from: int, to: int) -> Cursor {
    lex_range(cur, text, from, to)->Ok_0.cursor
}

/// Behind a stretch that was read nothing is pending.
proof fn lemma_reads_idle(cur: Cursor, text: Seq<char>, from: int, to: int)
    requires
        exists|expected: Seq<TokenView>| reads(cur, text, from, to, expected),
    ensures
        behind(cur, text, from, to).pending is Idle,
{
    reveal(reads);
}

/// What is read over a stretch, followed by what is read over the next, is
/// what is read over both.
proof fn lemma_reads_then(
    cur: Cursor,
    text: Seq<char>,
    from: int,
    mid: int,
    to: int,
    first: Seq<TokenView>,
    second: Seq<TokenView>,
)
    requires
        from <= mid <= to,
        reads(cur, text, from, mid, first),
        reads(behind(cur, text, from, mid), text, mid, to, second),
    ensures
        reads(cur, text, from, to, first + second),
        behind(cur, text, from, to) == behind(behind(cur, text, from, mid), text, mid, to),
{
    reveal(reads);
    lemma_lex_range_split(cur, text, from, mid, to);
    let one = lex_range(cur, text, from, mid)->Ok_0;
    let two = lex_range(one.cursor, text, mid, to)->Ok_0;
    lemma_same_tokens_concat(one.tokens, first, two.tokens, second);
}

/// Whether `c` is one of the six structural characters.
pub open spec fn is_structural(c: char) -> bool {
    c == '{' || c == '}' || c == '[' || c == ']' || c == ',' || c == ':'
}

/// The token that a structural character is read as, its range left aside.
pub open spec fn token_for(c: char) -> TokenView {
    if c == '{' {
        TokenView::ObjectOpen(nowhere())
    } else if c == '}' {
        TokenView::ObjectClose(nowhere())
    } else if c == '[' {
        TokenView::ArrayOpen(nowhere())
    } else if c == ']' {
        TokenView::ArrayClose(nowhere())
    } else if c == ',' {
        TokenView::Comma
    } else {
        TokenView::Colon
    }
}

/// What a structural character makes wherever it stands is alike the token
/// for it.
proof fn lemma_default_alike(c: char, here: crate::types::Position)
    requires
        is_structural(c),
    ensures
        same_tokens(default_tokens(c, here), seq![token_for(c)]),
{
}

/// A structural character that is met with nothing pending is read as the
/// token for it.
proof fn lemma_reads_char(cur: Cursor, text: Seq<char>, at: int)
    requires
        cur.pending is Idle,
        is_structural(text[at]),
    ensures
        reads(cur, text, at, at + 1, seq![token_for(text[at])]),
{
    reveal(reads);
    let here = position_at(cur.line, cur.column, at);
    lemma_default_alike(text[at], here);
    assert(lex_range(cur, text, at, at) == Ok::<Lexed, ParseError>(
        Lexed { cursor: cur, tokens: Seq::empty() },
    ));
    let step = lex_step(cur, text[at], at)->Ok_0;
    assert(Seq::<TokenView>::empty() + step.tokens =~= step.tokens);
}

/// The content of a string is gathered as it stands, character by character.
proof fn lemma_text_run(cur: Cursor, text: Seq<char>, from: int, content: Seq<char>, n: int)
    requires
        cur.pending matches Pending::Text { text: got, escaped, .. } && got.len() == 0 && !escaped,
        stands_at(text, from, content),
        is_string_content(content),
        0 <= n <= content.len(),
    ensures
        lex_range(cur, text, from, from + n) matches Ok(done) && done.tokens.len() == 0 && (
        done.cursor.pending matches Pending::Text { start, text: got, escaped } && start
            == cur.pending->Text_start && got == content.take(n) && escaped == escapes_next(
            content.take(n),
        )),
    decreases n,
{
    if n == 0 {
        assert(content.take(0) =~= Seq::<char>::empty());
        assert(cur.pending->Text_text =~= Seq::<char>::empty());
    } else {
        lemma_text_run(cur, text, from, content, n - 1);
        lemma_stands_char(text, from, content, n - 1);
        let done = lex_range(cur, text, from, from + n - 1)->Ok_0;
        let c = content[n - 1];
        assert(content.take(n).drop_last() =~= content.take(n - 1));
        assert(content.take(n - 1).push(c) =~= content.take(n));
        assert(content.take(n).last() == c);
        if c == '"' {
            assert(escapes_next(content.take(n - 1)));
        }
        let step = lex_step(done.cursor, c, from + n - 1)->Ok_0;
        assert(done.tokens + step.tokens =~= Seq::<TokenView>::empty());
    }
}

/// A string between its quotes is read as a string token with that content.
proof fn lemma_reads_string(cur: Cursor, text: Seq<char>, at: int, content: Seq<char>)
    requires
        cur.pending is Idle,
        stands_at(text, at, seq!['"'] + content + seq!['"']),
        is_string_content(content),
    ensures
        reads(
            cur,
            text,
            at,
            at + content.len() + 2,
            seq![TokenView::String(nowhere(), content)],
        ),
{
    reveal(reads);
    let quote = seq!['"'];
    lemma_stands_split(text, at, quote + content, quote);
    lemma_stands_split(text, at, quote, content);
    lemma_stands_char(text, at, quote, 0);
    lemma_stands_char(text, at + 1 + content.len(), quote, 0);
    let close = at + 1 + content.len();
    assert(lex_range(cur, text, at, at) == Ok::<Lexed, ParseError>(
        Lexed { cursor: cur, tokens: Seq::empty() },
    ));
    let opened = lex_range(cur, text, at, at + 1)->Ok_0;
    assert(opened.tokens =~= Seq::<TokenView>::empty());
    assert(opened.cursor.pending->Text_text =~= Seq::<char>::empty());
    lemma_text_run(opened.cursor, text, at + 1, content, content.len() as int);
    let filled = lex_range(opened.cursor, text, at + 1, close)->Ok_0;
    assert(content.take(content.len() as int) =~= content);
    lemma_lex_range_split(cur, text, at, at + 1, close);
    let before = lex_range(cur, text, at, close)->Ok_0;
    assert(before.tokens =~= Seq::<TokenView>::empty());
    assert(before.cursor == filled.cursor);
    let step = lex_step(before.cursor, text[close], close)->Ok_0;
    let all = lex_range(cur, text, at, close + 1)->Ok_0;
    assert(all.tokens =~= step.tokens);
    assert(step.tokens.len() == 1);
    assert(same_token(step.tokens[0], TokenView::String(nowhere(), content)));
}

/// The digits and points of a number are gathered as they stand.
proof fn lemma_number_run(cur: Cursor, text: Seq<char>, from: int, digits: Seq<char>, n: int)
    requires
        cur.pending is Idle,
        stands_at(text, from, digits),
        digits.len() > 0,
        is_digit(digits[0]),
        forall|i: int| 0 <= i < digits.len() ==> is_digit(#[trigger] digits[i]) || digits[i] == '.',
        1 <= n <= digits.len(),
    ensures
        lex_range(cur, text, from, from + n) matches Ok(done) && done.tokens.len() == 0 && (
        done.cursor.pending matches Pending::Number { text: got, .. } && got == digits.take(n)),
    decreases n,
{
    lemma_stands_char(text, from, digits, n - 1);
    if n == 1 {
        assert(lex_range(cur, text, from, from) == Ok::<Lexed, ParseError>(
            Lexed { cursor: cur, tokens: Seq::empty() },
        ));
        let done = lex_range(cur, text, from, from + 1)->Ok_0;
        assert(done.tokens =~= Seq::<TokenView>::empty());
        assert(digits.take(1) =~= seq![digits[0]]);
    } else {
        lemma_number_run(cur, text, from, digits, n - 1);
        let done = lex_range(cur, text, from, from + n - 1)->Ok_0;
        let c = digits[n - 1];
        assert(is_digit(c) || c == '.');
        assert(content_grows(digits, n));
        let step = lex_step(done.cursor, c, from + n - 1)->Ok_0;
        assert(done.tokens + step.tokens =~= Seq::<TokenView>::empty());
    }
}

/// One more character of a text is one more character of what was taken of
/// it.
spec fn content_grows(content: Seq<char>, n: int) -> bool {
    content.take(n - 1).push(content[n - 1]) =~= content.take(n)
}

/// A number and the structural character behind it are read as the token
/// of the number and the token for the character.
proof fn lemma_reads_number(
    cur: Cursor,
    text: Seq<char>,
    at: int,
    digits: Seq<char>,
    follower: char,
)
    requires
        cur.pending is Idle,
        stands_at(text, at, digits.push(follower)),
        is_structural(follower),
        digits.len() > 0,
        is_digit(digits[0]),
        forall|i: int| 0 <= i < digits.len() ==> is_digit(#[trigger] digits[i]) || digits[i] == '.',
        number_token(digits, nowhere()) is Some,
    ensures
        reads(
            cur,
            text,
            at,
            at + digits.len() + 1,
            seq![number_token(digits, nowhere())->Some_0, token_for(follower)],
        ),
{
    reveal(reads);
    let len = digits.len() as int;
    assert(digits.push(follower) =~= digits + seq![follower]);
    lemma_stands_split(text, at, digits, seq![follower]);
    lemma_stands_char(text, at + len, seq![follower], 0);
    lemma_number_run(cur, text, at, digits, len);
    assert(digits.take(len) =~= digits);
    let done = lex_range(cur, text, at, at + len)->Ok_0;
    let here = position_at(done.cursor.line, done.cursor.column, at + len);
    let start = done.cursor.pending->Number_start;
    let token = number_token(digits, Range { start, end: here })->Some_0;
    lemma_default_alike(follower, here);
    let step = lex_step(done.cursor, follower, at + len)->Ok_0;
    let all = lex_range(cur, text, at, at + len + 1)->Ok_0;
    assert(all.tokens =~= step.tokens);
    assert(step.tokens == seq![token] + default_tokens(follower, here));
    assert(same_token(token, number_token(digits, nowhere())->Some_0));
    lemma_same_tokens_concat(
        seq![token],
        seq![number_token(digits, nowhere())->Some_0],
        default_tokens(follower, here),
        seq![token_for(follower)],
    );
    assert(seq![number_token(digits, nowhere())->Some_0] + seq![token_for(follower)] =~= seq![
        number_token(digits, nowhere())->Some_0,
        token_for(follower),
    ]);
}

/// The word that a truth value is written as.
pub open spec fn word_for(truth: bool) -> Seq<char> {
    if truth {
        "true"@
    } else {
        "false"@
    }
}

/// The letters of `true` and `false`.
proof fn lemma_words()
    ensures
        "true"@ =~= seq!['t', 'r', 'u', 'e'],
        "false"@ =~= seq!['f', 'a', 'l', 's', 'e'],
        "null"@ =~= seq!['n', 'u', 'l', 'l'],
{
    reveal_strlit("true");
    reveal_strlit("false");
    reveal_strlit("null");
}

/// The letters of `true` or `false` are gathered as they stand.
proof fn lemma_bool_run(cur: Cursor, text: Seq<char>, from: int, truth: bool, n: int)
    requires
        cur.pending is Idle,
        stands_at(text, from, word_for(truth)),
        1 <= n <= word_for(truth).len(),
    ensures
        lex_range(cur, text, from, from + n) matches Ok(done) && done.tokens.len() == 0 && (
        done.cursor.pending matches Pending::Bool { text: got, .. } && got == word_for(truth).take(
            n,
        )),
    decreases n,
{
    let word = word_for(truth);
    lemma_words();
    lemma_stands_char(text, from, word, n - 1);
    if n == 1 {
        assert(lex_range(cur, text, from, from) == Ok::<Lexed, ParseError>(
            Lexed { cursor: cur, tokens: Seq::empty() },
        ));
        let done = lex_range(cur, text, from, from + 1)->Ok_0;
        assert(done.tokens =~= Seq::<TokenView>::empty());
        assert(word.take(1) =~= seq![word[0]]);
    } else {
        lemma_bool_run(cur, text, from, truth, n - 1);
        let done = lex_range(cur, text, from, from + n - 1)->Ok_0;
        let got = word.take(n - 1);
        let c = word[n - 1];
        assert(content_grows(word, n));
        assert(got.len() == n - 1);
        assert(got[0] == word[0]);
        assert(got != "true"@ && got != "false"@) by {
            if got == "true"@ {
                assert(got[0] == "true"@[0]);
            }
            if got == "false"@ {
                assert(got[0] == "false"@[0]);
            }
        }
        assert(got.is_prefix_of(word));
        assert(c != '\n');
        let step = lex_step(done.cursor, c, from + n - 1)->Ok_0;
        assert(done.tokens + step.tokens =~= Seq::<TokenView>::empty());
    }
}

/// `true` or `false` and the structural character behind it are read as the
/// token of the truth value and the token for the character.
proof fn lemma_reads_bool(cur: Cursor, text: Seq<char>, at: int, truth: bool, follower: char)
    requires
        cur.pending is Idle,
        stands_at(text, at, word_for(truth).push(follower)),
        is_structural(follower),
    ensures
        reads(
            cur,
            text,
            at,
            at + word_for(truth).len() + 1,
            seq![TokenView::Bool(nowhere(), truth), token_for(follower)],
        ),
{
    reveal(reads);
    let word = word_for(truth);
    let len = word.len() as int;
    lemma_words();
    assert(word.push(follower) =~= word + seq![follower]);
    lemma_stands_split(text, at, word, seq![follower]);
    lemma_stands_char(text, at + len, seq![follower], 0);
    lemma_bool_run(cur, text, at, truth, len);
    assert(word.take(len) =~= word);
    let done = lex_range(cur, text, at, at + len)->Ok_0;
    let here = position_at(done.cursor.line, done.cursor.column, at + len);
    let start = done.cursor.pending->Bool_start;
    let token = TokenView::Bool(Range { start, end: here }, truth);
    assert((word == "true"@) == truth) by {
        if !truth {
            assert("false"@[0] != "true"@[0]);
        }
    }
    lemma_default_alike(follower, here);
    let step = lex_step(done.cursor, follower, at + len)->Ok_0;
    let all = lex_range(cur, text, at, at + len + 1)->Ok_0;
    assert(all.tokens =~= step.tokens);
    assert(step.tokens == seq![token] + default_tokens(follower, here));
    lemma_same_tokens_concat(
        seq![token],
        seq![TokenView::Bool(nowhere(), truth)],
        default_tokens(follower, here),
        seq![token_for(follower)],
    );
    assert(seq![TokenView::Bool(nowhere(), truth)] + seq![token_for(follower)] =~= seq![
        TokenView::Bool(nowhere(), truth),
        token_for(follower),
    ]);
}

/// The letters of `null` are gathered as they stand.
proof fn lemma_null_run(cur: Cursor, text: Seq<char>, from: int, n: int)
    requires
        cur.pending is Idle,
        stands_at(text, from, "null"@),
        1 <= n <= 4,
    ensures
        lex_range(cur, text, from, from + n) matches Ok(done) && done.tokens.len() == 0 && (
        done.cursor.pending matches Pending::Null { text: got, .. } && got == "null"@.take(n)),
    decreases n,
{
    let word = "null"@;
    lemma_words();
    lemma_stands_char(text, from, word, n - 1);
    if n == 1 {
        assert(lex_range(cur, text, from, from) == Ok::<Lexed, ParseError>(
            Lexed { cursor: cur, tokens: Seq::empty() },
        ));
        let done = lex_range(cur, text, from, from + 1)->Ok_0;
        assert(done.tokens =~= Seq::<TokenView>::empty());
        assert(word.take(1) =~= seq![word[0]]);
    } else {
        lemma_null_run(cur, text, from, n - 1);
        let done = lex_range(cur, text, from, from + n - 1)->Ok_0;
        let got = word.take(n - 1);
        let c = word[n - 1];
        assert(content_grows(word, n));
        assert(got.len() == n - 1);
        assert(got != word);
        assert(got.is_prefix_of(word));
        assert(c != '\n');
        let step = lex_step(done.cursor, c, from + n - 1)->Ok_0;
        assert(done.tokens + step.tokens =~= Seq::<TokenView>::empty());
    }
}

/// `null` and the structural character behind it are read as the token of
/// `null` and the token for the character.
proof fn lemma_reads_null(cur: Cursor, text: Seq<char>, at: int, follower: char)
    requires
        cur.pending is Idle,
        stands_at(text, at, "null"@.push(follower)),
        is_structural(follower),
    ensures
        reads(cur, text, at, at + 5, seq![TokenView::Null(nowhere()), token_for(follower)]),
{
    reveal(reads);
    let word = "null"@;
    lemma_words();
    assert(word.push(follower) =~= word + seq![follower]);
    lemma_stands_split(text, at, word, seq![follower]);
    lemma_stands_char(text, at + 4, seq![follower], 0);
    lemma_null_run(cur, text, at, 4);
    assert(word.take(4) =~= word);
    let done = lex_range(cur, text, at, at + 4)->Ok_0;
    let here = position_at(done.cursor.line, done.cursor.column, at + 4);
    let start = done.cursor.pending->Null_start;
    let token = TokenView::Null(Range { start, end: here });
    lemma_default_alike(follower, here);
    let step = lex_step(done.cursor, follower, at + 4)->Ok_0;
    let all = lex_range(cur, text, at, at + 5)->Ok_0;
    assert(all.tokens =~= step.tokens);
    assert(step.tokens == seq![token] + default_tokens(follower, here));
    lemma_same_tokens_concat(
        seq![token],
        seq![TokenView::Null(nowhere())],
        default_tokens(follower, here),
        seq![token_for(follower)],
    );
    assert(seq![TokenView::Null(nowhere())] + seq![token_for(follower)] =~= seq![
        TokenView::Null(nowhere()),
        token_for(follower),
    ]);
}

/// Whether none of the tokens is a comment.
spec fn no_comment(tokens: Seq<TokenView>) -> bool {
    forall|i: int| 0 <= i < tokens.len() ==> !(#[trigger] tokens[i] is Comment)
}

/// Tokens without a comment, followed by tokens without a comment, are
/// without a comment.
proof fn lemma_no_comment_concat(front: Seq<TokenView>, back: Seq<TokenView>)
    requires
        no_comment(front),
        no_comment(back),
    ensures
        no_comment(front + back),
{
    assert forall|i: int| 0 <= i < (front + back).len() implies !(#[trigger] (front + back)[i]
        is Comment) by {
        if i < front.len() {
            assert((front + back)[i] == front[i]);
        } else {
            assert((front + back)[i] == back[i - front.len()]);
        }
    }
}

/// No value is written with a comment.
proof fn lemma_tokens_of_hold_no_comment(value: Json)
    ensures
        no_comment(tokens_of(value)),
    decreases value,
{
    match value {
        Json::Object(fields) => {
            lemma_fields_hold_no_comment(fields);
            let open = seq![TokenView::ObjectOpen(nowhere())];
            let shut = seq![TokenView::ObjectClose(nowhere())];
            lemma_no_comment_concat(open, tokens_of_fields(fields));
            lemma_no_comment_concat(open + tokens_of_fields(fields), shut);
        },
        Json::Array(elements) => {
            lemma_elements_hold_no_comment(elements);
            let open = seq![TokenView::ArrayOpen(nowhere())];
            let shut = seq![TokenView::ArrayClose(nowhere())];
            lemma_no_comment_concat(open, tokens_of_elements(elements));
            lemma_no_comment_concat(open + tokens_of_elements(elements), shut);
        },
        _ => {},
    }
}

/// No field is written with a comment.
proof fn lemma_fields_hold_no_comment(fields: Fields)
    ensures
        no_comment(tokens_of_fields(fields)),
    decreases fields,
{
    match fields {
        Fields::End => {},
        Fields::Field(name, value, rest) => {
            let head = seq![TokenView::String(nowhere(), name), TokenView::Colon];
            lemma_tokens_of_hold_no_comment(*value);
            lemma_no_comment_concat(head, tokens_of(*value));
            if *rest is End {
                lemma_no_comment_concat(head + tokens_of(*value), Seq::empty());
            } else {
                lemma_fields_hold_no_comment(*rest);
                let comma = seq![TokenView::Comma];
                lemma_no_comment_concat(comma, tokens_of_fields(*rest));
                lemma_no_comment_concat(head + tokens_of(*value), comma + tokens_of_fields(*rest));
            }
        },
    }
}

/// No element is written with a comment.
proof fn lemma_elements_hold_no_comment(elements: Elements)
    ensures
        no_comment(tokens_of_elements(elements)),
    decreases elements,
{
    match elements {
        Elements::End => {},
        Elements::Element(value, rest) => {
            lemma_tokens_of_hold_no_comment(*value);
            if *rest is End {
                lemma_no_comment_concat(tokens_of(*value), Seq::empty());
            } else {
                lemma_elements_hold_no_comment(*rest);
                let comma = seq![TokenView::Comma];
                lemma_no_comment_concat(comma, tokens_of_elements(*rest));
                lemma_no_comment_concat(tokens_of(*value), comma + tokens_of_elements(*rest));
            }
        },
    }
}

/// A value that is written, and the structural character behind it, are
/// read as the tokens of the value and the token for the character.
#[verifier::rlimit(40)]
proof fn lemma_reads_value(cur: Cursor, text: Seq<char>, at: int, value: Json, follower: char)
    requires
        cur.pending is Idle,
        writable(value),
        stands_at(text, at, text_of(value).push(follower)),
        is_structural(follower),
    ensures
        reads(
            cur,
            text,
            at,
            at + text_of(value).len() + 1,
            tokens_of(value).push(token_for(follower)),
        ),
    decreases value,
{
    let written = text_of(value);
    let len = written.len() as int;
    let last = seq![token_for(follower)];
    assert(written.push(follower) =~= written + seq![follower]);
    lemma_stands_split(text, at, written, seq![follower]);
    lemma_stands_char(text, at + len, seq![follower], 0);
    assert(tokens_of(value).push(token_for(follower)) =~= tokens_of(value) + last);
    match value {
        Json::Object(fields) => {
            let inside = text_of_fields(fields);
            assert(written == seq!['{'] + inside + seq!['}']);
            assert(seq!['{'] + inside + seq!['}'] =~= seq!['{'] + inside.push('}'));
            lemma_stands_split(text, at, seq!['{'], inside.push('}'));
            lemma_stands_char(text, at, seq!['{'], 0);
            lemma_reads_char(cur, text, at);
            let one = behind(cur, text, at, at + 1);
            lemma_reads_idle(cur, text, at, at + 1);
            lemma_reads_fields(one, text, at + 1, fields);
            let open = seq![TokenView::ObjectOpen(nowhere())];
            let body = tokens_of_fields(fields).push(TokenView::ObjectClose(nowhere()));
            lemma_reads_then(cur, text, at, at + 1, at + len, open, body);
            let two = behind(cur, text, at, at + len);
            lemma_reads_idle(cur, text, at, at + len);
            lemma_reads_char(two, text, at + len);
            lemma_reads_then(cur, text, at, at + len, at + len + 1, open + body, last);
            assert(open + body + last =~= tokens_of(value) + last);
        },
        Json::Array(elements) => {
            let inside = text_of_elements(elements);
            assert(written == seq!['['] + inside + seq![']']);
            assert(seq!['['] + inside + seq![']'] =~= seq!['['] + inside.push(']'));
            lemma_stands_split(text, at, seq!['['], inside.push(']'));
            lemma_stands_char(text, at, seq!['['], 0);
            lemma_reads_char(cur, text, at);
            let one = behind(cur, text, at, at + 1);
            lemma_reads_idle(cur, text, at, at + 1);
            lemma_reads_elements(one, text, at + 1, elements);
            let open = seq![TokenView::ArrayOpen(nowhere())];
            let body = tokens_of_elements(elements).push(TokenView::ArrayClose(nowhere()));
            lemma_reads_then(cur, text, at, at + 1, at + len, open, body);
            let two = behind(cur, text, at, at + len);
            lemma_reads_idle(cur, text, at, at + len);
            lemma_reads_char(two, text, at + len);
            lemma_reads_then(cur, text, at, at + len, at + len + 1, open + body, last);
            assert(open + body + last =~= tokens_of(value) + last);
        },
        Json::String(content) => {
            lemma_reads_string(cur, text, at, content);
            let two = behind(cur, text, at, at + len);
            lemma_reads_idle(cur, text, at, at + len);
            lemma_reads_char(two, text, at + len);
            lemma_reads_then(cur, text, at, at + len, at + len + 1, tokens_of(value), last);
        },
        Json::Int(number) => {
            lemma_digits_of(number as nat);
            let digits = digits_of(number as nat);
            assert(is_digit(digits[0]));
            lemma_reads_number(cur, text, at, digits, follower);
            assert(seq![number_token(digits, nowhere())->Some_0, token_for(follower)]
                =~= tokens_of(value) + last);
        },
        Json::Float(digits) => {
            lemma_reads_number(cur, text, at, digits, follower);
            assert(seq![number_token(digits, nowhere())->Some_0, token_for(follower)]
                =~= tokens_of(value) + last);
        },
        Json::Bool(truth) => {
            lemma_reads_bool(cur, text, at, truth, follower);
            assert(seq![TokenView::Bool(nowhere(), truth), token_for(follower)] =~= tokens_of(
                value,
            ) + last);
        },
        Json::Null => {
            lemma_words();
            lemma_reads_null(cur, text, at, follower);
            assert(seq![TokenView::Null(nowhere()), token_for(follower)] =~= tokens_of(value)
                + last);
        },
    }
}

/// Fields that are written, and the closing brace behind them, are read as
/// the tokens of the fields and a closing brace.
#[verifier::rlimit(40)]
proof fn lemma_reads_fields(cur: Cursor, text: Seq<char>, at: int, fields: Fields)
    requires
        cur.pending is Idle,
        writable_fields(fields),
        stands_at(text, at, text_of_fields(fields).push('}')),
    ensures
        reads(
            cur,
            text,
            at,
            at + text_of_fields(fields).len() + 1,
            tokens_of_fields(fields).push(TokenView::ObjectClose(nowhere())),
        ),
    decreases fields,
{
    let shut = seq![TokenView::ObjectClose(nowhere())];
    match fields {
        Fields::End => {
            assert(text_of_fields(fields).push('}') =~= seq!['}']);
            lemma_stands_char(text, at, seq!['}'], 0);
            lemma_reads_char(cur, text, at);
            assert(tokens_of_fields(fields).push(TokenView::ObjectClose(nowhere())) =~= shut);
        },
        Fields::Field(name, value, rest) => {
            let key = seq!['"'] + name + seq!['"'];
            let body = text_of(*value);
            let follower = if *rest is End {
                '}'
            } else {
                ','
            };
            let more = if *rest is End {
                Seq::empty()
            } else {
                text_of_fields(*rest).push('}')
            };
            let all = text_of_fields(fields).push('}');
            assert(all =~= key + seq![':'] + body.push(follower) + more);
            lemma_stands_split(text, at, key + seq![':'] + body.push(follower), more);
            lemma_stands_split(text, at, key + seq![':'], body.push(follower));
            lemma_stands_split(text, at, key, seq![':']);
            let colon = at + key.len();
            let start = colon + 1;
            let next = start + body.len() + 1;
            lemma_stands_char(text, colon, seq![':'], 0);
            lemma_reads_string(cur, text, at, name);
            let one = behind(cur, text, at, colon);
            lemma_reads_idle(cur, text, at, colon);
            lemma_reads_char(one, text, colon);
            let named = seq![TokenView::String(nowhere(), name)];
            let split = seq![TokenView::Colon];
            lemma_reads_then(cur, text, at, colon, start, named, split);
            let two = behind(cur, text, at, start);
            lemma_reads_idle(cur, text, at, start);
            lemma_reads_value(two, text, start, *value, follower);
            let valued = tokens_of(*value).push(token_for(follower));
            lemma_reads_then(cur, text, at, start, next, named + split, valued);
            if *rest is End {
                assert(named + split + valued =~= tokens_of_fields(fields).push(
                    TokenView::ObjectClose(nowhere()),
                ));
            } else {
                let three = behind(cur, text, at, next);
                lemma_reads_idle(cur, text, at, next);
                lemma_reads_fields(three, text, next, *rest);
                let rested = tokens_of_fields(*rest).push(TokenView::ObjectClose(nowhere()));
                lemma_reads_then(
                    cur,
                    text,
                    at,
                    next,
                    next + text_of_fields(*rest).len() + 1,
                    named + split + valued,
                    rested,
                );
                assert(named + split + valued + rested =~= tokens_of_fields(fields).push(
                    TokenView::ObjectClose(nowhere()),
                ));
            }
        },
    }
}

/// Elements that are written, and the closing bracket behind them, are read
/// as the tokens of the elements and a closing bracket.
#[verifier::rlimit(40)]
proof fn lemma_reads_elements(cur: Cursor, text: Seq<char>, at: int, elements: Elements)
    requires
        cur.pending is Idle,
        writable_elements(elements),
        stands_at(text, at, text_of_elements(elements).push(']')),
    ensures
        reads(
            cur,
            text,
            at,
            at + text_of_elements(elements).len() + 1,
            tokens_of_elements(elements).push(TokenView::ArrayClose(nowhere())),
        ),
    decreases elements,
{
    let shut = seq![TokenView::ArrayClose(nowhere())];
    match elements {
        Elements::End => {
            assert(text_of_elements(elements).push(']') =~= seq![']']);
            lemma_stands_char(text, at, seq![']'], 0);
            lemma_reads_char(cur, text, at);
            assert(tokens_of_elements(elements).push(TokenView::ArrayClose(nowhere())) =~= shut);
        },
        Elements::Element(value, rest) => {
            let body = text_of(*value);
            let follower = if *rest is End {
                ']'
            } else {
                ','
            };
            let more = if *rest is End {
                Seq::empty()
            } else {
                text_of_elements(*rest).push(']')
            };
            let all = text_of_elements(elements).push(']');
            assert(all =~= body.push(follower) + more);
            lemma_stands_split(text, at, body.push(follower), more);
            let next = at + body.len() + 1;
            lemma_reads_value(cur, text, at, *value, follower);
            let valued = tokens_of(*value).push(token_for(follower));
            if *rest is End {
                assert(valued =~= tokens_of_elements(elements).push(
                    TokenView::ArrayClose(nowhere()),
                ));
            } else {
                let one = behind(cur, text, at, next);
                lemma_reads_idle(cur, text, at, next);
                lemma_reads_elements(one, text, next, *rest);
                let rested = tokens_of_elements(*rest).push(TokenView::ArrayClose(nowhere()));
                lemma_reads_then(
                    cur,
                    text,
                    at,
                    next,
                    next + text_of_elements(*rest).len() + 1,
                    valued,
                    rested,
                );
                assert(valued + rested =~= tokens_of_elements(elements).push(
                    TokenView::ArrayClose(nowhere()),
                ));
            }
        },
    }
}

/// The text of an object has the tokens of the object, their ranges apart,
/// and none of them is a comment.
pub proof fn lemma_written_object_is_tokenized(object: Json)
    requires
        object is Object,
        writable(object),
    ensures
        tokenize_spec(text_of(object)) matches Ok(tokens) && same_tokens(tokens, tokens_of(object))
            && without_comments(tokens) == tokens,
{
    reveal(reads);
    let text = text_of(object);
    let fields = object->Object_0;
    let inside = text_of_fields(fields);
    let start = start_cursor();
    assert(text =~= seq!['{'] + inside.push('}'));
    assert(text.subrange(0, text.len() as int) =~= text);
    lemma_stands_split(text, 0, seq!['{'], inside.push('}'));
    lemma_stands_char(text, 0, seq!['{'], 0);
    lemma_reads_char(start, text, 0);
    let one = behind(start, text, 0, 1);
    lemma_reads_idle(start, text, 0, 1);
    lemma_reads_fields(one, text, 1, fields);
    let open = seq![TokenView::ObjectOpen(nowhere())];
    let body = tokens_of_fields(fields).push(TokenView::ObjectClose(nowhere()));
    lemma_reads_then(start, text, 0, 1, text.len() as int, open, body);
    assert(open + body =~= tokens_of(object));
    let tokens = tokenize_spec(text)->Ok_0;
    lemma_tokens_of_hold_no_comment(object);
    assert forall|i: int| 0 <= i < tokens.len() implies !(#[trigger] tokens[i] is Comment) by {
        assert(same_token(tokens[i], tokens_of(object)[i]));
        assert(!(tokens_of(object)[i] is Comment));
    }
    lemma_without_comments_keeps(tokens);
}

/// An object that is written out is read back: its text is parsed into a
/// tree whose root stands for the object.
///
/// This holds of every object that can be written: its integers are not
/// negative, its floats are written as such, its strings and keys can stand
/// between quotes, and no object within it has two fields of one name.
pub proof fn lemma_written_object_is_read(object: Json)
    requires
        object is Object,
        writable(object),
        distinct_keys(object),
        text_of(object).len() <= usize::MAX,
    ensures
        document_tree(text_of(object)) matches Ok(tree) && tree.entries.len() >= 1 && value_of(
            tree,
            root_of(tree),
        ) == object,
{
    lemma_written_object_is_tokenized(object);
    lemma_no_more_tokens_than_characters(text_of(object));
    let tokens = tokenize_spec(text_of(object))->Ok_0;
    lemma_object_is_built(object, tokens);
}

} // verus!
