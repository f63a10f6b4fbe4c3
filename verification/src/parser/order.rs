//! Tokens come in the order of the text.
//!
//! Offsets and lines only go forward: a range does not end before it starts,
//! and no token starts before the token in front of it has ended. Columns
//! start again with every line and say nothing about order.
use crate::parser::tokenize::{
    default_tokens, lex_range, lex_step, number_token, one_char, position_at, start_cursor,
    tokenize_spec, Cursor, Pending, TokenView,
};
use crate::types::{Position, Range};
use vstd::prelude::*;

verus! {

/// The range of a token, for a token that has one.
pub open spec fn range_of(token: TokenView) -> Option<Range> {
    match token {
        TokenView::String(range, _) => Some(range),
        TokenView::Float(range, _) => Some(range),
        TokenView::Int(range, _) => Some(range),
        TokenView::Bool(range, _) => Some(range),
        TokenView::Null(range) => Some(range),
        TokenView::ObjectOpen(range) => Some(range),
        TokenView::ObjectClose(range) => Some(range),
        TokenView::ArrayOpen(range) => Some(range),
        TokenView::ArrayClose(range) => Some(range),
        TokenView::Comma => None,
        TokenView::Colon => None,
        TokenView::Comment(range, _) => Some(range),
    }
}

/// Whether `later` is not before `earlier`, by offset and by line.
pub open spec fn not_before(earlier: Position, later: Position) -> bool {
    earlier.idx <= later.idx && earlier.line <= later.line
}

/// Whether every range goes forward and every token that has a range starts
/// where the one in front of it has ended, or later.
pub open spec fn in_order(tokens: Seq<TokenView>) -> bool {
    &&& forall|i: int|
        0 <= i < tokens.len() ==> (range_of(#[trigger] tokens[i]) matches Some(r) ==> not_before(
            r.start,
            r.end,
        ))
    &&& forall|i: int, j: int|
        0 <= i < j < tokens.len() ==> (range_of(#[trigger] tokens[i]) matches Some(a) ==> (range_of(
            #[trigger] tokens[j],
        ) matches Some(b) ==> not_before(a.end, b.start)))
}

/// Whether every token that has a range ends at `bound` or before it.
spec fn ends_by(tokens: Seq<TokenView>, bound: Position) -> bool {
    forall|i: int|
        0 <= i < tokens.len() ==> (range_of(#[trigger] tokens[i]) matches Some(r) ==> not_before(
            r.end,
            bound,
        ))
}

/// Whether every token that has a range starts at `bound` or behind it.
spec fn starts_from(tokens: Seq<TokenView>, bound: Position) -> bool {
    forall|i: int|
        0 <= i < tokens.len() ==> (range_of(#[trigger] tokens[i]) matches Some(r) ==> not_before(
            bound,
            r.start,
        ))
}

/// Where what is pending began, if anything with a start is pending.
spec fn pending_start(pending: Pending) -> Option<Position> {
    match pending {
        Pending::Idle => None,
        Pending::Slash => None,
        Pending::Comment { start, .. } => Some(start),
        Pending::Text { start, .. } => Some(start),
        Pending::Number { start, .. } => Some(start),
        Pending::Bool { start, .. } => Some(start),
        Pending::Null { start, .. } => Some(start),
    }
}

/// What holds between two characters: the tokens made so far are in order,
/// and they end before what is pending began, which is not behind the
/// cursor.
spec fn run_in_order(n: int, cur: Cursor, tokens: Seq<TokenView>) -> bool {
    &&& 0 <= cur.line <= n
    &&& 0 <= cur.column <= n
    &&& in_order(tokens)
    &&& match pending_start(cur.pending) {
        Some(start) => not_before(start, position_at(cur.line, cur.column, n)) && ends_by(
            tokens,
            start,
        ),
        None => ends_by(tokens, position_at(cur.line, cur.column, n)),
    }
}

/// Tokens that end by a bound end by every later one.
proof fn lemma_ends_by_later(tokens: Seq<TokenView>, bound: Position, later: Position)
    requires
        ends_by(tokens, bound),
        not_before(bound, later),
    ensures
        ends_by(tokens, later),
{
}

/// Tokens in order that end by a bound, followed by tokens in order that
/// start from it, are in order.
proof fn lemma_in_order_concat(front: Seq<TokenView>, back: Seq<TokenView>, bound: Position)
    requires
        in_order(front),
        in_order(back),
        ends_by(front, bound),
        starts_from(back, bound),
    ensures
        in_order(front + back),
{
    let all = front + back;
    assert forall|i: int| 0 <= i < all.len() implies (range_of(#[trigger] all[i]) matches Some(r)
        ==> not_before(r.start, r.end)) by {
        if i < front.len() {
            assert(all[i] == front[i]);
        } else {
            assert(all[i] == back[i - front.len()]);
        }
    }
    assert forall|i: int, j: int| 0 <= i < j < all.len() implies (range_of(
        #[trigger] all[i],
    ) matches Some(a) ==> (range_of(#[trigger] all[j]) matches Some(b) ==> not_before(
        a.end,
        b.start,
    ))) by {
        if j < front.len() {
            assert(all[i] == front[i]);
            assert(all[j] == front[j]);
        } else if i < front.len() {
            assert(all[i] == front[i]);
            assert(all[j] == back[j - front.len()]);
        } else {
            assert(all[i] == back[i - front.len()]);
            assert(all[j] == back[j - front.len()]);
        }
    }
}

/// Tokens that end by a bound, followed by tokens that end by it, end by it.
proof fn lemma_ends_by_concat(front: Seq<TokenView>, back: Seq<TokenView>, bound: Position)
    requires
        ends_by(front, bound),
        ends_by(back, bound),
    ensures
        ends_by(front + back, bound),
{
    let all = front + back;
    assert forall|i: int| 0 <= i < all.len() implies (range_of(#[trigger] all[i]) matches Some(r)
        ==> not_before(r.end, bound)) by {
        if i < front.len() {
            assert(all[i] == front[i]);
        } else {
            assert(all[i] == back[i - front.len()]);
        }
    }
}

/// What a structural character makes is in order, starts where the
/// character stands and ends behind it.
proof fn lemma_default_in_order(c: char, here: Position)
    requires
        here.line < usize::MAX,
        here.char < usize::MAX,
        here.idx < usize::MAX,
    ensures
        in_order(default_tokens(c, here)),
        starts_from(default_tokens(c, here), here),
        ends_by(default_tokens(c, here), here.offset_by(one_char())),
{
}

/// A token with a range that goes forward, then what a structural character
/// at its end makes: in order, from the start of the range to behind the
/// character.
proof fn lemma_token_then_default_in_order(token: TokenView, c: char, here: Position)
    requires
        here.line < usize::MAX,
        here.char < usize::MAX,
        here.idx < usize::MAX,
        range_of(token) matches Some(r) && r.end == here && not_before(r.start, r.end),
    ensures
        in_order(seq![token] + default_tokens(c, here)),
        starts_from(seq![token] + default_tokens(c, here), range_of(token)->Some_0.start),
        ends_by(seq![token] + default_tokens(c, here), here.offset_by(one_char())),
{
    lemma_default_in_order(c, here);
    let one = seq![token];
    let all = one + default_tokens(c, here);
    assert(in_order(one));
    assert(ends_by(one, here));
    lemma_in_order_concat(one, default_tokens(c, here), here);
    assert forall|i: int| 0 <= i < all.len() implies (range_of(#[trigger] all[i]) matches Some(r)
        ==> not_before(range_of(token)->Some_0.start, r.start)) by {
        if i >= 1 {
            assert(all[i] == default_tokens(c, here)[i - 1]);
        }
    }
    assert(ends_by(one, here.offset_by(one_char())));
    lemma_ends_by_concat(one, default_tokens(c, here), here.offset_by(one_char()));
}

/// One step of the tokenizer keeps the tokens in order.
proof fn lemma_step_in_order(text: Seq<char>, n: int, cur: Cursor, tokens: Seq<TokenView>)
    requires
        0 <= n < text.len() <= usize::MAX,
        run_in_order(n, cur, tokens),
        lex_step(cur, text[n], n) is Ok,
    ensures
        run_in_order(
            n + 1,
            lex_step(cur, text[n], n)->Ok_0.cursor,
            tokens + lex_step(cur, text[n], n)->Ok_0.tokens,
        ),
{
    let c = text[n];
    let here = position_at(cur.line, cur.column, n);
    let step = lex_step(cur, c, n)->Ok_0;
    let made = step.tokens;
    let there = position_at(step.cursor.line, step.cursor.column, n + 1);
    let behind = here.offset_by(one_char());
    assert(not_before(here, there));
    assert(not_before(behind, there));
    lemma_default_in_order(c, here);
    let bound = match pending_start(cur.pending) {
        Some(start) => start,
        None => here,
    };
    assert(ends_by(tokens, bound));
    assert(not_before(bound, here));
    lemma_ends_by_later(tokens, bound, here);
    lemma_ends_by_later(tokens, bound, there);
    if made.len() == 0 {
        assert(tokens + made =~= tokens);
    } else {
        // Whatever is made starts where the pending token began, or here,
        // and ends by the position behind this character.
        assert(in_order(made) && starts_from(made, bound) && ends_by(made, behind)) by {
            match cur.pending {
                Pending::Comment { start, text: content } => {
                    assert(made =~= seq![TokenView::Comment(Range { start, end: here }, content)]);
                },
                Pending::Text { start, text: content, escaped } => {
                    assert(made =~= seq![TokenView::String(Range { start, end: here }, content)]);
                },
                Pending::Number { start, text: content } => {
                    let token = number_token(content, Range { start, end: here })->Some_0;
                    lemma_token_then_default_in_order(token, c, here);
                },
                Pending::Bool { start, text: content } => {
                    let token = TokenView::Bool(Range { start, end: here }, content == "true"@);
                    lemma_token_then_default_in_order(token, c, here);
                },
                Pending::Null { start, text: content } => {
                    let token = TokenView::Null(Range { start, end: here });
                    lemma_token_then_default_in_order(token, c, here);
                },
                _ => {},
            }
        }
        lemma_ends_by_later(made, behind, there);
        lemma_in_order_concat(tokens, made, bound);
        lemma_ends_by_concat(tokens, made, there);
    }
}

/// A run of the tokenizer from the start of the text makes tokens in order.
proof fn lemma_run_in_order(text: Seq<char>, n: int)
    requires
        0 <= n <= text.len() <= usize::MAX,
        lex_range(start_cursor(), text, 0, n) is Ok,
    ensures
        run_in_order(
            n,
            lex_range(start_cursor(), text, 0, n)->Ok_0.cursor,
            lex_range(start_cursor(), text, 0, n)->Ok_0.tokens,
        ),
    decreases n,
{
    if n > 0 {
        let done = lex_range(start_cursor(), text, 0, n - 1)->Ok_0;
        lemma_run_in_order(text, n - 1);
        lemma_step_in_order(text, n - 1, done.cursor, done.tokens);
    }
}

/// A run of the tokenizer makes no more tokens than it has met characters,
/// and one less while something is pending.
proof fn lemma_run_token_count(cur: Cursor, text: Seq<char>, from: int, to: int)
    requires
        from <= to,
        cur.pending is Idle,
        lex_range(cur, text, from, to) is Ok,
    ensures
        lex_range(cur, text, from, to)->Ok_0.tokens.len() + (if lex_range(
            cur,
            text,
            from,
            to,
        )->Ok_0.cursor.pending is Idle {
            0int
        } else {
            1int
        }) <= to - from,
    decreases to - from,
{
    if from < to {
        lemma_run_token_count(cur, text, from, to - 1);
    }
}

/// A text has no more tokens than characters.
pub proof fn lemma_no_more_tokens_than_characters(text: Seq<char>)
    ensures
        tokenize_spec(text) matches Ok(tokens) ==> tokens.len() <= text.len(),
{
    if tokenize_spec(text) is Ok {
        lemma_run_token_count(start_cursor(), text, 0, text.len() as int);
    }
}

/// The tokens of a text come in the order of the text: by offset and by
/// line, every range goes forward, and every token that has a range starts
/// where the one in front of it has ended, or later.
pub proof fn lemma_tokens_in_order(text: Seq<char>)
    requires
        text.len() <= usize::MAX,
    ensures
        tokenize_spec(text) matches Ok(tokens) ==> in_order(tokens),
{
    if tokenize_spec(text) is Ok {
        lemma_run_in_order(text, text.len() as int);
    }
}

} // verus!
