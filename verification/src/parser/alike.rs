//! Tokens and trees that are alike but for their ranges.
//!
//! Where a text is shifted, every token that is made of it moves with it.
//! What the tokens hold does not change, and neither does anything in the
//! tree but the ranges.
use crate::parser::parse::{
    array_range, bracket_pairs, bracket_scan, build_tree, closer_of, commit_item, commit_member,
    empty_tree, enter_array, enter_object, object_range, primitive, read_key, walk_array,
    walk_object, ArrayWalk, ObjectWalk,
};
use crate::parser::tokenize::{
    default_tokens, lex_range, lex_step, number_token, Cursor, Lexed, Pending, TokenView,
};
use crate::tree::{EntryView, KeyView, PathView, TreeView, ValueView};
use crate::types::{ParseError, Position, Range};
use crate::without_comments;
use vstd::prelude::*;

verus! {

/// Whether two tokens are of one kind and hold the same; where they stand is
/// left aside.
pub open spec fn same_token(a: TokenView, b: TokenView) -> bool {
    match (a, b) {
        (TokenView::String(_, s), TokenView::String(_, t)) => s == t,
        (TokenView::Float(_, s), TokenView::Float(_, t)) => s == t,
        (TokenView::Int(_, v), TokenView::Int(_, w)) => v == w,
        (TokenView::Bool(_, v), TokenView::Bool(_, w)) => v == w,
        (TokenView::Null(_), TokenView::Null(_)) => true,
        (TokenView::ObjectOpen(_), TokenView::ObjectOpen(_)) => true,
        (TokenView::ObjectClose(_), TokenView::ObjectClose(_)) => true,
        (TokenView::ArrayOpen(_), TokenView::ArrayOpen(_)) => true,
        (TokenView::ArrayClose(_), TokenView::ArrayClose(_)) => true,
        (TokenView::Comma, TokenView::Comma) => true,
        (TokenView::Colon, TokenView::Colon) => true,
        (TokenView::Comment(_, s), TokenView::Comment(_, t)) => s == t,
        _ => false,
    }
}

/// Whether two sequences of tokens are alike token by token.
pub open spec fn same_tokens(a: Seq<TokenView>, b: Seq<TokenView>) -> bool {
    &&& a.len() == b.len()
    &&& forall|i: int| 0 <= i < a.len() ==> same_token(#[trigger] a[i], b[i])
}

/// Whether the same is pending, wherever it began.
pub open spec fn same_pending(a: Pending, b: Pending) -> bool {
    match (a, b) {
        (Pending::Idle, Pending::Idle) => true,
        (Pending::Slash, Pending::Slash) => true,
        (Pending::Comment { text: s, .. }, Pending::Comment { text: t, .. }) => s == t,
        (
            Pending::Text { text: s, escaped: e, .. },
            Pending::Text { text: t, escaped: f, .. },
        ) => s == t && e == f,
        (Pending::Number { text: s, .. }, Pending::Number { text: t, .. }) => s == t,
        (Pending::Bool { text: s, .. }, Pending::Bool { text: t, .. }) => s == t,
        (Pending::Null { text: s, .. }, Pending::Null { text: t, .. }) => s == t,
        _ => false,
    }
}

/// Whether two runs of the tokenizer came out alike: both failed in the same
/// way, or both made tokens that are alike and left the same pending.
pub open spec fn same_lexed(a: Result<Lexed, ParseError>, b: Result<Lexed, ParseError>) -> bool {
    match (a, b) {
        (Ok(x), Ok(y)) => same_pending(x.cursor.pending, y.cursor.pending) && same_tokens(
            x.tokens,
            y.tokens,
        ),
        (Err(e), Err(f)) => e == f,
        _ => false,
    }
}

/// Tokens that are alike, followed by tokens that are alike, are alike.
pub(crate) proof fn lemma_same_tokens_concat(
    a: Seq<TokenView>,
    b: Seq<TokenView>,
    c: Seq<TokenView>,
    d: Seq<TokenView>,
)
    requires
        same_tokens(a, b),
        same_tokens(c, d),
    ensures
        same_tokens(a + c, b + d),
{
    assert forall|i: int| 0 <= i < (a + c).len() implies same_token(#[trigger] (a + c)[i], (b + d)[i]) by {
        if i < a.len() {
            assert((a + c)[i] == a[i]);
            assert((b + d)[i] == b[i]);
        } else {
            assert((a + c)[i] == c[i - a.len()]);
            assert((b + d)[i] == d[i - a.len()]);
        }
    }
}

/// Tokens that are alike are still alike when the comments are dropped.
pub(crate) proof fn lemma_same_tokens_without_comments(a: Seq<TokenView>, b: Seq<TokenView>)
    requires
        same_tokens(a, b),
    ensures
        same_tokens(without_comments(a), without_comments(b)),
    decreases a.len(),
{
    if a.len() > 0 {
        assert forall|i: int| 0 <= i < a.drop_last().len() implies same_token(
            #[trigger] a.drop_last()[i],
            b.drop_last()[i],
        ) by {
            assert(a.drop_last()[i] == a[i]);
            assert(b.drop_last()[i] == b[i]);
        }
        lemma_same_tokens_without_comments(a.drop_last(), b.drop_last());
        assert(same_token(a[a.len() - 1], b[a.len() - 1]));
        if !(a.last() is Comment) {
            lemma_same_tokens_concat(
                without_comments(a.drop_last()),
                without_comments(b.drop_last()),
                seq![a.last()],
                seq![b.last()],
            );
            assert(without_comments(a.drop_last()).push(a.last()) =~= without_comments(
                a.drop_last(),
            ) + seq![a.last()]);
            assert(without_comments(b.drop_last()).push(b.last()) =~= without_comments(
                b.drop_last(),
            ) + seq![b.last()]);
        }
    }
}

/// A structural character makes the same token wherever it stands.
proof fn lemma_default_tokens_alike(c: char, here: Position, there: Position)
    ensures
        same_tokens(default_tokens(c, here), default_tokens(c, there)),
{
}

/// A token, then what a structural character makes: alike wherever they
/// stand, if the two tokens are alike.
proof fn lemma_token_then_default_alike(
    a: TokenView,
    b: TokenView,
    c: char,
    here: Position,
    there: Position,
)
    requires
        same_token(a, b),
    ensures
        same_tokens(seq![a] + default_tokens(c, here), seq![b] + default_tokens(c, there)),
{
    lemma_default_tokens_alike(c, here, there);
    lemma_same_tokens_concat(seq![a], seq![b], default_tokens(c, here), default_tokens(c, there));
}

/// One step of the tokenizer does the same wherever it is taken.
pub(crate) proof fn lemma_lex_step_alike(a: Cursor, b: Cursor, c: char, here: int, there: int)
    requires
        same_pending(a.pending, b.pending),
    ensures
        same_lexed(lex_step(a, c, here), lex_step(b, c, there)),
{
    let p = crate::parser::tokenize::position_at(a.line, a.column, here);
    let q = crate::parser::tokenize::position_at(b.line, b.column, there);
    lemma_default_tokens_alike(c, p, q);
    match (a.pending, b.pending) {
        (Pending::Number { start: s, text }, Pending::Number { start: t, .. }) => {
            let r = Range { start: s, end: p };
            let u = Range { start: t, end: q };
            if let Some(token) = number_token(text, r) {
                lemma_token_then_default_alike(token, number_token(text, u)->Some_0, c, p, q);
            }
        },
        (Pending::Bool { start: s, text }, Pending::Bool { start: t, .. }) => {
            let value = text == "true"@;
            lemma_token_then_default_alike(
                TokenView::Bool(Range { start: s, end: p }, value),
                TokenView::Bool(Range { start: t, end: q }, value),
                c,
                p,
                q,
            );
        },
        (Pending::Null { start: s, .. }, Pending::Null { start: t, .. }) => {
            lemma_token_then_default_alike(
                TokenView::Null(Range { start: s, end: p }),
                TokenView::Null(Range { start: t, end: q }),
                c,
                p,
                q,
            );
        },
        (Pending::Text { start: s, text, .. }, Pending::Text { start: t, .. }) => {
            let made = seq![TokenView::String(Range { start: s, end: p }, text)];
            let other = seq![TokenView::String(Range { start: t, end: q }, text)];
            assert(same_tokens(made, other));
        },
        (Pending::Comment { start: s, text }, Pending::Comment { start: t, .. }) => {
            let made = seq![TokenView::Comment(Range { start: s, end: p }, text)];
            let other = seq![TokenView::Comment(Range { start: t, end: q }, text)];
            assert(same_tokens(made, other));
        },
        _ => {},
    }
}

/// A run of the tokenizer does the same over the same characters, wherever
/// in a text they stand.
pub proof fn lemma_lex_range_alike(
    a: Cursor,
    text: Seq<char>,
    from: int,
    b: Cursor,
    other: Seq<char>,
    start: int,
    n: int,
)
    requires
        0 <= n,
        0 <= from,
        from + n <= text.len(),
        0 <= start,
        start + n <= other.len(),
        same_pending(a.pending, b.pending),
        text.subrange(from, from + n) == other.subrange(start, start + n),
    ensures
        same_lexed(lex_range(a, text, from, from + n), lex_range(b, other, start, start + n)),
    decreases n,
{
    if n > 0 {
        let mine = text.subrange(from, from + n);
        let theirs = other.subrange(start, start + n);
        assert(text.subrange(from, from + n - 1) =~= mine.take(n - 1));
        assert(other.subrange(start, start + n - 1) =~= theirs.take(n - 1));
        lemma_lex_range_alike(a, text, from, b, other, start, n - 1);
        let first = lex_range(a, text, from, from + n - 1);
        let second = lex_range(b, other, start, start + n - 1);
        if let Ok(x) = first {
            let y = second->Ok_0;
            assert(text[from + n - 1] == mine[n - 1]);
            assert(other[start + n - 1] == theirs[n - 1]);
            lemma_lex_step_alike(x.cursor, y.cursor, text[from + n - 1], from + n - 1, start + n - 1);
            if let Ok(s) = lex_step(x.cursor, text[from + n - 1], from + n - 1) {
                let t = lex_step(y.cursor, other[start + n - 1], start + n - 1)->Ok_0;
                lemma_same_tokens_concat(x.tokens, y.tokens, s.tokens, t.tokens);
            }
        }
    }
}

/// Whether two trees are alike but for their ranges: entry by entry the
/// same key record and the same value, key record by key record the same
/// name.
pub open spec fn same_tree(a: TreeView, b: TreeView) -> bool {
    &&& a.entries.len() == b.entries.len()
    &&& forall|i: int|
        0 <= i < a.entries.len() ==> (#[trigger] a.entries[i]).key == b.entries[i].key
            && a.entries[i].value == b.entries[i].value
    &&& a.keys.len() == b.keys.len()
    &&& forall|i: int| 0 <= i < a.keys.len() ==> (#[trigger] a.keys[i]).name == b.keys[i].name
}

/// Whether two results of building are alike: both failed in the same way,
/// or both are trees that are alike but for their ranges.
pub open spec fn same_meaning(
    a: Result<TreeView, ParseError>,
    b: Result<TreeView, ParseError>,
) -> bool {
    match (a, b) {
        (Ok(x), Ok(y)) => same_tree(x, y),
        (Err(e), Err(f)) => e == f,
        _ => false,
    }
}

/// Whether two walks through an object are alike but for ranges.
spec fn same_object_walk(a: ObjectWalk, b: ObjectWalk) -> bool {
    &&& same_tree(a.tree, b.tree)
    &&& a.members == b.members
    &&& a.expecting_key == b.expecting_key
    &&& a.key == b.key
}

/// Whether two walks through an array are alike but for ranges.
spec fn same_array_walk(a: ArrayWalk, b: ArrayWalk) -> bool {
    &&& same_tree(a.tree, b.tree)
    &&& a.items == b.items
}

/// Whether two walks through an object ended alike: both failed in the same
/// way, or both ended in states that are alike but for ranges.
spec fn same_object_result(
    a: Result<ObjectWalk, ParseError>,
    b: Result<ObjectWalk, ParseError>,
) -> bool {
    match (a, b) {
        (Ok(x), Ok(y)) => same_object_walk(x, y),
        (Err(e), Err(f)) => e == f,
        _ => false,
    }
}

/// Whether two walks through an array ended alike: both failed in the same
/// way, or both ended in states that are alike but for ranges.
spec fn same_array_result(a: Result<ArrayWalk, ParseError>, b: Result<ArrayWalk, ParseError>) -> bool {
    match (a, b) {
        (Ok(x), Ok(y)) => same_array_walk(x, y),
        (Err(e), Err(f)) => e == f,
        _ => false,
    }
}

/// Brackets are paired by the kinds of the tokens alone.
pub(crate) proof fn lemma_bracket_scan_alike(a: Seq<TokenView>, b: Seq<TokenView>, n: int)
    requires
        same_tokens(a, b),
        n <= a.len(),
    ensures
        bracket_scan(a, n) == bracket_scan(b, n),
    decreases n,
{
    if n > 0 {
        lemma_bracket_scan_alike(a, b, n - 1);
        assert(same_token(a[n - 1], b[n - 1]));
    }
}

/// A tree with one more entry, and a tree that is alike with an entry that is
/// alike, are alike.
proof fn lemma_push_entry_alike(a: TreeView, b: TreeView, x: EntryView, y: EntryView)
    requires
        same_tree(a, b),
        x.key == y.key,
        x.value == y.value,
    ensures
        same_tree(
            TreeView { entries: a.entries.push(x), keys: a.keys },
            TreeView { entries: b.entries.push(y), keys: b.keys },
        ),
{
    let c = a.entries.push(x);
    let d = b.entries.push(y);
    assert forall|i: int| 0 <= i < c.len() implies (#[trigger] c[i]).key == d[i].key && c[i].value
        == d[i].value by {
        if i < a.entries.len() {
            assert(c[i] == a.entries[i]);
            assert(d[i] == b.entries[i]);
        }
    }
}

/// Storing the same value under the same key does the same to two walks
/// that are alike.
proof fn lemma_commit_member_alike(
    a: ObjectWalk,
    b: ObjectWalk,
    r: Range,
    s: Range,
    value: ValueView,
)
    requires
        same_object_walk(a, b),
    ensures
        match (commit_member(a, r, value), commit_member(b, s, value)) {
            (Some(x), Some(y)) => same_object_walk(x, y),
            (None, None) => true,
            _ => false,
        },
{
    if a.key < a.tree.keys.len() {
        assert(a.tree.keys[a.key as int].name == b.tree.keys[a.key as int].name);
        lemma_push_entry_alike(
            a.tree,
            b.tree,
            EntryView { key: Some(a.key), range: r, value },
            EntryView { key: Some(b.key), range: s, value },
        );
    }
}

/// Storing the same value does the same to two walks that are alike.
proof fn lemma_commit_item_alike(a: ArrayWalk, b: ArrayWalk, r: Range, s: Range, value: ValueView)
    requires
        same_array_walk(a, b),
    ensures
        same_array_walk(commit_item(a, r, value), commit_item(b, s, value)),
{
    lemma_push_entry_alike(
        a.tree,
        b.tree,
        EntryView { key: None, range: r, value },
        EntryView { key: None, range: s, value },
    );
}

/// Reading the same key does the same to two walks that are alike.
proof fn lemma_read_key_alike(a: ObjectWalk, b: ObjectWalk, r: Range, s: Range, name: Seq<char>)
    requires
        same_object_walk(a, b),
    ensures
        same_object_walk(read_key(a, r, name), read_key(b, s, name)),
{
    let c = a.tree.keys.push(KeyView { name, range: r });
    let d = b.tree.keys.push(KeyView { name, range: s });
    assert forall|i: int| 0 <= i < c.len() implies (#[trigger] c[i]).name == d[i].name by {
        if i < a.tree.keys.len() {
            assert(c[i] == a.tree.keys[i]);
            assert(d[i] == b.tree.keys[i]);
        }
    }
}

/// Tokens that are alike stand for the same value, if for any.
proof fn lemma_primitive_alike(a: TokenView, b: TokenView)
    requires
        same_token(a, b),
    ensures
        match (primitive(a), primitive(b)) {
            (Some((_, x)), Some((_, y))) => x == y,
            (None, None) => true,
            _ => false,
        },
{
}

/// A walk through an object does the same on tokens that are alike.
proof fn lemma_walk_object_alike(
    s: Seq<TokenView>,
    t: Seq<TokenView>,
    pairs: Map<usize, usize>,
    a: ObjectWalk,
    b: ObjectWalk,
    at: int,
    end: int,
)
    requires
        same_tokens(s, t),
        same_object_walk(a, b),
        0 <= at,
        end <= s.len(),
    ensures
        same_object_result(walk_object(s, pairs, a, at, end), walk_object(t, pairs, b, at, end)),
    decreases s.len() - at, 0nat,
{
    if at < end {
        assert(same_token(s[at], t[at]));
        lemma_primitive_alike(s[at], t[at]);
        match (s[at], t[at]) {
            (TokenView::Comma, _) => {
                lemma_walk_object_alike(
                    s,
                    t,
                    pairs,
                    ObjectWalk { expecting_key: true, ..a },
                    ObjectWalk { expecting_key: true, ..b },
                    at + 1,
                    end,
                );
            },
            (TokenView::Colon, _) => {
                lemma_walk_object_alike(
                    s,
                    t,
                    pairs,
                    ObjectWalk { expecting_key: false, ..a },
                    ObjectWalk { expecting_key: false, ..b },
                    at + 1,
                    end,
                );
            },
            (TokenView::String(r, text), TokenView::String(u, _)) => {
                if a.expecting_key {
                    lemma_read_key_alike(a, b, r, u, text);
                    lemma_walk_object_alike(
                        s,
                        t,
                        pairs,
                        read_key(a, r, text),
                        read_key(b, u, text),
                        at + 1,
                        end,
                    );
                } else {
                    lemma_commit_then_walk_alike(
                        s,
                        t,
                        pairs,
                        a,
                        b,
                        r,
                        u,
                        ValueView::String(text),
                        at + 1,
                        end,
                    );
                }
            },
            (TokenView::ObjectOpen(_), _) => {
                if let Some(close) = closer_of(pairs, s.len(), at) {
                    lemma_walk_object_alike(
                        s,
                        t,
                        pairs,
                        enter_object(a.tree),
                        enter_object(b.tree),
                        at + 1,
                        close,
                    );
                    if let Ok(x) = walk_object(s, pairs, enter_object(a.tree), at + 1, close) {
                        let y = walk_object(t, pairs, enter_object(b.tree), at + 1, close)->Ok_0;
                        lemma_commit_then_walk_alike(
                            s,
                            t,
                            pairs,
                            ObjectWalk { tree: x.tree, ..a },
                            ObjectWalk { tree: y.tree, ..b },
                            object_range(s, at, close),
                            object_range(t, at, close),
                            ValueView::Object(x.members),
                            close + 1,
                            end,
                        );
                    }
                }
            },
            (TokenView::ArrayOpen(_), _) => {
                if let Some(close) = closer_of(pairs, s.len(), at) {
                    lemma_walk_array_alike(
                        s,
                        t,
                        pairs,
                        enter_array(a.tree),
                        enter_array(b.tree),
                        at + 1,
                        close,
                    );
                    if let Ok(x) = walk_array(s, pairs, enter_array(a.tree), at + 1, close) {
                        let y = walk_array(t, pairs, enter_array(b.tree), at + 1, close)->Ok_0;
                        lemma_commit_then_walk_alike(
                            s,
                            t,
                            pairs,
                            ObjectWalk { tree: x.tree, ..a },
                            ObjectWalk { tree: y.tree, ..b },
                            array_range(s, at, close),
                            array_range(t, at, close),
                            ValueView::Array(x.items),
                            close + 1,
                            end,
                        );
                    }
                }
            },
            (token, other) => {
                match (primitive(token), primitive(other)) {
                    (Some((r, value)), Some((u, _))) => {
                        lemma_commit_then_walk_alike(
                            s,
                            t,
                            pairs,
                            a,
                            b,
                            r,
                            u,
                            value,
                            at + 1,
                            end,
                        );
                        lemma_walk_object_alike(s, t, pairs, a, b, at + 1, end);
                    },
                    _ => {
                        lemma_walk_object_alike(s, t, pairs, a, b, at + 1, end);
                    },
                }
            },
        }
    }
}

/// Storing the same value and walking on does the same on tokens that are
/// alike.
proof fn lemma_commit_then_walk_alike(
    s: Seq<TokenView>,
    t: Seq<TokenView>,
    pairs: Map<usize, usize>,
    a: ObjectWalk,
    b: ObjectWalk,
    r: Range,
    u: Range,
    value: ValueView,
    at: int,
    end: int,
)
    requires
        same_tokens(s, t),
        same_object_walk(a, b),
        0 < at <= s.len(),
        end <= s.len(),
    ensures
        match (commit_member(a, r, value), commit_member(b, u, value)) {
            (Some(x), Some(y)) => same_object_result(
                walk_object(s, pairs, x, at, end),
                walk_object(t, pairs, y, at, end),
            ),
            (None, None) => true,
            _ => false,
        },
    decreases s.len() - at, 1nat,
{
    lemma_commit_member_alike(a, b, r, u, value);
    if let Some(x) = commit_member(a, r, value) {
        let y = commit_member(b, u, value)->Some_0;
        lemma_walk_object_alike(s, t, pairs, x, y, at, end);
    }
}

/// A walk through an array does the same on tokens that are alike.
proof fn lemma_walk_array_alike(
    s: Seq<TokenView>,
    t: Seq<TokenView>,
    pairs: Map<usize, usize>,
    a: ArrayWalk,
    b: ArrayWalk,
    at: int,
    end: int,
)
    requires
        same_tokens(s, t),
        same_array_walk(a, b),
        0 <= at,
        end <= s.len(),
    ensures
        same_array_result(walk_array(s, pairs, a, at, end), walk_array(t, pairs, b, at, end)),
    decreases s.len() - at, 0nat,
{
    if at < end {
        assert(same_token(s[at], t[at]));
        lemma_primitive_alike(s[at], t[at]);
        match (s[at], t[at]) {
            (TokenView::ObjectOpen(_), _) => {
                if let Some(close) = closer_of(pairs, s.len(), at) {
                    lemma_walk_object_alike(
                        s,
                        t,
                        pairs,
                        enter_object(a.tree),
                        enter_object(b.tree),
                        at + 1,
                        close,
                    );
                    if let Ok(x) = walk_object(s, pairs, enter_object(a.tree), at + 1, close) {
                        let y = walk_object(t, pairs, enter_object(b.tree), at + 1, close)->Ok_0;
                        let value = ValueView::Object(x.members);
                        let r = object_range(s, at, close);
                        let u = object_range(t, at, close);
                        lemma_commit_item_alike(
                            ArrayWalk { tree: x.tree, ..a },
                            ArrayWalk { tree: y.tree, ..b },
                            r,
                            u,
                            value,
                        );
                        lemma_walk_array_alike(
                            s,
                            t,
                            pairs,
                            commit_item(ArrayWalk { tree: x.tree, ..a }, r, value),
                            commit_item(ArrayWalk { tree: y.tree, ..b }, u, value),
                            close + 1,
                            end,
                        );
                    }
                }
            },
            (TokenView::ArrayOpen(_), _) => {
                if let Some(close) = closer_of(pairs, s.len(), at) {
                    lemma_walk_array_alike(
                        s,
                        t,
                        pairs,
                        enter_array(a.tree),
                        enter_array(b.tree),
                        at + 1,
                        close,
                    );
                    if let Ok(x) = walk_array(s, pairs, enter_array(a.tree), at + 1, close) {
                        let y = walk_array(t, pairs, enter_array(b.tree), at + 1, close)->Ok_0;
                        let value = ValueView::Array(x.items);
                        let r = array_range(s, at, close);
                        let u = array_range(t, at, close);
                        lemma_commit_item_alike(
                            ArrayWalk { tree: x.tree, ..a },
                            ArrayWalk { tree: y.tree, ..b },
                            r,
                            u,
                            value,
                        );
                        lemma_walk_array_alike(
                            s,
                            t,
                            pairs,
                            commit_item(ArrayWalk { tree: x.tree, ..a }, r, value),
                            commit_item(ArrayWalk { tree: y.tree, ..b }, u, value),
                            close + 1,
                            end,
                        );
                    }
                }
            },
            (token, other) => {
                match (primitive(token), primitive(other)) {
                    (Some((r, value)), Some((u, _))) => {
                        lemma_commit_item_alike(a, b, r, u, value);
                        lemma_walk_array_alike(
                            s,
                            t,
                            pairs,
                            commit_item(a, r, value),
                            commit_item(b, u, value),
                            at + 1,
                            end,
                        );
                    },
                    _ => {
                        lemma_walk_array_alike(s, t, pairs, a, b, at + 1, end);
                    },
                }
            },
        }
    }
}

/// Tokens that are alike stand for trees that are alike but for their
/// ranges, or fail to stand for a tree in the same way.
pub proof fn lemma_build_tree_alike(s: Seq<TokenView>, t: Seq<TokenView>)
    requires
        same_tokens(s, t),
    ensures
        same_meaning(build_tree(s), build_tree(t)),
{
    lemma_bracket_scan_alike(s, t, s.len() as int);
    let pairs = bracket_pairs(s);
    if s.len() > 0 {
        assert(same_token(s[0], t[0]));
        let a = enter_object(empty_tree());
        lemma_walk_object_alike(s, t, pairs, a, a, 1, s.len() - 1);
        if let Ok(x) = walk_object(s, pairs, a, 1, s.len() - 1) {
            let y = walk_object(t, pairs, a, 1, s.len() - 1)->Ok_0;
            let value = ValueView::Object(x.members);
            lemma_push_entry_alike(
                x.tree,
                y.tree,
                EntryView { key: None, range: object_range(s, 0, s.len() - 1), value },
                EntryView { key: None, range: object_range(t, 0, t.len() - 1), value },
            );
        }
    }
}

/// Trees that are alike but for their ranges answer every query alike: a
/// path leads to the entries at the same indices, and these own the key
/// records at the same indices.
pub proof fn lemma_same_tree_same_answers(a: TreeView, b: TreeView, path: Seq<PathView>)
    requires
        same_tree(a, b),
    ensures
        a.resolve(path) == b.resolve(path),
        a.holds(a.resolve(path)),
        a.owned_keys_of_each(a.resolve(path)) == b.owned_keys_of_each(b.resolve(path)),
    decreases path.len(),
{
    if path.len() > 0 {
        lemma_same_tree_same_answers(a, b, path.drop_last());
        let found = a.resolve(path.drop_last());
        lemma_step_each_alike(a, b, path.last(), found);
        match path.last() {
            PathView::RecursiveWildcard => {
                let more = a.step_each(path.last(), found);
                assert forall|k: int| 0 <= k < (found + more).len() implies #[trigger] (found
                    + more)[k] < a.entries.len() by {
                    if k < found.len() {
                        assert((found + more)[k] == found[k]);
                    } else {
                        assert((found + more)[k] == more[k - found.len()]);
                    }
                }
            },
            _ => {},
        }
    }
    lemma_owned_keys_alike(a, b, a.resolve(path));
}

/// One step of a path does the same to the same candidates in trees that are
/// alike.
proof fn lemma_step_each_alike(a: TreeView, b: TreeView, step: PathView, nodes: Seq<usize>)
    requires
        same_tree(a, b),
        a.holds(nodes),
    ensures
        a.step_each(step, nodes) == b.step_each(step, nodes),
        a.holds(a.step_each(step, nodes)),
    decreases nodes.len(),
{
    if nodes.len() > 0 {
        let front = nodes.drop_last();
        assert forall|k: int| 0 <= k < front.len() implies #[trigger] front[k]
            < a.entries.len() by {
            assert(front[k] == nodes[k]);
        }
        lemma_step_each_alike(a, b, step, front);
        let i = nodes[nodes.len() - 1];
        assert(a.entries[i as int].value == b.entries[i as int].value);
        lemma_descendants_alike(a, b, i);
        crate::tree::lemma_step_one_below(a, step, i);
        let done = a.step_each(step, front);
        let more = a.step_one(step, i);
        assert forall|k: int| 0 <= k < (done + more).len() implies #[trigger] (done + more)[k]
            < a.entries.len() by {
            if k < done.len() {
                assert((done + more)[k] == done[k]);
            } else {
                assert((done + more)[k] == more[k - done.len()]);
            }
        }
    }
}

/// The same entries lie below an entry in trees that are alike.
proof fn lemma_descendants_alike(a: TreeView, b: TreeView, i: usize)
    requires
        same_tree(a, b),
        i < a.entries.len(),
    ensures
        a.descendants(i) == b.descendants(i),
    decreases i + 1, 0nat,
{
    assert(a.entries[i as int].value == b.entries[i as int].value);
    crate::tree::lemma_below_bound(a.entries[i as int].refs(), i);
    lemma_descendants_of_each_alike(a, b, a.children(i), i);
}

/// The same entries lie below each of some entries in trees that are alike.
proof fn lemma_descendants_of_each_alike(a: TreeView, b: TreeView, nodes: Seq<usize>, bound: usize)
    requires
        same_tree(a, b),
        bound <= a.entries.len(),
    ensures
        a.descendants_of_each(nodes, bound) == b.descendants_of_each(nodes, bound),
    decreases bound, nodes.len() + 1,
{
    if nodes.len() > 0 {
        lemma_descendants_of_each_alike(a, b, nodes.drop_last(), bound);
        if nodes.last() < bound {
            lemma_descendants_alike(a, b, nodes.last());
        }
    }
}

/// The same entries own the same key records in trees that are alike.
proof fn lemma_owned_keys_alike(a: TreeView, b: TreeView, nodes: Seq<usize>)
    requires
        same_tree(a, b),
        a.holds(nodes),
    ensures
        a.owned_keys_of_each(nodes) == b.owned_keys_of_each(nodes),
    decreases nodes.len(),
{
    if nodes.len() > 0 {
        let front = nodes.drop_last();
        assert forall|k: int| 0 <= k < front.len() implies #[trigger] front[k]
            < a.entries.len() by {
            assert(front[k] == nodes[k]);
        }
        lemma_owned_keys_alike(a, b, front);
        let i = nodes[nodes.len() - 1];
        assert(a.entries[i as int].value == b.entries[i as int].value);
    }
}

} // verus!
