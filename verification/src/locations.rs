//! Every value is found where its range says.
//!
//! The ranges in a tree are those of the tokens that it was built from. So
//! the offsets of an entry's range lead back into the text: to the literal
//! that a primitive was read from, to the braces or brackets that enclose a
//! composite value. The same holds of every key record.
use crate::parser::order::{
    in_order, lemma_no_more_tokens_than_characters, lemma_tokens_in_order, not_before, range_of,
};
use crate::parser::parse::{
    array_range, bracket_pairs, build_tree, closer_of, commit_item, commit_member, empty_tree,
    enter_array, enter_object, is_pair, lemma_bracket_pairs_fit, object_range, pairs_fit,
    primitive, read_key, walk_array, walk_object, ArrayWalk, ObjectWalk,
};
use crate::parser::spans::{lemma_tokens_fit_source, token_fits_source, tokens_fit_source};
use crate::parser::tokenize::{tokenize_spec, TokenView};
use crate::tree::{EntryView, KeyView, TreeView, ValueView};
use crate::types::{Position, Range};
use crate::{document_tree, without_comments};
use vstd::prelude::*;

verus! {

/// Whether `range` covers a part of `text` that starts with `open` and ends
/// with `close`.
pub open spec fn covers_pair(text: Seq<char>, range: Range, open: char, close: char) -> bool {
    &&& range.start.idx + 2 <= range.end.idx <= text.len()
    &&& text[range.start.idx as int] == open
    &&& text[range.end.idx - 1] == close
}

/// Whether an entry stands in `text` where its range says: a primitive as
/// the token that it was read from, a composite value from its opening brace
/// or bracket to its closing one.
pub open spec fn entry_fits_source(text: Seq<char>, entry: EntryView) -> bool {
    match entry.value {
        ValueView::Object(_) => covers_pair(text, entry.range, '{', '}'),
        ValueView::Array(_) => covers_pair(text, entry.range, '[', ']'),
        ValueView::String(content) => token_fits_source(
            text,
            TokenView::String(entry.range, content),
        ),
        ValueView::Float(content) => token_fits_source(
            text,
            TokenView::Float(entry.range, content),
        ),
        ValueView::Int(value) => token_fits_source(text, TokenView::Int(entry.range, value)),
        ValueView::Bool(value) => token_fits_source(text, TokenView::Bool(entry.range, value)),
        ValueView::Null => token_fits_source(text, TokenView::Null(entry.range)),
    }
}

/// Whether a key record stands in `text` where its range says: between two
/// quotes, as the string that it was read from.
pub open spec fn key_fits_source(text: Seq<char>, key: KeyView) -> bool {
    token_fits_source(text, TokenView::String(key.range, key.name))
}

/// Whether the root stands in `text` where its range says. It starts with
/// the first brace of the document. It ends with a closing brace where the
/// last token of the document is one; else its end is the origin.
pub open spec fn root_fits_source(text: Seq<char>, root: EntryView) -> bool {
    &&& root.range.start.idx < text.len()
    &&& text[root.range.start.idx as int] == '{'
    &&& root.range.end == Position::origin() || covers_pair(text, root.range, '{', '}')
}

/// Whether every entry and every key record of a tree stand in `text` where
/// their ranges say.
pub open spec fn tree_fits_source(text: Seq<char>, tree: TreeView) -> bool {
    &&& forall|i: int|
        0 <= i < tree.entries.len() - 1 ==> entry_fits_source(text, #[trigger] tree.entries[i])
    &&& forall|k: int| 0 <= k < tree.keys.len() ==> key_fits_source(text, #[trigger] tree.keys[k])
    &&& tree.entries.len() > 0 ==> root_fits_source(text, tree.entries.last())
}

/// Whether every entry and every key record of a tree under construction
/// stand in `text` where their ranges say.
spec fn located(text: Seq<char>, tree: TreeView) -> bool {
    &&& forall|i: int|
        0 <= i < tree.entries.len() ==> entry_fits_source(text, #[trigger] tree.entries[i])
    &&& forall|k: int| 0 <= k < tree.keys.len() ==> key_fits_source(text, #[trigger] tree.keys[k])
}

/// What is left of tokens when the comments are dropped are some of the
/// tokens, in the order that they had.
proof fn lemma_without_comments_picks(tokens: Seq<TokenView>)
    ensures
        forall|i: int|
            0 <= i < without_comments(tokens).len() ==> exists|j: int|
                i <= j < tokens.len() && tokens[j] == #[trigger] without_comments(tokens)[i],
        without_comments(tokens).len() <= tokens.len(),
    decreases tokens.len(),
{
    if tokens.len() > 0 {
        let front = tokens.drop_last();
        lemma_without_comments_picks(front);
        let kept = without_comments(tokens);
        assert forall|i: int| 0 <= i < kept.len() implies exists|j: int|
            i <= j < tokens.len() && tokens[j] == #[trigger] kept[i] by {
            if i < without_comments(front).len() {
                let j = choose|j: int|
                    i <= j < front.len() && front[j] == without_comments(front)[i];
                assert(tokens[j] == kept[i]);
            } else {
                assert(tokens[tokens.len() - 1] == kept[i]);
            }
        }
    }
}

/// Tokens that fit the text and come in its order still do when the comments
/// are dropped.
proof fn lemma_without_comments_keeps_place(text: Seq<char>, tokens: Seq<TokenView>)
    requires
        tokens_fit_source(text, tokens),
        in_order(tokens),
    ensures
        tokens_fit_source(text, without_comments(tokens)),
        in_order(without_comments(tokens)),
    decreases tokens.len(),
{
    if tokens.len() > 0 {
        let front = tokens.drop_last();
        let last = tokens[tokens.len() - 1];
        assert forall|i: int| 0 <= i < front.len() implies token_fits_source(
            text,
            #[trigger] front[i],
        ) by {
            assert(front[i] == tokens[i]);
        }
        assert(in_order(front)) by {
            assert forall|i: int| 0 <= i < front.len() implies (range_of(
                #[trigger] front[i],
            ) matches Some(r) ==> not_before(r.start, r.end)) by {
                assert(front[i] == tokens[i]);
            }
            assert forall|i: int, j: int| 0 <= i < j < front.len() implies (range_of(
                #[trigger] front[i],
            ) matches Some(a) ==> (range_of(#[trigger] front[j]) matches Some(b) ==> not_before(
                a.end,
                b.start,
            ))) by {
                assert(front[i] == tokens[i]);
                assert(front[j] == tokens[j]);
            }
        }
        lemma_without_comments_keeps_place(text, front);
        lemma_without_comments_picks(front);
        let kept = without_comments(tokens);
        let before = without_comments(front);
        if !(last is Comment) {
            assert(token_fits_source(text, last));
            assert forall|i: int| 0 <= i < kept.len() implies token_fits_source(
                text,
                #[trigger] kept[i],
            ) by {
                if i < before.len() {
                    assert(kept[i] == before[i]);
                }
            }
            assert forall|i: int| 0 <= i < kept.len() implies (range_of(
                #[trigger] kept[i],
            ) matches Some(r) ==> not_before(r.start, r.end)) by {
                if i < before.len() {
                    assert(kept[i] == before[i]);
                }
            }
            assert forall|i: int, j: int| 0 <= i < j < kept.len() implies (range_of(
                #[trigger] kept[i],
            ) matches Some(a) ==> (range_of(#[trigger] kept[j]) matches Some(b) ==> not_before(
                a.end,
                b.start,
            ))) by {
                assert(kept[i] == before[i]);
                if j < before.len() {
                    assert(kept[j] == before[j]);
                } else {
                    let k = choose|k: int| i <= k < front.len() && front[k] == before[i];
                    assert(tokens[k] == kept[i]);
                    assert(tokens[tokens.len() - 1] == kept[j]);
                }
            }
        }
    }
}

/// A tree whose entries are found, with one more entry that is found.
proof fn lemma_push_entry_located(text: Seq<char>, tree: TreeView, entry: EntryView)
    requires
        located(text, tree),
        entry_fits_source(text, entry),
    ensures
        located(text, TreeView { entries: tree.entries.push(entry), keys: tree.keys }),
{
    let entries = tree.entries.push(entry);
    assert forall|i: int| 0 <= i < entries.len() implies entry_fits_source(
        text,
        #[trigger] entries[i],
    ) by {
        if i < tree.entries.len() {
            assert(entries[i] == tree.entries[i]);
        }
    }
}

/// The span from an opener to its closer covers a part of the text that
/// starts with the one and ends with the other.
proof fn lemma_pair_located(text: Seq<char>, tokens: Seq<TokenView>, open: int, close: int)
    requires
        tokens_fit_source(text, tokens),
        in_order(tokens),
        0 <= open <= usize::MAX,
        0 <= close <= usize::MAX,
        is_pair(tokens, open as usize, close as usize),
    ensures
        tokens[open] is ObjectOpen ==> covers_pair(text, object_range(tokens, open, close), '{', '}'),
        tokens[open] is ArrayOpen ==> covers_pair(text, array_range(tokens, open, close), '[', ']'),
{
    assert(token_fits_source(text, tokens[open]));
    assert(token_fits_source(text, tokens[close]));
    let a = range_of(tokens[open])->Some_0;
    let b = range_of(tokens[close])->Some_0;
    assert(not_before(a.end, b.start));
}

/// A walk through an object leaves every entry and key record where its
/// range says.
proof fn lemma_walk_object_located(
    text: Seq<char>,
    tokens: Seq<TokenView>,
    pairs: Map<usize, usize>,
    walk: ObjectWalk,
    at: int,
    end: int,
)
    requires
        0 <= at,
        end <= tokens.len(),
        tokens_fit_source(text, tokens),
        in_order(tokens),
        pairs_fit(pairs, tokens),
        located(text, walk.tree),
    ensures
        walk_object(tokens, pairs, walk, at, end) matches Ok(done) ==> located(text, done.tree),
    decreases tokens.len() - at, 0nat,
{
    if at < end {
        assert(token_fits_source(text, tokens[at]));
        match tokens[at] {
            TokenView::Comma => {
                lemma_walk_object_located(
                    text,
                    tokens,
                    pairs,
                    ObjectWalk { expecting_key: true, ..walk },
                    at + 1,
                    end,
                );
            },
            TokenView::Colon => {
                lemma_walk_object_located(
                    text,
                    tokens,
                    pairs,
                    ObjectWalk { expecting_key: false, ..walk },
                    at + 1,
                    end,
                );
            },
            TokenView::String(range, content) => {
                if walk.expecting_key {
                    let next = read_key(walk, range, content);
                    assert forall|k: int| 0 <= k < next.tree.keys.len() implies key_fits_source(
                        text,
                        #[trigger] next.tree.keys[k],
                    ) by {
                        if k < walk.tree.keys.len() {
                            assert(next.tree.keys[k] == walk.tree.keys[k]);
                        }
                    }
                    lemma_walk_object_located(text, tokens, pairs, next, at + 1, end);
                } else {
                    lemma_commit_then_walk_located(
                        text,
                        tokens,
                        pairs,
                        walk,
                        range,
                        ValueView::String(content),
                        at + 1,
                        end,
                    );
                }
            },
            TokenView::ObjectOpen(_) => {
                if let Some(close) = closer_of(pairs, tokens.len(), at) {
                    assert(pairs.contains_key(at as usize));
                    lemma_pair_located(text, tokens, at, close);
                    lemma_walk_object_located(
                        text,
                        tokens,
                        pairs,
                        enter_object(walk.tree),
                        at + 1,
                        close,
                    );
                    if let Ok(inner) = walk_object(
                        tokens,
                        pairs,
                        enter_object(walk.tree),
                        at + 1,
                        close,
                    ) {
                        lemma_commit_then_walk_located(
                            text,
                            tokens,
                            pairs,
                            ObjectWalk { tree: inner.tree, ..walk },
                            object_range(tokens, at, close),
                            ValueView::Object(inner.members),
                            close + 1,
                            end,
                        );
                    }
                }
            },
            TokenView::ArrayOpen(_) => {
                if let Some(close) = closer_of(pairs, tokens.len(), at) {
                    assert(pairs.contains_key(at as usize));
                    lemma_pair_located(text, tokens, at, close);
                    lemma_walk_array_located(
                        text,
                        tokens,
                        pairs,
                        enter_array(walk.tree),
                        at + 1,
                        close,
                    );
                    if let Ok(inner) = walk_array(
                        tokens,
                        pairs,
                        enter_array(walk.tree),
                        at + 1,
                        close,
                    ) {
                        lemma_commit_then_walk_located(
                            text,
                            tokens,
                            pairs,
                            ObjectWalk { tree: inner.tree, ..walk },
                            array_range(tokens, at, close),
                            ValueView::Array(inner.items),
                            close + 1,
                            end,
                        );
                    }
                }
            },
            token => {
                match primitive(token) {
                    Some((range, value)) => {
                        lemma_commit_then_walk_located(
                            text,
                            tokens,
                            pairs,
                            walk,
                            range,
                            value,
                            at + 1,
                            end,
                        );
                        lemma_walk_object_located(text, tokens, pairs, walk, at + 1, end);
                    },
                    None => {
                        lemma_walk_object_located(text, tokens, pairs, walk, at + 1, end);
                    },
                }
            },
        }
    }
}

/// Storing a value that is found and walking on leaves every entry and key
/// record where its range says.
proof fn lemma_commit_then_walk_located(
    text: Seq<char>,
    tokens: Seq<TokenView>,
    pairs: Map<usize, usize>,
    walk: ObjectWalk,
    range: Range,
    value: ValueView,
    at: int,
    end: int,
)
    requires
        0 < at <= tokens.len(),
        end <= tokens.len(),
        tokens_fit_source(text, tokens),
        in_order(tokens),
        pairs_fit(pairs, tokens),
        located(text, walk.tree),
        entry_fits_source(text, EntryView { key: None, range, value }),
    ensures
        commit_member(walk, range, value) matches Some(next) ==> (walk_object(
            tokens,
            pairs,
            next,
            at,
            end,
        ) matches Ok(done) ==> located(text, done.tree)),
    decreases tokens.len() - at, 1nat,
{
    if let Some(next) = commit_member(walk, range, value) {
        lemma_push_entry_located(text, walk.tree, EntryView { key: Some(walk.key), range, value });
        lemma_walk_object_located(text, tokens, pairs, next, at, end);
    }
}

/// A walk through an array leaves every entry and key record where its
/// range says.
proof fn lemma_walk_array_located(
    text: Seq<char>,
    tokens: Seq<TokenView>,
    pairs: Map<usize, usize>,
    walk: ArrayWalk,
    at: int,
    end: int,
)
    requires
        0 <= at,
        end <= tokens.len(),
        tokens_fit_source(text, tokens),
        in_order(tokens),
        pairs_fit(pairs, tokens),
        located(text, walk.tree),
    ensures
        walk_array(tokens, pairs, walk, at, end) matches Ok(done) ==> located(text, done.tree),
    decreases tokens.len() - at, 0nat,
{
    if at < end {
        assert(token_fits_source(text, tokens[at]));
        match tokens[at] {
            TokenView::ObjectOpen(_) => {
                if let Some(close) = closer_of(pairs, tokens.len(), at) {
                    assert(pairs.contains_key(at as usize));
                    lemma_pair_located(text, tokens, at, close);
                    lemma_walk_object_located(
                        text,
                        tokens,
                        pairs,
                        enter_object(walk.tree),
                        at + 1,
                        close,
                    );
                    if let Ok(inner) = walk_object(
                        tokens,
                        pairs,
                        enter_object(walk.tree),
                        at + 1,
                        close,
                    ) {
                        let range = object_range(tokens, at, close);
                        let value = ValueView::Object(inner.members);
                        lemma_push_entry_located(
                            text,
                            inner.tree,
                            EntryView { key: None, range, value },
                        );
                        lemma_walk_array_located(
                            text,
                            tokens,
                            pairs,
                            commit_item(ArrayWalk { tree: inner.tree, ..walk }, range, value),
                            close + 1,
                            end,
                        );
                    }
                }
            },
            TokenView::ArrayOpen(_) => {
                if let Some(close) = closer_of(pairs, tokens.len(), at) {
                    assert(pairs.contains_key(at as usize));
                    lemma_pair_located(text, tokens, at, close);
                    lemma_walk_array_located(
                        text,
                        tokens,
                        pairs,
                        enter_array(walk.tree),
                        at + 1,
                        close,
                    );
                    if let Ok(inner) = walk_array(
                        tokens,
                        pairs,
                        enter_array(walk.tree),
                        at + 1,
                        close,
                    ) {
                        let range = array_range(tokens, at, close);
                        let value = ValueView::Array(inner.items);
                        lemma_push_entry_located(
                            text,
                            inner.tree,
                            EntryView { key: None, range, value },
                        );
                        lemma_walk_array_located(
                            text,
                            tokens,
                            pairs,
                            commit_item(ArrayWalk { tree: inner.tree, ..walk }, range, value),
                            close + 1,
                            end,
                        );
                    }
                }
            },
            token => {
                match primitive(token) {
                    Some((range, value)) => {
                        lemma_push_entry_located(
                            text,
                            walk.tree,
                            EntryView { key: None, range, value },
                        );
                        lemma_walk_array_located(
                            text,
                            tokens,
                            pairs,
                            commit_item(walk, range, value),
                            at + 1,
                            end,
                        );
                    },
                    None => {
                        lemma_walk_array_located(text, tokens, pairs, walk, at + 1, end);
                    },
                }
            },
        }
    }
}

/// Every value of a parsed document is found in the text where its range
/// says, and so is every key.
///
/// The offsets of the range of a primitive delimit the literal that it was
/// read from; those of a composite value lead from its opening brace or
/// bracket to its closing one; those of a key record delimit what stands
/// between the quotes of the key.
pub proof fn lemma_tree_fits_source(text: Seq<char>)
    requires
        text.len() <= usize::MAX,
    ensures
        document_tree(text) matches Ok(tree) ==> tree_fits_source(text, tree),
{
    if let Ok(all) = tokenize_spec(text) {
        lemma_tokens_fit_source(text);
        lemma_tokens_in_order(text);
        lemma_no_more_tokens_than_characters(text);
        lemma_without_comments_keeps_place(text, all);
        lemma_without_comments_picks(all);
        let tokens = without_comments(all);
        let pairs = bracket_pairs(tokens);
        if tokens.len() > 0 {
            lemma_bracket_pairs_fit(tokens);
            let start = enter_object(empty_tree());
            lemma_walk_object_located(text, tokens, pairs, start, 1, tokens.len() - 1);
            if let Ok(tree) = build_tree(tokens) {
                let walk = walk_object(tokens, pairs, start, 1, tokens.len() - 1)->Ok_0;
                assert(token_fits_source(text, tokens[0]));
                assert(token_fits_source(text, tokens[tokens.len() - 1]));
                assert(pairs.contains_key(0));
                if tokens[tokens.len() - 1] is ObjectClose {
                    assert(is_pair(tokens, 0, pairs[0]));
                    let a = range_of(tokens[0])->Some_0;
                    let b = range_of(tokens[tokens.len() - 1])->Some_0;
                    assert(not_before(a.end, b.start));
                }
                assert forall|i: int| 0 <= i < tree.entries.len() - 1 implies entry_fits_source(
                    text,
                    #[trigger] tree.entries[i],
                ) by {
                    assert(tree.entries[i] == walk.tree.entries[i]);
                }
            }
        }
    }
}

} // verus!
