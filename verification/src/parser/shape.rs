//! What is built is well formed.
//!
//! The builder only appends. A composite value is stored after the values it
//! holds, so every reference in the tree points back; the root is stored
//! last.
use crate::parser::parse::{
    array_range, build_tree, closer_of, commit_item, commit_member, empty_tree, enter_array,
    enter_object, object_range, primitive, put_member, read_key, walk_array, walk_object, ArrayWalk,
    ObjectWalk,
};
use crate::parser::tokenize::TokenView;
use crate::tree::{
    distinct_names, lemma_member_position, member_position, EntryView, KeyView, MemberView,
    TreeView, ValueView,
};
use crate::types::{ParseError, Range};
use vstd::prelude::*;

verus! {

/// Whether `later` is `earlier` with entries and key records added at the
/// end.
pub open spec fn extends(earlier: TreeView, later: TreeView) -> bool {
    &&& earlier.entries.is_prefix_of(later.entries)
    &&& earlier.keys.is_prefix_of(later.keys)
}

/// Whether the members refer to entries and key records of the tree, and no
/// two of them have one name.
pub open spec fn members_fit(tree: TreeView, members: Seq<MemberView>) -> bool {
    &&& distinct_names(members)
    &&& forall|k: int|
        0 <= k < members.len() ==> (#[trigger] members[k]).value < tree.entries.len() && members[k].key
            < tree.keys.len()
}

/// Whether the items refer to entries of the tree.
pub open spec fn items_fit(tree: TreeView, items: Seq<usize>) -> bool {
    forall|k: int| 0 <= k < items.len() ==> #[trigger] items[k] < tree.entries.len()
}

/// What extends an extension of a tree extends the tree.
pub(crate) proof fn lemma_extends_chain(a: TreeView, b: TreeView, c: TreeView)
    requires
        extends(a, b),
        extends(b, c),
    ensures
        extends(a, c),
{
    assert(a.entries =~= c.entries.subrange(0, a.entries.len() as int)) by {
        assert forall|i: int| 0 <= i < a.entries.len() implies a.entries[i] == c.entries[i] by {
            assert(a.entries[i] == b.entries.subrange(0, a.entries.len() as int)[i]);
            assert(b.entries[i] == c.entries.subrange(0, b.entries.len() as int)[i]);
        }
    }
    assert(a.keys =~= c.keys.subrange(0, a.keys.len() as int)) by {
        assert forall|i: int| 0 <= i < a.keys.len() implies a.keys[i] == c.keys[i] by {
            assert(a.keys[i] == b.keys.subrange(0, a.keys.len() as int)[i]);
            assert(b.keys[i] == c.keys.subrange(0, b.keys.len() as int)[i]);
        }
    }
}

/// Every tree extends itself.
pub(crate) proof fn lemma_extends_self(a: TreeView)
    ensures
        extends(a, a),
{
    assert(a.entries =~= a.entries.subrange(0, a.entries.len() as int));
    assert(a.keys =~= a.keys.subrange(0, a.keys.len() as int));
}

/// A tree with one more entry extends the tree.
pub(crate) proof fn lemma_extends_push_entry(a: TreeView, entry: EntryView)
    ensures
        extends(a, TreeView { entries: a.entries.push(entry), keys: a.keys }),
{
    assert(a.entries =~= a.entries.push(entry).subrange(0, a.entries.len() as int));
    assert(a.keys =~= a.keys.subrange(0, a.keys.len() as int));
}

/// A tree with one more key record extends the tree.
pub(crate) proof fn lemma_extends_push_key(a: TreeView, key: KeyView)
    ensures
        extends(a, TreeView { entries: a.entries, keys: a.keys.push(key) }),
{
    assert(a.entries =~= a.entries.subrange(0, a.entries.len() as int));
    assert(a.keys =~= a.keys.push(key).subrange(0, a.keys.len() as int));
}

/// A walk through an object only adds to the tree.
pub proof fn lemma_walk_object_extends(
    tokens: Seq<TokenView>,
    pairs: Map<usize, usize>,
    walk: ObjectWalk,
    at: int,
    end: int,
)
    requires
        0 <= at,
        end <= tokens.len(),
    ensures
        walk_object(tokens, pairs, walk, at, end) matches Ok(done) ==> extends(walk.tree, done.tree),
    decreases tokens.len() - at, 0nat,
{
    lemma_extends_self(walk.tree);
    if at < end {
        match tokens[at] {
            TokenView::Comma => {
                lemma_walk_object_extends(
                    tokens,
                    pairs,
                    ObjectWalk { expecting_key: true, ..walk },
                    at + 1,
                    end,
                );
            },
            TokenView::Colon => {
                lemma_walk_object_extends(
                    tokens,
                    pairs,
                    ObjectWalk { expecting_key: false, ..walk },
                    at + 1,
                    end,
                );
            },
            TokenView::String(range, text) => {
                if walk.expecting_key {
                    let next = read_key(walk, range, text);
                    lemma_extends_push_key(walk.tree, KeyView { name: text, range });
                    lemma_walk_object_extends(tokens, pairs, next, at + 1, end);
                    if let Ok(done) = walk_object(tokens, pairs, next, at + 1, end) {
                        lemma_extends_chain(walk.tree, next.tree, done.tree);
                    }
                } else {
                    lemma_commit_then_walk_extends(
                        tokens,
                        pairs,
                        walk,
                        range,
                        ValueView::String(text),
                        at + 1,
                        end,
                    );
                }
            },
            TokenView::ObjectOpen(_) => {
                if let Some(close) = closer_of(pairs, tokens.len(), at) {
                    lemma_walk_object_extends(tokens, pairs, enter_object(walk.tree), at + 1, close);
                    if let Ok(inner) = walk_object(tokens, pairs, enter_object(walk.tree), at + 1, close) {
                        let outer = ObjectWalk { tree: inner.tree, ..walk };
                        lemma_commit_then_walk_extends(
                            tokens,
                            pairs,
                            outer,
                            object_range(tokens, at, close),
                            ValueView::Object(inner.members),
                            close + 1,
                            end,
                        );
                        if let Ok(done) = walk_object(tokens, pairs, walk, at, end) {
                            lemma_extends_chain(walk.tree, inner.tree, done.tree);
                        }
                    }
                }
            },
            TokenView::ArrayOpen(_) => {
                if let Some(close) = closer_of(pairs, tokens.len(), at) {
                    lemma_walk_array_extends(tokens, pairs, enter_array(walk.tree), at + 1, close);
                    if let Ok(inner) = walk_array(tokens, pairs, enter_array(walk.tree), at + 1, close) {
                        let outer = ObjectWalk { tree: inner.tree, ..walk };
                        lemma_commit_then_walk_extends(
                            tokens,
                            pairs,
                            outer,
                            array_range(tokens, at, close),
                            ValueView::Array(inner.items),
                            close + 1,
                            end,
                        );
                        if let Ok(done) = walk_object(tokens, pairs, walk, at, end) {
                            lemma_extends_chain(walk.tree, inner.tree, done.tree);
                        }
                    }
                }
            },
            token => {
                match primitive(token) {
                    Some((range, value)) => {
                        lemma_commit_then_walk_extends(
                            tokens,
                            pairs,
                            walk,
                            range,
                            value,
                            at + 1,
                            end,
                        );
                        lemma_walk_object_extends(tokens, pairs, walk, at + 1, end);
                    },
                    None => {
                        lemma_walk_object_extends(tokens, pairs, walk, at + 1, end);
                    },
                }
            },
        }
    }
}

/// Storing a member and walking on only adds to the tree.
proof fn lemma_commit_then_walk_extends(
    tokens: Seq<TokenView>,
    pairs: Map<usize, usize>,
    walk: ObjectWalk,
    range: Range,
    value: ValueView,
    at: int,
    end: int,
)
    requires
        0 < at <= tokens.len(),
        end <= tokens.len(),
    ensures
        commit_member(walk, range, value) matches Some(next) ==> (walk_object(
            tokens,
            pairs,
            next,
            at,
            end,
        ) matches Ok(done) ==> extends(walk.tree, done.tree)),
    decreases tokens.len() - at, 1nat,
{
    if let Some(next) = commit_member(walk, range, value) {
        lemma_extends_push_entry(walk.tree, EntryView { key: Some(walk.key), range, value });
        lemma_walk_object_extends(tokens, pairs, next, at, end);
        if let Ok(done) = walk_object(tokens, pairs, next, at, end) {
            lemma_extends_chain(walk.tree, next.tree, done.tree);
        }
    }
}

/// A walk through an array only adds to the tree.
pub proof fn lemma_walk_array_extends(
    tokens: Seq<TokenView>,
    pairs: Map<usize, usize>,
    walk: ArrayWalk,
    at: int,
    end: int,
)
    requires
        0 <= at,
        end <= tokens.len(),
    ensures
        walk_array(tokens, pairs, walk, at, end) matches Ok(done) ==> extends(walk.tree, done.tree),
    decreases tokens.len() - at, 0nat,
{
    lemma_extends_self(walk.tree);
    if at < end {
        match tokens[at] {
            TokenView::ObjectOpen(_) => {
                if let Some(close) = closer_of(pairs, tokens.len(), at) {
                    lemma_walk_object_extends(tokens, pairs, enter_object(walk.tree), at + 1, close);
                    if let Ok(inner) = walk_object(tokens, pairs, enter_object(walk.tree), at + 1, close) {
                        let range = object_range(tokens, at, close);
                        let value = ValueView::Object(inner.members);
                        let next = commit_item(ArrayWalk { tree: inner.tree, ..walk }, range, value);
                        lemma_extends_push_entry(inner.tree, EntryView { key: None, range, value });
                        lemma_walk_array_extends(tokens, pairs, next, close + 1, end);
                        if let Ok(done) = walk_array(tokens, pairs, next, close + 1, end) {
                            lemma_extends_chain(inner.tree, next.tree, done.tree);
                            lemma_extends_chain(walk.tree, inner.tree, done.tree);
                        }
                    }
                }
            },
            TokenView::ArrayOpen(_) => {
                if let Some(close) = closer_of(pairs, tokens.len(), at) {
                    lemma_walk_array_extends(tokens, pairs, enter_array(walk.tree), at + 1, close);
                    if let Ok(inner) = walk_array(tokens, pairs, enter_array(walk.tree), at + 1, close) {
                        let range = array_range(tokens, at, close);
                        let value = ValueView::Array(inner.items);
                        let next = commit_item(ArrayWalk { tree: inner.tree, ..walk }, range, value);
                        lemma_extends_push_entry(inner.tree, EntryView { key: None, range, value });
                        lemma_walk_array_extends(tokens, pairs, next, close + 1, end);
                        if let Ok(done) = walk_array(tokens, pairs, next, close + 1, end) {
                            lemma_extends_chain(inner.tree, next.tree, done.tree);
                            lemma_extends_chain(walk.tree, inner.tree, done.tree);
                        }
                    }
                }
            },
            token => {
                match primitive(token) {
                    Some((range, value)) => {
                        let next = commit_item(walk, range, value);
                        lemma_extends_push_entry(walk.tree, EntryView { key: None, range, value });
                        lemma_walk_array_extends(tokens, pairs, next, at + 1, end);
                        if let Ok(done) = walk_array(tokens, pairs, next, at + 1, end) {
                            lemma_extends_chain(walk.tree, next.tree, done.tree);
                        }
                    },
                    None => {
                        lemma_walk_array_extends(tokens, pairs, walk, at + 1, end);
                    },
                }
            },
        }
    }
}

/// Whether a value that is about to be stored refers to entries and key
/// records of the tree.
pub open spec fn value_fits(tree: TreeView, value: ValueView) -> bool {
    match value {
        ValueView::Object(members) => members_fit(tree, members),
        ValueView::Array(items) => items_fit(tree, items),
        _ => true,
    }
}

/// Whether the state of a walk through an object is well formed.
pub open spec fn object_walk_fits(walk: ObjectWalk) -> bool {
    walk.tree.wf() && members_fit(walk.tree, walk.members)
}

/// Whether the state of a walk through an array is well formed.
pub open spec fn array_walk_fits(walk: ArrayWalk) -> bool {
    walk.tree.wf() && items_fit(walk.tree, walk.items)
}

/// What fits a tree fits every tree that extends it.
proof fn lemma_fit_extends(earlier: TreeView, later: TreeView)
    requires
        extends(earlier, later),
    ensures
        forall|members: Seq<MemberView>| #[trigger]
            members_fit(earlier, members) ==> members_fit(later, members),
        forall|items: Seq<usize>| #[trigger] items_fit(earlier, items) ==> items_fit(later, items),
{
}

/// A well-formed tree with one more entry that fits is well formed.
proof fn lemma_push_entry_wf(tree: TreeView, entry: EntryView)
    requires
        tree.wf(),
        entry.fits(tree.entries.len() as int, tree.keys.len()),
    ensures
        (TreeView { entries: tree.entries.push(entry), keys: tree.keys }).wf(),
{
    let later = TreeView { entries: tree.entries.push(entry), keys: tree.keys };
    assert forall|i: int| 0 <= i < later.entries.len() implies (#[trigger] later.entries[i]).fits(
        i,
        later.keys.len(),
    ) by {
        if i < tree.entries.len() {
            assert(later.entries[i] == tree.entries[i]);
        }
    }
}

/// A well-formed tree with one more key record is well formed.
proof fn lemma_push_key_wf(tree: TreeView, key: KeyView)
    requires
        tree.wf(),
    ensures
        (TreeView { entries: tree.entries, keys: tree.keys.push(key) }).wf(),
{
    let later = TreeView { entries: tree.entries, keys: tree.keys.push(key) };
    assert forall|i: int| 0 <= i < later.entries.len() implies (#[trigger] later.entries[i]).fits(
        i,
        later.keys.len(),
    ) by {
        assert(tree.entries[i].fits(i, tree.keys.len()));
    }
}

/// An entry for a value that fits the tree fits at the end of the tree.
proof fn lemma_entry_fits(tree: TreeView, key: Option<usize>, range: Range, value: ValueView)
    requires
        value_fits(tree, value),
        key matches Some(k) ==> k < tree.keys.len(),
    ensures
        (EntryView { key, range, value }).fits(tree.entries.len() as int, tree.keys.len()),
{
    let entry = EntryView { key, range, value };
    match value {
        ValueView::Object(members) => {
            assert forall|k: int| 0 <= k < entry.refs().len() implies #[trigger] entry.refs()[k]
                < tree.entries.len() by {
                assert(entry.refs()[k] == members[k].value);
            }
        },
        _ => {},
    }
}

/// Storing a value that fits as a member keeps the walk well formed.
proof fn lemma_commit_member_fits(walk: ObjectWalk, range: Range, value: ValueView)
    requires
        object_walk_fits(walk),
        value_fits(walk.tree, value),
        walk.tree.entries.len() < usize::MAX,
    ensures
        commit_member(walk, range, value) matches Some(next) ==> object_walk_fits(next),
{
    if let Some(next) = commit_member(walk, range, value) {
        let entry = EntryView { key: Some(walk.key), range, value };
        let member = MemberView {
            name: walk.tree.keys[walk.key as int].name,
            key: walk.key,
            value: walk.tree.entries.len() as usize,
        };
        lemma_entry_fits(walk.tree, Some(walk.key), range, value);
        lemma_push_entry_wf(walk.tree, entry);
        lemma_member_position(walk.members, member.name);
        let members = put_member(walk.members, member);
        assert(next.members == members);
        match member_position(walk.members, member.name) {
            Some(at) => {
                assert forall|i: int, j: int| 0 <= i < j < members.len() implies (
                #[trigger] members[i]).name != (#[trigger] members[j]).name by {
                    assert(members[i].name == walk.members[i].name);
                    assert(members[j].name == walk.members[j].name);
                }
                assert forall|k: int| 0 <= k < members.len() implies (#[trigger] members[k]).value
                    < next.tree.entries.len() && members[k].key < next.tree.keys.len() by {
                    if k != at {
                        assert(members[k] == walk.members[k]);
                    }
                }
            },
            None => {
                assert forall|i: int, j: int| 0 <= i < j < members.len() implies (
                #[trigger] members[i]).name != (#[trigger] members[j]).name by {
                    assert(members[i] == walk.members[i]);
                    if j < walk.members.len() {
                        assert(members[j] == walk.members[j]);
                    }
                }
                assert forall|k: int| 0 <= k < members.len() implies (#[trigger] members[k]).value
                    < next.tree.entries.len() && members[k].key < next.tree.keys.len() by {
                    if k < walk.members.len() {
                        assert(members[k] == walk.members[k]);
                    }
                }
            },
        }
    }
}

/// Storing a value that fits as an element keeps the walk well formed.
proof fn lemma_commit_item_fits(walk: ArrayWalk, range: Range, value: ValueView)
    requires
        array_walk_fits(walk),
        value_fits(walk.tree, value),
        walk.tree.entries.len() < usize::MAX,
    ensures
        array_walk_fits(commit_item(walk, range, value)),
{
    let next = commit_item(walk, range, value);
    lemma_entry_fits(walk.tree, None, range, value);
    lemma_push_entry_wf(walk.tree, EntryView { key: None, range, value });
    assert forall|k: int| 0 <= k < next.items.len() implies #[trigger] next.items[k]
        < next.tree.entries.len() by {
        if k < walk.items.len() {
            assert(next.items[k] == walk.items[k]);
        }
    }
}

/// A walk through an object keeps a well-formed state well formed.
pub(crate) proof fn lemma_walk_object_fits(
    tokens: Seq<TokenView>,
    pairs: Map<usize, usize>,
    walk: ObjectWalk,
    at: int,
    end: int,
)
    requires
        0 <= at,
        end <= tokens.len(),
        object_walk_fits(walk),
        walk_object(tokens, pairs, walk, at, end) is Ok,
        walk_object(tokens, pairs, walk, at, end)->Ok_0.tree.entries.len() <= usize::MAX,
    ensures
        object_walk_fits(walk_object(tokens, pairs, walk, at, end)->Ok_0),
    decreases tokens.len() - at, 0nat,
{
    if at < end {
        match tokens[at] {
            TokenView::Comma => {
                lemma_walk_object_fits(
                    tokens,
                    pairs,
                    ObjectWalk { expecting_key: true, ..walk },
                    at + 1,
                    end,
                );
            },
            TokenView::Colon => {
                lemma_walk_object_fits(
                    tokens,
                    pairs,
                    ObjectWalk { expecting_key: false, ..walk },
                    at + 1,
                    end,
                );
            },
            TokenView::String(range, text) => {
                if walk.expecting_key {
                    let key = KeyView { name: text, range };
                    lemma_push_key_wf(walk.tree, key);
                    lemma_extends_push_key(walk.tree, key);
                    lemma_fit_extends(walk.tree, read_key(walk, range, text).tree);
                    lemma_walk_object_fits(tokens, pairs, read_key(walk, range, text), at + 1, end);
                } else {
                    lemma_commit_then_walk_fits(
                        tokens,
                        pairs,
                        walk,
                        range,
                        ValueView::String(text),
                        at + 1,
                        end,
                    );
                }
            },
            TokenView::ObjectOpen(_) => {
                let close = closer_of(pairs, tokens.len(), at)->Some_0;
                let inner = walk_object(tokens, pairs, enter_object(walk.tree), at + 1, close)->Ok_0;
                let outer = ObjectWalk { tree: inner.tree, ..walk };
                let range = object_range(tokens, at, close);
                let value = ValueView::Object(inner.members);
                lemma_commit_then_walk_extends(tokens, pairs, outer, range, value, close + 1, end);
                lemma_walk_object_extends(tokens, pairs, enter_object(walk.tree), at + 1, close);
                lemma_walk_object_fits(tokens, pairs, enter_object(walk.tree), at + 1, close);
                lemma_fit_extends(walk.tree, inner.tree);
                lemma_commit_then_walk_fits(tokens, pairs, outer, range, value, close + 1, end);
            },
            TokenView::ArrayOpen(_) => {
                let close = closer_of(pairs, tokens.len(), at)->Some_0;
                let inner = walk_array(tokens, pairs, enter_array(walk.tree), at + 1, close)->Ok_0;
                let outer = ObjectWalk { tree: inner.tree, ..walk };
                let range = array_range(tokens, at, close);
                let value = ValueView::Array(inner.items);
                lemma_commit_then_walk_extends(tokens, pairs, outer, range, value, close + 1, end);
                lemma_walk_array_extends(tokens, pairs, enter_array(walk.tree), at + 1, close);
                lemma_walk_array_fits(tokens, pairs, enter_array(walk.tree), at + 1, close);
                lemma_fit_extends(walk.tree, inner.tree);
                lemma_commit_then_walk_fits(tokens, pairs, outer, range, value, close + 1, end);
            },
            token => {
                match primitive(token) {
                    Some((range, value)) => {
                        match commit_member(walk, range, value) {
                            Some(next) => {
                                lemma_commit_then_walk_fits(
                                    tokens,
                                    pairs,
                                    walk,
                                    range,
                                    value,
                                    at + 1,
                                    end,
                                );
                            },
                            None => {
                                lemma_walk_object_fits(tokens, pairs, walk, at + 1, end);
                            },
                        }
                    },
                    None => {
                        lemma_walk_object_fits(tokens, pairs, walk, at + 1, end);
                    },
                }
            },
        }
    }
}

/// Storing a value that fits as a member and walking on keeps a well-formed
/// state well formed.
proof fn lemma_commit_then_walk_fits(
    tokens: Seq<TokenView>,
    pairs: Map<usize, usize>,
    walk: ObjectWalk,
    range: Range,
    value: ValueView,
    at: int,
    end: int,
)
    requires
        0 < at <= tokens.len(),
        end <= tokens.len(),
        object_walk_fits(walk),
        value_fits(walk.tree, value),
        commit_member(walk, range, value) is Some,
        walk_object(tokens, pairs, commit_member(walk, range, value)->Some_0, at, end) is Ok,
        walk_object(
            tokens,
            pairs,
            commit_member(walk, range, value)->Some_0,
            at,
            end,
        )->Ok_0.tree.entries.len() <= usize::MAX,
    ensures
        object_walk_fits(
            walk_object(tokens, pairs, commit_member(walk, range, value)->Some_0, at, end)->Ok_0,
        ),
    decreases tokens.len() - at, 1nat,
{
    let next = commit_member(walk, range, value)->Some_0;
    lemma_walk_object_extends(tokens, pairs, next, at, end);
    lemma_commit_member_fits(walk, range, value);
    lemma_walk_object_fits(tokens, pairs, next, at, end);
}

/// A walk through an array keeps a well-formed state well formed.
pub(crate) proof fn lemma_walk_array_fits(
    tokens: Seq<TokenView>,
    pairs: Map<usize, usize>,
    walk: ArrayWalk,
    at: int,
    end: int,
)
    requires
        0 <= at,
        end <= tokens.len(),
        array_walk_fits(walk),
        walk_array(tokens, pairs, walk, at, end) is Ok,
        walk_array(tokens, pairs, walk, at, end)->Ok_0.tree.entries.len() <= usize::MAX,
    ensures
        array_walk_fits(walk_array(tokens, pairs, walk, at, end)->Ok_0),
    decreases tokens.len() - at, 0nat,
{
    if at < end {
        match tokens[at] {
            TokenView::ObjectOpen(_) => {
                let close = closer_of(pairs, tokens.len(), at)->Some_0;
                let inner = walk_object(tokens, pairs, enter_object(walk.tree), at + 1, close)->Ok_0;
                let range = object_range(tokens, at, close);
                let value = ValueView::Object(inner.members);
                let next = commit_item(ArrayWalk { tree: inner.tree, ..walk }, range, value);
                lemma_walk_array_extends(tokens, pairs, next, close + 1, end);
                lemma_walk_object_extends(tokens, pairs, enter_object(walk.tree), at + 1, close);
                lemma_walk_object_fits(tokens, pairs, enter_object(walk.tree), at + 1, close);
                lemma_fit_extends(walk.tree, inner.tree);
                lemma_commit_item_fits(ArrayWalk { tree: inner.tree, ..walk }, range, value);
                lemma_walk_array_fits(tokens, pairs, next, close + 1, end);
            },
            TokenView::ArrayOpen(_) => {
                let close = closer_of(pairs, tokens.len(), at)->Some_0;
                let inner = walk_array(tokens, pairs, enter_array(walk.tree), at + 1, close)->Ok_0;
                let range = array_range(tokens, at, close);
                let value = ValueView::Array(inner.items);
                let next = commit_item(ArrayWalk { tree: inner.tree, ..walk }, range, value);
                lemma_walk_array_extends(tokens, pairs, next, close + 1, end);
                lemma_walk_array_extends(tokens, pairs, enter_array(walk.tree), at + 1, close);
                lemma_walk_array_fits(tokens, pairs, enter_array(walk.tree), at + 1, close);
                lemma_fit_extends(walk.tree, inner.tree);
                lemma_commit_item_fits(ArrayWalk { tree: inner.tree, ..walk }, range, value);
                lemma_walk_array_fits(tokens, pairs, next, close + 1, end);
            },
            token => {
                match primitive(token) {
                    Some((range, value)) => {
                        let next = commit_item(walk, range, value);
                        lemma_walk_array_extends(tokens, pairs, next, at + 1, end);
                        lemma_commit_item_fits(walk, range, value);
                        lemma_walk_array_fits(tokens, pairs, next, at + 1, end);
                    },
                    None => {
                        lemma_walk_array_fits(tokens, pairs, walk, at + 1, end);
                    },
                }
            },
        }
    }
}

/// Whether `e` is one of the three errors of the builder.
pub open spec fn is_build_error(e: ParseError) -> bool {
    e == ParseError::MissingObjectBrace || e == ParseError::MissingArrayBrace || e
        == ParseError::Error
}

/// A walk through an object fails with an error of the builder or not at
/// all.
pub(crate) proof fn lemma_walk_object_error(
    tokens: Seq<TokenView>,
    pairs: Map<usize, usize>,
    walk: ObjectWalk,
    at: int,
    end: int,
)
    requires
        0 <= at,
        end <= tokens.len(),
    ensures
        walk_object(tokens, pairs, walk, at, end) matches Err(e) ==> is_build_error(e),
    decreases tokens.len() - at,
{
    if at < end {
        match tokens[at] {
            TokenView::Comma => {
                lemma_walk_object_error(
                    tokens,
                    pairs,
                    ObjectWalk { expecting_key: true, ..walk },
                    at + 1,
                    end,
                );
            },
            TokenView::Colon => {
                lemma_walk_object_error(
                    tokens,
                    pairs,
                    ObjectWalk { expecting_key: false, ..walk },
                    at + 1,
                    end,
                );
            },
            TokenView::String(range, text) => {
                if walk.expecting_key {
                    lemma_walk_object_error(tokens, pairs, read_key(walk, range, text), at + 1, end);
                } else if let Some(next) = commit_member(walk, range, ValueView::String(text)) {
                    lemma_walk_object_error(tokens, pairs, next, at + 1, end);
                }
            },
            TokenView::ObjectOpen(_) => {
                if let Some(close) = closer_of(pairs, tokens.len(), at) {
                    lemma_walk_object_error(tokens, pairs, enter_object(walk.tree), at + 1, close);
                    if let Ok(inner) = walk_object(
                        tokens,
                        pairs,
                        enter_object(walk.tree),
                        at + 1,
                        close,
                    ) {
                        if let Some(next) = commit_member(
                            ObjectWalk { tree: inner.tree, ..walk },
                            object_range(tokens, at, close),
                            ValueView::Object(inner.members),
                        ) {
                            lemma_walk_object_error(tokens, pairs, next, close + 1, end);
                        }
                    }
                }
            },
            TokenView::ArrayOpen(_) => {
                if let Some(close) = closer_of(pairs, tokens.len(), at) {
                    lemma_walk_array_error(tokens, pairs, enter_array(walk.tree), at + 1, close);
                    if let Ok(inner) = walk_array(
                        tokens,
                        pairs,
                        enter_array(walk.tree),
                        at + 1,
                        close,
                    ) {
                        if let Some(next) = commit_member(
                            ObjectWalk { tree: inner.tree, ..walk },
                            array_range(tokens, at, close),
                            ValueView::Array(inner.items),
                        ) {
                            lemma_walk_object_error(tokens, pairs, next, close + 1, end);
                        }
                    }
                }
            },
            token => {
                match primitive(token) {
                    Some((range, value)) => {
                        match commit_member(walk, range, value) {
                            Some(next) => {
                                lemma_walk_object_error(tokens, pairs, next, at + 1, end);
                            },
                            None => {
                                lemma_walk_object_error(tokens, pairs, walk, at + 1, end);
                            },
                        }
                    },
                    None => {
                        lemma_walk_object_error(tokens, pairs, walk, at + 1, end);
                    },
                }
            },
        }
    }
}

/// A walk through an array fails with an error of the builder or not at all.
pub(crate) proof fn lemma_walk_array_error(
    tokens: Seq<TokenView>,
    pairs: Map<usize, usize>,
    walk: ArrayWalk,
    at: int,
    end: int,
)
    requires
        0 <= at,
        end <= tokens.len(),
    ensures
        walk_array(tokens, pairs, walk, at, end) matches Err(e) ==> is_build_error(e),
    decreases tokens.len() - at,
{
    if at < end {
        match tokens[at] {
            TokenView::ObjectOpen(_) => {
                if let Some(close) = closer_of(pairs, tokens.len(), at) {
                    lemma_walk_object_error(tokens, pairs, enter_object(walk.tree), at + 1, close);
                    if let Ok(inner) = walk_object(
                        tokens,
                        pairs,
                        enter_object(walk.tree),
                        at + 1,
                        close,
                    ) {
                        lemma_walk_array_error(
                            tokens,
                            pairs,
                            commit_item(
                                ArrayWalk { tree: inner.tree, ..walk },
                                object_range(tokens, at, close),
                                ValueView::Object(inner.members),
                            ),
                            close + 1,
                            end,
                        );
                    }
                }
            },
            TokenView::ArrayOpen(_) => {
                if let Some(close) = closer_of(pairs, tokens.len(), at) {
                    lemma_walk_array_error(tokens, pairs, enter_array(walk.tree), at + 1, close);
                    if let Ok(inner) = walk_array(
                        tokens,
                        pairs,
                        enter_array(walk.tree),
                        at + 1,
                        close,
                    ) {
                        lemma_walk_array_error(
                            tokens,
                            pairs,
                            commit_item(
                                ArrayWalk { tree: inner.tree, ..walk },
                                array_range(tokens, at, close),
                                ValueView::Array(inner.items),
                            ),
                            close + 1,
                            end,
                        );
                    }
                }
            },
            token => {
                match primitive(token) {
                    Some((range, value)) => {
                        lemma_walk_array_error(
                            tokens,
                            pairs,
                            commit_item(walk, range, value),
                            at + 1,
                            end,
                        );
                    },
                    None => {
                        lemma_walk_array_error(tokens, pairs, walk, at + 1, end);
                    },
                }
            },
        }
    }
}

/// Building fails with `MissingObjectBrace`, `MissingArrayBrace` or `Error`,
/// or not at all.
pub proof fn lemma_build_tree_error(tokens: Seq<TokenView>)
    ensures
        build_tree(tokens) matches Err(e) ==> is_build_error(e),
{
    if tokens.len() > 0 {
        lemma_walk_object_error(
            tokens,
            crate::parser::parse::bracket_pairs(tokens),
            enter_object(empty_tree()),
            1,
            tokens.len() - 1,
        );
    }
}

/// Every tree that is built is well formed and has the object of the
/// document as its root, which is its last entry.
///
/// The bound on the number of entries is the one that holds of every tree
/// in memory.
pub proof fn lemma_built_tree_is_well_formed(tokens: Seq<TokenView>)
    requires
        build_tree(tokens) is Ok,
        build_tree(tokens)->Ok_0.entries.len() <= usize::MAX,
    ensures
        build_tree(tokens)->Ok_0.wf(),
        build_tree(tokens)->Ok_0.rooted(),
{
    let pairs = crate::parser::parse::bracket_pairs(tokens);
    let start = enter_object(empty_tree());
    let walk = walk_object(tokens, pairs, start, 1, tokens.len() - 1)->Ok_0;
    let range = object_range(tokens, 0, tokens.len() - 1);
    let value = ValueView::Object(walk.members);
    lemma_walk_object_fits(tokens, pairs, start, 1, tokens.len() - 1);
    lemma_entry_fits(walk.tree, None, range, value);
    lemma_push_entry_wf(walk.tree, EntryView { key: None, range, value });
}

/// Whether the token at index `at` is an opening brace or bracket.
pub open spec fn is_opener(tokens: Seq<TokenView>, at: int) -> bool {
    tokens[at] is ObjectOpen || tokens[at] is ArrayOpen
}

/// The error for an opener that has no closer: that of its kind.
pub open spec fn unclosed(token: TokenView) -> ParseError {
    if token is ObjectOpen {
        ParseError::MissingObjectBrace
    } else {
        ParseError::MissingArrayBrace
    }
}

/// A walk that meets an opener without a closer fails with the error of the
/// opener's kind, whatever was built before.
pub proof fn lemma_unclosed_opener_fails(
    tokens: Seq<TokenView>,
    pairs: Map<usize, usize>,
    object: ObjectWalk,
    array: ArrayWalk,
    at: int,
    end: int,
)
    requires
        0 <= at < end <= tokens.len(),
        is_opener(tokens, at),
        closer_of(pairs, tokens.len(), at) is None,
    ensures
        walk_object(tokens, pairs, object, at, end) == Err::<ObjectWalk, ParseError>(
            unclosed(tokens[at]),
        ),
        walk_array(tokens, pairs, array, at, end) == Err::<ArrayWalk, ParseError>(
            unclosed(tokens[at]),
        ),
{
}

/// An opener without a closer that stands directly in an object, with no
/// other opener between the start of the walk and itself, fails the walk.
///
/// The walk fails with the error of the opener's kind, unless it has failed
/// before with `Error` at a string that could not be stored. It cannot have
/// failed before where a key record is in use, or where the walk starts by
/// reading a key.
pub proof fn lemma_object_walk_meets_unclosed_opener(
    tokens: Seq<TokenView>,
    pairs: Map<usize, usize>,
    walk: ObjectWalk,
    at: int,
    opener: int,
    end: int,
)
    requires
        0 <= at <= opener < end <= tokens.len(),
        forall|i: int| at <= i < opener ==> !is_opener(tokens, i),
        is_opener(tokens, opener),
        closer_of(pairs, tokens.len(), opener) is None,
    ensures
        walk_object(tokens, pairs, walk, at, end) == Err::<ObjectWalk, ParseError>(
            unclosed(tokens[opener]),
        ) || walk_object(tokens, pairs, walk, at, end) == Err::<ObjectWalk, ParseError>(
            ParseError::Error,
        ),
        walk.key < walk.tree.keys.len() || (walk.expecting_key && at < opener && tokens[at]
            is String) ==> walk_object(tokens, pairs, walk, at, end) == Err::<
            ObjectWalk,
            ParseError,
        >(unclosed(tokens[opener])),
    decreases opener - at,
{
    if at == opener {
        lemma_unclosed_opener_fails(tokens, pairs, walk, enter_array(walk.tree), at, end);
    } else {
        assert(!is_opener(tokens, at));
        match tokens[at] {
            TokenView::Comma => {
                lemma_object_walk_meets_unclosed_opener(
                    tokens,
                    pairs,
                    ObjectWalk { expecting_key: true, ..walk },
                    at + 1,
                    opener,
                    end,
                );
            },
            TokenView::Colon => {
                lemma_object_walk_meets_unclosed_opener(
                    tokens,
                    pairs,
                    ObjectWalk { expecting_key: false, ..walk },
                    at + 1,
                    opener,
                    end,
                );
            },
            TokenView::String(range, text) => {
                if walk.expecting_key {
                    lemma_object_walk_meets_unclosed_opener(
                        tokens,
                        pairs,
                        read_key(walk, range, text),
                        at + 1,
                        opener,
                        end,
                    );
                } else if let Some(next) = commit_member(walk, range, ValueView::String(text)) {
                    lemma_object_walk_meets_unclosed_opener(
                        tokens,
                        pairs,
                        next,
                        at + 1,
                        opener,
                        end,
                    );
                }
            },
            token => {
                match primitive(token) {
                    Some((range, value)) => {
                        match commit_member(walk, range, value) {
                            Some(next) => {
                                lemma_object_walk_meets_unclosed_opener(
                                    tokens,
                                    pairs,
                                    next,
                                    at + 1,
                                    opener,
                                    end,
                                );
                            },
                            None => {
                                lemma_object_walk_meets_unclosed_opener(
                                    tokens,
                                    pairs,
                                    walk,
                                    at + 1,
                                    opener,
                                    end,
                                );
                            },
                        }
                    },
                    None => {
                        lemma_object_walk_meets_unclosed_opener(
                            tokens,
                            pairs,
                            walk,
                            at + 1,
                            opener,
                            end,
                        );
                    },
                }
            },
        }
    }
}

/// An opener without a closer that stands directly in an array, with no
/// other opener between the start of the walk and itself, fails the walk
/// with the error of its kind.
pub proof fn lemma_array_walk_meets_unclosed_opener(
    tokens: Seq<TokenView>,
    pairs: Map<usize, usize>,
    walk: ArrayWalk,
    at: int,
    opener: int,
    end: int,
)
    requires
        0 <= at <= opener < end <= tokens.len(),
        forall|i: int| at <= i < opener ==> !is_opener(tokens, i),
        is_opener(tokens, opener),
        closer_of(pairs, tokens.len(), opener) is None,
    ensures
        walk_array(tokens, pairs, walk, at, end) == Err::<ArrayWalk, ParseError>(
            unclosed(tokens[opener]),
        ),
    decreases opener - at,
{
    if at == opener {
        lemma_unclosed_opener_fails(tokens, pairs, enter_object(walk.tree), walk, at, end);
    } else {
        assert(!is_opener(tokens, at));
        match primitive(tokens[at]) {
            Some((range, value)) => {
                lemma_array_walk_meets_unclosed_opener(
                    tokens,
                    pairs,
                    commit_item(walk, range, value),
                    at + 1,
                    opener,
                    end,
                );
            },
            None => {
                lemma_array_walk_meets_unclosed_opener(tokens, pairs, walk, at + 1, opener, end);
            },
        }
    }
}

/// A document whose first token is no opening brace with a closer is not
/// built: building fails with `MissingObjectBrace`.
pub proof fn lemma_root_must_be_object(tokens: Seq<TokenView>)
    requires
        tokens.len() == 0 || !(tokens[0] is ObjectOpen) || !crate::parser::parse::bracket_pairs(
            tokens,
        ).contains_key(0),
    ensures
        build_tree(tokens) == Err::<TreeView, ParseError>(ParseError::MissingObjectBrace),
{
}

/// A document that starts with a key and holds, directly in its root and
/// before any other opener, an opening brace or bracket without a closer is
/// not built: building fails with the error of that opener's kind.
pub proof fn lemma_unclosed_opener_in_root_fails(tokens: Seq<TokenView>, opener: int)
    requires
        tokens.len() > 0,
        tokens[0] is ObjectOpen,
        crate::parser::parse::bracket_pairs(tokens).contains_key(0),
        1 < opener < tokens.len() - 1,
        tokens[1] is String,
        forall|i: int| 1 <= i < opener ==> !is_opener(tokens, i),
        is_opener(tokens, opener),
        closer_of(crate::parser::parse::bracket_pairs(tokens), tokens.len(), opener) is None,
    ensures
        build_tree(tokens) == Err::<TreeView, ParseError>(unclosed(tokens[opener])),
{
    lemma_object_walk_meets_unclosed_opener(
        tokens,
        crate::parser::parse::bracket_pairs(tokens),
        enter_object(empty_tree()),
        1,
        opener,
        tokens.len() - 1,
    );
}

} // verus!
