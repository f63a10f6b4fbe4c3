//! The tree builder: tokens in, tree out.
//!
//! Building takes two passes. The first pairs every opening brace or bracket
//! with the token that closes it ([`bracket_pairs`]). The second walks the
//! tokens between an opener and its closer from left to right
//! ([`walk_object`], [`walk_array`]); where it meets a nested opener it builds
//! what lies up to the closer and goes on behind it.
//!
//! The grammar is lenient on purpose. Commas and colons only steer whether a
//! string is read as a key or as a value. Nothing is rejected but an opener
//! without a closer and a value for which no key can be found.
use crate::parser::shape::{
    extends, lemma_build_tree_error, lemma_built_tree_is_well_formed, lemma_extends_push_entry,
    lemma_extends_self,
};
use crate::parser::tokenize::{token_views, TokenType, TokenView};
use crate::tree::{
    entry_views, find_member, key_views, member_position, member_views, Entry, EntryType,
    EntryView, Key, KeyView, Member, MemberView, Tree, TreeView, ValueView,
};
use crate::types::{ParseError, ParseResult, Position, Range};
use std::collections::HashMap;
use vstd::prelude::*;

verus! {

broadcast use vstd::std_specs::hash::group_hash_axioms;

/// The bracket matcher part-way through the tokens: the openers that still
/// wait for their closer, innermost last, and the pairs found so far.
pub struct Brackets {
    pub objects: Seq<usize>,
    pub arrays: Seq<usize>,
    pub pairs: Map<usize, usize>,
}

/// What the token at index `at` does to the bracket matcher.
///
/// Braces and square brackets are matched independently of each other. A
/// closer for which no opener waits is passed over.
pub open spec fn bracket_step(b: Brackets, token: TokenView, at: usize) -> Brackets {
    match token {
        TokenView::ObjectOpen(_) => Brackets { objects: b.objects.push(at), ..b },
        TokenView::ObjectClose(_) => if b.objects.len() > 0 {
            Brackets {
                objects: b.objects.drop_last(),
                pairs: b.pairs.insert(b.objects.last(), at),
                ..b
            }
        } else {
            b
        },
        TokenView::ArrayOpen(_) => Brackets { arrays: b.arrays.push(at), ..b },
        TokenView::ArrayClose(_) => if b.arrays.len() > 0 {
            Brackets {
                arrays: b.arrays.drop_last(),
                pairs: b.pairs.insert(b.arrays.last(), at),
                ..b
            }
        } else {
            b
        },
        _ => b,
    }
}

/// The bracket matcher after the first `n` tokens.
pub open spec fn bracket_scan(tokens: Seq<TokenView>, n: int) -> Brackets
    decreases n,
{
    if n <= 0 {
        Brackets { objects: Seq::empty(), arrays: Seq::empty(), pairs: Map::empty() }
    } else {
        bracket_step(bracket_scan(tokens, n - 1), tokens[n - 1], (n - 1) as usize)
    }
}

/// The index of the closer of every opener that has one.
pub open spec fn bracket_pairs(tokens: Seq<TokenView>) -> Map<usize, usize> {
    bracket_scan(tokens, tokens.len() as int).pairs
}

/// Whether `open` and `close` are the indices of an opener and of a later
/// closer of the same kind.
pub open spec fn is_pair(tokens: Seq<TokenView>, open: usize, close: usize) -> bool {
    &&& open < close < tokens.len()
    &&& {
        ||| tokens[open as int] is ObjectOpen && tokens[close as int] is ObjectClose
        ||| tokens[open as int] is ArrayOpen && tokens[close as int] is ArrayClose
    }
}

/// Whether every pair of `pairs` is an opener and a later closer of the same
/// kind.
pub open spec fn pairs_fit(pairs: Map<usize, usize>, tokens: Seq<TokenView>) -> bool {
    forall|open: usize| #[trigger] pairs.contains_key(open) ==> is_pair(tokens, open, pairs[open])
}

/// What holds of the bracket matcher after the first `n` tokens: what waits
/// is an opener of its kind among those tokens, and what was paired fits.
spec fn scan_fits(tokens: Seq<TokenView>, n: int, b: Brackets) -> bool {
    &&& forall|k: int|
        0 <= k < b.objects.len() ==> (#[trigger] b.objects[k]) < n && tokens[b.objects[k] as int]
            is ObjectOpen
    &&& forall|k: int|
        0 <= k < b.arrays.len() ==> (#[trigger] b.arrays[k]) < n && tokens[b.arrays[k] as int]
            is ArrayOpen
    &&& forall|open: usize| #[trigger]
        b.pairs.contains_key(open) ==> is_pair(tokens, open, b.pairs[open]) && b.pairs[open] < n
}

/// The bracket matcher keeps its stacks and pairs as [`scan_fits`] says.
proof fn lemma_scan_fits(tokens: Seq<TokenView>, n: int)
    requires
        0 <= n <= tokens.len() <= usize::MAX,
    ensures
        scan_fits(tokens, n, bracket_scan(tokens, n)),
    decreases n,
{
    if n > 0 {
        lemma_scan_fits(tokens, n - 1);
        let before = bracket_scan(tokens, n - 1);
        let after = bracket_scan(tokens, n);
        assert(after == bracket_step(before, tokens[n - 1], (n - 1) as usize));
        assert forall|k: int| 0 <= k < after.objects.len() implies (#[trigger] after.objects[k]) < n
            && tokens[after.objects[k] as int] is ObjectOpen by {
            if k < before.objects.len() {
                assert(before.objects[k] < n - 1);
            }
        }
        assert forall|k: int| 0 <= k < after.arrays.len() implies (#[trigger] after.arrays[k]) < n
            && tokens[after.arrays[k] as int] is ArrayOpen by {
            if k < before.arrays.len() {
                assert(before.arrays[k] < n - 1);
            }
        }
        assert forall|open: usize| #[trigger] after.pairs.contains_key(open) implies is_pair(
            tokens,
            open,
            after.pairs[open],
        ) && after.pairs[open] < n by {
            if before.pairs.contains_key(open) && after.pairs[open] == before.pairs[open] {
            } else {
                if before.objects.len() > 0 && open == before.objects.last() {
                    assert(before.objects[before.objects.len() - 1] < n - 1);
                }
                if before.arrays.len() > 0 && open == before.arrays.last() {
                    assert(before.arrays[before.arrays.len() - 1] < n - 1);
                }
            }
        }
    }
}

/// Every pair that the bracket matcher finds is an opener and a later closer
/// of the same kind.
pub proof fn lemma_bracket_pairs_fit(tokens: Seq<TokenView>)
    requires
        tokens.len() <= usize::MAX,
    ensures
        pairs_fit(bracket_pairs(tokens), tokens),
{
    lemma_scan_fits(tokens, tokens.len() as int);
}

/// Pairs every opening brace or bracket with the token that closes it.
pub fn pre_calculate_positions(tokens: &[TokenType]) -> (pairs: HashMap<usize, usize>)
    ensures
        pairs@ == bracket_pairs(token_views(tokens@)),
        pairs_fit(pairs@, token_views(tokens@)),
{
    let ghost views = token_views(tokens@);
    let mut hash: HashMap<usize, usize> = HashMap::new();
    let mut array_stack: Vec<usize> = Vec::new();
    let mut object_stack: Vec<usize> = Vec::new();
    let mut idx: usize = 0;
    while idx < tokens.len()
        invariant
            idx <= tokens.len(),
            views == token_views(tokens@),
            bracket_scan(views, idx as int) == (Brackets {
                objects: object_stack@,
                arrays: array_stack@,
                pairs: hash@,
            }),
        decreases tokens.len() - idx,
    {
        assert(views[idx as int] == tokens@[idx as int]@);
        match &tokens[idx] {
            TokenType::ObjectOpen(_) => {
                object_stack.push(idx);
            },
            TokenType::ObjectClose(_) => {
                if let Some(start) = object_stack.pop() {
                    hash.insert(start, idx);
                }
            },
            TokenType::ArrayOpen(_) => {
                array_stack.push(idx);
            },
            TokenType::ArrayClose(_) => {
                if let Some(start) = array_stack.pop() {
                    hash.insert(start, idx);
                }
            },
            _ => {},
        }
        idx += 1;
    }
    proof {
        lemma_bracket_pairs_fit(views);
    }
    hash
}

/// The closer of the opener at index `open`: what `pairs` gives for it,
/// where that lies behind the opener and among the `len` tokens.
pub open spec fn closer_of(pairs: Map<usize, usize>, len: nat, open: int) -> Option<int> {
    if 0 <= open <= usize::MAX && pairs.contains_key(open as usize) && open < pairs[open as usize]
        < len {
        Some(pairs[open as usize] as int)
    } else {
        None
    }
}

/// The span of the object between the tokens at `open` and `close`: from the
/// start of an opening brace to the end of a closing brace. Where one of the
/// two tokens is not that brace, the origin stands in for its position.
pub open spec fn object_range(tokens: Seq<TokenView>, open: int, close: int) -> Range {
    Range {
        start: match tokens[open] {
            TokenView::ObjectOpen(range) => range.start,
            _ => Position::origin(),
        },
        end: match tokens[close] {
            TokenView::ObjectClose(range) => range.end,
            _ => Position::origin(),
        },
    }
}

/// The span of the array between the tokens at `open` and `close`, as
/// [`object_range`] for square brackets.
pub open spec fn array_range(tokens: Seq<TokenView>, open: int, close: int) -> Range {
    Range {
        start: match tokens[open] {
            TokenView::ArrayOpen(range) => range.start,
            _ => Position::origin(),
        },
        end: match tokens[close] {
            TokenView::ArrayClose(range) => range.end,
            _ => Position::origin(),
        },
    }
}

/// The span and the value of a token that stands for a value by itself.
pub open spec fn primitive(token: TokenView) -> Option<(Range, ValueView)> {
    match token {
        TokenView::String(range, text) => Some((range, ValueView::String(text))),
        TokenView::Float(range, text) => Some((range, ValueView::Float(text))),
        TokenView::Int(range, value) => Some((range, ValueView::Int(value))),
        TokenView::Bool(range, value) => Some((range, ValueView::Bool(value))),
        TokenView::Null(range) => Some((range, ValueView::Null)),
        _ => None,
    }
}

/// The members with `member` among them: in place of the member of the same
/// name if there is one, else at the end.
pub open spec fn put_member(members: Seq<MemberView>, member: MemberView) -> Seq<MemberView> {
    match member_position(members, member.name) {
        Some(at) => members.update(at, member),
        None => members.push(member),
    }
}

/// The state of a walk through the tokens of an object.
pub struct ObjectWalk {
    /// The tree as far as it is built.
    pub tree: TreeView,
    /// The members that the object has so far.
    pub members: Seq<MemberView>,
    /// Whether the next string is a key.
    pub expecting_key: bool,
    /// The key record under which the next value is stored.
    pub key: usize,
}

/// The state of a walk through the tokens of an array.
pub struct ArrayWalk {
    /// The tree as far as it is built.
    pub tree: TreeView,
    /// The entries of the elements that the array has so far.
    pub items: Seq<usize>,
}

/// The walk at the start of an object: no members, a key is expected, and
/// the first key record is the one in use until a key is read.
pub open spec fn enter_object(tree: TreeView) -> ObjectWalk {
    ObjectWalk { tree, members: Seq::empty(), expecting_key: true, key: 0 }
}

/// The walk at the start of an array.
pub open spec fn enter_array(tree: TreeView) -> ArrayWalk {
    ArrayWalk { tree, items: Seq::empty() }
}

/// A key is read: it gets a new key record, which is in use from now on.
pub open spec fn read_key(walk: ObjectWalk, range: Range, name: Seq<char>) -> ObjectWalk {
    ObjectWalk {
        tree: TreeView {
            entries: walk.tree.entries,
            keys: walk.tree.keys.push(KeyView { name, range }),
        },
        key: walk.tree.keys.len() as usize,
        ..walk
    }
}

/// A value is stored in an object: it gets a new entry, and the object gets
/// a member that has the name of the key record in use. Nothing is stored
/// where that key record does not exist.
pub open spec fn commit_member(walk: ObjectWalk, range: Range, value: ValueView) -> Option<
    ObjectWalk,
> {
    if walk.key < walk.tree.keys.len() {
        Some(
            ObjectWalk {
                tree: TreeView {
                    entries: walk.tree.entries.push(
                        EntryView { key: Some(walk.key), range, value },
                    ),
                    keys: walk.tree.keys,
                },
                members: put_member(
                    walk.members,
                    MemberView {
                        name: walk.tree.keys[walk.key as int].name,
                        key: walk.key,
                        value: walk.tree.entries.len() as usize,
                    },
                ),
                ..walk
            },
        )
    } else {
        None
    }
}

/// A value is stored in an array: it gets a new entry, which becomes the
/// last element.
pub open spec fn commit_item(walk: ArrayWalk, range: Range, value: ValueView) -> ArrayWalk {
    ArrayWalk {
        tree: TreeView {
            entries: walk.tree.entries.push(EntryView { key: None, range, value }),
            keys: walk.tree.keys,
        },
        items: walk.items.push(walk.tree.entries.len() as usize),
    }
}

/// The walk through the tokens of an object from index `at` up to `end`,
/// which is where the object's closer stands.
///
/// - A comma makes the next string a key, a colon makes it a value.
/// - A string that is a key is read as one. Any other string is stored as a
///   value, and the walk fails with `Error` where it cannot be stored.
/// - Any other primitive is stored as a value, or passed over where it cannot
///   be stored.
/// - An opener without a closer fails the walk with the error of its kind.
///   With a closer, what lies between the two is built first, then stored as
///   a value, and the walk goes on behind the closer; it fails with `Error`
///   where the value cannot be stored.
/// - Every other token is passed over.
pub open spec fn walk_object(
    tokens: Seq<TokenView>,
    pairs: Map<usize, usize>,
    walk: ObjectWalk,
    at: int,
    end: int,
) -> Result<ObjectWalk, ParseError>
    decreases tokens.len() - at,
    when 0 <= at && end <= tokens.len()
{
    if at >= end {
        Ok(walk)
    } else {
        match tokens[at] {
            TokenView::Comma => walk_object(
                tokens,
                pairs,
                ObjectWalk { expecting_key: true, ..walk },
                at + 1,
                end,
            ),
            TokenView::Colon => walk_object(
                tokens,
                pairs,
                ObjectWalk { expecting_key: false, ..walk },
                at + 1,
                end,
            ),
            TokenView::String(range, text) => if walk.expecting_key {
                walk_object(tokens, pairs, read_key(walk, range, text), at + 1, end)
            } else {
                match commit_member(walk, range, ValueView::String(text)) {
                    Some(next) => walk_object(tokens, pairs, next, at + 1, end),
                    None => Err(ParseError::Error),
                }
            },
            TokenView::ObjectOpen(_) => match closer_of(pairs, tokens.len(), at) {
                Some(close) => match walk_object(
                    tokens,
                    pairs,
                    enter_object(walk.tree),
                    at + 1,
                    close,
                ) {
                    Ok(inner) => match commit_member(
                        ObjectWalk { tree: inner.tree, ..walk },
                        object_range(tokens, at, close),
                        ValueView::Object(inner.members),
                    ) {
                        Some(next) => walk_object(tokens, pairs, next, close + 1, end),
                        None => Err(ParseError::Error),
                    },
                    Err(e) => Err(e),
                },
                None => Err(ParseError::MissingObjectBrace),
            },
            TokenView::ArrayOpen(_) => match closer_of(pairs, tokens.len(), at) {
                Some(close) => match walk_array(
                    tokens,
                    pairs,
                    enter_array(walk.tree),
                    at + 1,
                    close,
                ) {
                    Ok(inner) => match commit_member(
                        ObjectWalk { tree: inner.tree, ..walk },
                        array_range(tokens, at, close),
                        ValueView::Array(inner.items),
                    ) {
                        Some(next) => walk_object(tokens, pairs, next, close + 1, end),
                        None => Err(ParseError::Error),
                    },
                    Err(e) => Err(e),
                },
                None => Err(ParseError::MissingArrayBrace),
            },
            token => match primitive(token) {
                Some((range, value)) => match commit_member(walk, range, value) {
                    Some(next) => walk_object(tokens, pairs, next, at + 1, end),
                    None => walk_object(tokens, pairs, walk, at + 1, end),
                },
                None => walk_object(tokens, pairs, walk, at + 1, end),
            },
        }
    }
}

/// The walk through the tokens of an array from index `at` up to `end`,
/// which is where the array's closer stands.
///
/// Every primitive becomes an element. An opener without a closer fails the
/// walk with the error of its kind; with a closer, what lies between the two
/// is built and becomes an element, and the walk goes on behind the closer.
/// Every other token is passed over.
pub open spec fn walk_array(
    tokens: Seq<TokenView>,
    pairs: Map<usize, usize>,
    walk: ArrayWalk,
    at: int,
    end: int,
) -> Result<ArrayWalk, ParseError>
    decreases tokens.len() - at,
    when 0 <= at && end <= tokens.len()
{
    if at >= end {
        Ok(walk)
    } else {
        match tokens[at] {
            TokenView::ObjectOpen(_) => match closer_of(pairs, tokens.len(), at) {
                Some(close) => match walk_object(
                    tokens,
                    pairs,
                    enter_object(walk.tree),
                    at + 1,
                    close,
                ) {
                    Ok(inner) => walk_array(
                        tokens,
                        pairs,
                        commit_item(
                            ArrayWalk { tree: inner.tree, ..walk },
                            object_range(tokens, at, close),
                            ValueView::Object(inner.members),
                        ),
                        close + 1,
                        end,
                    ),
                    Err(e) => Err(e),
                },
                None => Err(ParseError::MissingObjectBrace),
            },
            TokenView::ArrayOpen(_) => match closer_of(pairs, tokens.len(), at) {
                Some(close) => match walk_array(
                    tokens,
                    pairs,
                    enter_array(walk.tree),
                    at + 1,
                    close,
                ) {
                    Ok(inner) => walk_array(
                        tokens,
                        pairs,
                        commit_item(
                            ArrayWalk { tree: inner.tree, ..walk },
                            array_range(tokens, at, close),
                            ValueView::Array(inner.items),
                        ),
                        close + 1,
                        end,
                    ),
                    Err(e) => Err(e),
                },
                None => Err(ParseError::MissingArrayBrace),
            },
            token => match primitive(token) {
                Some((range, value)) => walk_array(
                    tokens,
                    pairs,
                    commit_item(walk, range, value),
                    at + 1,
                    end,
                ),
                None => walk_array(tokens, pairs, walk, at + 1, end),
            },
        }
    }
}

/// The tree with nothing in it.
pub open spec fn empty_tree() -> TreeView {
    TreeView { entries: Seq::empty(), keys: Seq::empty() }
}

/// The tree that a sequence of tokens stands for.
///
/// The first token has to be an opening brace that has a closer; the walk
/// then covers every token between the first and the last. The object that
/// it finds becomes the last entry of the tree, which is the root.
pub open spec fn build_tree(tokens: Seq<TokenView>) -> Result<TreeView, ParseError> {
    let pairs = bracket_pairs(tokens);
    if tokens.len() > 0 && tokens[0] is ObjectOpen && pairs.contains_key(0) {
        match walk_object(tokens, pairs, enter_object(empty_tree()), 1, tokens.len() - 1) {
            Ok(walk) => Ok(
                TreeView {
                    entries: walk.tree.entries.push(
                        EntryView {
                            key: None,
                            range: object_range(tokens, 0, tokens.len() - 1),
                            value: ValueView::Object(walk.members),
                        },
                    ),
                    keys: walk.tree.keys,
                },
            ),
            Err(e) => Err(e),
        }
    } else {
        Err(ParseError::MissingObjectBrace)
    }
}

/// The values of entries with one more entry are the values of the entries
/// with the value of that entry.
proof fn lemma_entry_views_push(entries: Seq<Entry>, entry: Entry)
    ensures
        entry_views(entries.push(entry)) == entry_views(entries).push(entry@),
{
    assert(entry_views(entries.push(entry)) =~= entry_views(entries).push(entry@));
}

/// The values of key records with one more are the values of the key records
/// with the value of that one.
proof fn lemma_key_views_push(keys: Seq<Key>, key: Key)
    ensures
        key_views(keys.push(key)) == key_views(keys).push(key@),
{
    assert(key_views(keys.push(key)) =~= key_views(keys).push(key@));
}

/// The values of members with one member added or replaced are the values of
/// the members with the value of that member added or replaced.
proof fn lemma_member_views_put(members: Seq<Member>, member: Member)
    ensures
        member_views(members.push(member)) == member_views(members).push(member@),
        forall|at: int|
            0 <= at < members.len() ==> #[trigger] member_views(members.update(at, member))
                == member_views(members).update(at, member@),
{
    assert(member_views(members.push(member)) =~= member_views(members).push(member@));
    assert forall|at: int| 0 <= at < members.len() implies #[trigger] member_views(
        members.update(at, member),
    ) == member_views(members).update(at, member@) by {
        assert(member_views(members.update(at, member)) =~= member_views(members).update(
            at,
            member@,
        ));
    }
}

/// An object without members yet, and the span of the object between the
/// tokens at `open` and `close`.
fn create_new_object(tokens: &[TokenType], open: usize, close: usize) -> (made: (
    Vec<Member>,
    Range,
))
    requires
        open < tokens.len(),
        close < tokens.len(),
    ensures
        made.0@.len() == 0,
        made.1 == object_range(token_views(tokens@), open as int, close as int),
{
    let json_object: Vec<Member> = Vec::new();
    assert(token_views(tokens@)[open as int] == tokens@[open as int]@);
    assert(token_views(tokens@)[close as int] == tokens@[close as int]@);
    let pos_start = match &tokens[open] {
        TokenType::ObjectOpen(range) => range.start,
        _ => Position::default(),
    };
    let pos_end = match &tokens[close] {
        TokenType::ObjectClose(range) => range.end,
        _ => Position::default(),
    };
    (json_object, Range { start: pos_start, end: pos_end })
}

/// An array without elements yet, and the span of the array between the
/// tokens at `open` and `close`.
fn create_new_array(tokens: &[TokenType], open: usize, close: usize) -> (made: (Vec<usize>, Range))
    requires
        open < tokens.len(),
        close < tokens.len(),
    ensures
        made.0@.len() == 0,
        made.1 == array_range(token_views(tokens@), open as int, close as int),
{
    let json_array: Vec<usize> = Vec::new();
    assert(token_views(tokens@)[open as int] == tokens@[open as int]@);
    assert(token_views(tokens@)[close as int] == tokens@[close as int]@);
    let pos_start = match &tokens[open] {
        TokenType::ArrayOpen(range) => range.start,
        _ => Position::default(),
    };
    let pos_end = match &tokens[close] {
        TokenType::ArrayClose(range) => range.end,
        _ => Position::default(),
    };
    (json_array, Range { start: pos_start, end: pos_end })
}

/// The entry for a token that stands for a value by itself, stored under
/// `key`.
fn handle_primitives(token: &TokenType, key: Option<usize>) -> (made: Option<Entry>)
    ensures
        match primitive(token@) {
            Some((range, value)) => made is Some && made->Some_0@ == (EntryView {
                key,
                range,
                value,
            }),
            None => made is None,
        },
{
    match token {
        TokenType::String(range, val) => Some(
            Entry { key, entry_type: EntryType::String(val.clone()), range: *range },
        ),
        TokenType::Float(range, val) => Some(
            Entry { key, entry_type: EntryType::Float(val.clone()), range: *range },
        ),
        TokenType::Int(range, val) => Some(
            Entry { key, entry_type: EntryType::Int(*val), range: *range },
        ),
        TokenType::Bool(range, val) => Some(
            Entry { key, entry_type: EntryType::Bool(*val), range: *range },
        ),
        TokenType::Null(range) => Some(Entry { key, entry_type: EntryType::Null, range: *range }),
        _ => None,
    }
}

/// Stores `entry` in the tree and as a member of an object, under the name
/// of the key record at `key_pos`. Does nothing where there is no such key
/// record.
fn store_member(tree: &mut Tree, members: &mut Vec<Member>, key_pos: usize, entry: Entry) -> (stored:
    bool)
    requires
        entry.key == Some(key_pos),
    ensures
        match commit_member(
            ObjectWalk {
                tree: old(tree)@,
                members: member_views(old(members)@),
                expecting_key: true,
                key: key_pos,
            },
            entry.range,
            entry.entry_type@,
        ) {
            Some(next) => {
                &&& stored
                &&& final(tree)@ == next.tree
                &&& member_views(final(members)@) == next.members
            },
            None => {
                &&& !stored
                &&& final(tree)@ == old(tree)@
                &&& member_views(final(members)@) == member_views(old(members)@)
            },
        },
        extends(old(tree)@, final(tree)@),
{
    proof {
        lemma_extends_self(tree@);
        lemma_extends_push_entry(tree@, entry@);
    }
    if key_pos < tree.keys.len() {
        let name = tree.keys[key_pos].name.clone();
        proof {
            lemma_entry_views_push(tree.entries@, entry);
        }
        tree.entries.push(entry);
        let member = Member { name, key: key_pos, value: tree.entries.len() - 1 };
        proof {
            lemma_member_views_put(members@, member);
            crate::tree::lemma_member_position(member_views(members@), member.name@);
        }
        match find_member(members, &member.name) {
            Some(at) => {
                members.set(at, member);
            },
            None => {
                members.push(member);
            },
        }
        true
    } else {
        false
    }
}

/// Stores `entry` in the tree and as the last element of an array.
fn store_item(tree: &mut Tree, items: &mut Vec<usize>, entry: Entry)
    requires
        entry.key is None,
    ensures
        (ArrayWalk { tree: final(tree)@, items: final(items)@ }) == commit_item(
            ArrayWalk { tree: old(tree)@, items: old(items)@ },
            entry.range,
            entry.entry_type@,
        ),
        extends(old(tree)@, final(tree)@),
{
    proof {
        lemma_entry_views_push(tree.entries@, entry);
        lemma_extends_push_entry(tree@, entry@);
    }
    tree.entries.push(entry);
    items.push(tree.entries.len() - 1);
}

/// The closer that `pre_calc` holds for the opener at index `open`.
fn closer(pre_calc: &HashMap<usize, usize>, tokens: &[TokenType], open: usize) -> (close: Option<
    usize,
>)
    requires
        pairs_fit(pre_calc@, token_views(tokens@)),
    ensures
        match close {
            Some(c) => open < c < tokens.len() && closer_of(pre_calc@, tokens@.len(), open as int)
                == Some(c as int),
            None => closer_of(pre_calc@, tokens@.len(), open as int) is None,
        },
{
    match pre_calc.get(&open) {
        Some(close_idx) => {
            assert(pre_calc@.contains_key(open));
            Some(*close_idx)
        },
        None => None,
    }
}

/// Builds the array between the tokens at `open` and `close` into the tree
/// and returns its elements and its span. Whether it succeeds or fails, the
/// tree is only added to: what it held before stays as it was.
fn handle_array(
    tree: &mut Tree,
    tokens: &[TokenType],
    pre_calc: &HashMap<usize, usize>,
    open: usize,
    close: usize,
) -> (result: ParseResult<(Vec<usize>, Range)>)
    requires
        open < close < tokens.len(),
        pairs_fit(pre_calc@, token_views(tokens@)),
    ensures
        match walk_array(
            token_views(tokens@),
            pre_calc@,
            enter_array(old(tree)@),
            open + 1,
            close as int,
        ) {
            Ok(walk) => {
                &&& result is Ok
                &&& final(tree)@ == walk.tree
                &&& result->Ok_0.0@ == walk.items
                &&& result->Ok_0.1 == array_range(token_views(tokens@), open as int, close as int)
            },
            Err(e) => result == Err::<(Vec<usize>, Range), ParseError>(e),
        },
        extends(old(tree)@, final(tree)@),
    decreases tokens.len() - open,
{
    proof {
        lemma_extends_self(tree@);
    }
    let ghost views = token_views(tokens@);
    let ghost whole = walk_array(views, pre_calc@, enter_array(tree@), open + 1, close as int);
    let (mut json_array, range) = create_new_array(tokens, open, close);
    let mut at: usize = open + 1;
    assert(json_array@ =~= Seq::<usize>::empty());
    while at < close
        invariant
            open < at,
            close < tokens.len(),
            at <= tokens.len(),
            views == token_views(tokens@),
            pairs_fit(pre_calc@, views),
            extends(old(tree)@, tree@),
            whole == walk_array(views, pre_calc@, enter_array(old(tree)@), open + 1, close as int),
            whole == walk_array(
                views,
                pre_calc@,
                ArrayWalk { tree: tree@, items: json_array@ },
                at as int,
                close as int,
            ),
        decreases tokens.len() - at,
    {
        assert(views[at as int] == tokens@[at as int]@);
        match &tokens[at] {
            TokenType::ObjectOpen(_) => {
                match closer(pre_calc, tokens, at) {
                    Some(close_idx) => {
                        match handle_object(tree, tokens, pre_calc, at, close_idx) {
                            Ok((hash, range)) => {
                                store_item(
                                    tree,
                                    &mut json_array,
                                    Entry {
                                        key: None,
                                        range,
                                        entry_type: EntryType::JSONObject(hash),
                                    },
                                );
                                at = close_idx + 1;
                            },
                            Err(e) => {
                                return Err(e);
                            },
                        }
                    },
                    None => {
                        return Err(ParseError::MissingObjectBrace);
                    },
                }
            },
            TokenType::ArrayOpen(_) => {
                match closer(pre_calc, tokens, at) {
                    Some(close_idx) => {
                        match handle_array(tree, tokens, pre_calc, at, close_idx) {
                            Ok((array_vec, range)) => {
                                store_item(
                                    tree,
                                    &mut json_array,
                                    Entry {
                                        key: None,
                                        range,
                                        entry_type: EntryType::JSONArray(array_vec),
                                    },
                                );
                                at = close_idx + 1;
                            },
                            Err(e) => {
                                return Err(e);
                            },
                        }
                    },
                    None => {
                        return Err(ParseError::MissingArrayBrace);
                    },
                }
            },
            token => {
                if let Some(primitive) = handle_primitives(token, None) {
                    store_item(tree, &mut json_array, primitive);
                }
                at += 1;
            },
        }
    }
    Ok((json_array, range))
}

/// Builds the object between the tokens at `open` and `close` into the tree
/// and returns its members and its span. Whether it succeeds or fails, the
/// tree is only added to: what it held before stays as it was.
fn handle_object(
    tree: &mut Tree,
    tokens: &[TokenType],
    pre_calc: &HashMap<usize, usize>,
    open: usize,
    close: usize,
) -> (result: ParseResult<(Vec<Member>, Range)>)
    requires
        open < close < tokens.len(),
        pairs_fit(pre_calc@, token_views(tokens@)),
    ensures
        match walk_object(
            token_views(tokens@),
            pre_calc@,
            enter_object(old(tree)@),
            open + 1,
            close as int,
        ) {
            Ok(walk) => {
                &&& result is Ok
                &&& final(tree)@ == walk.tree
                &&& member_views(result->Ok_0.0@) == walk.members
                &&& result->Ok_0.1 == object_range(token_views(tokens@), open as int, close as int)
            },
            Err(e) => result == Err::<(Vec<Member>, Range), ParseError>(e),
        },
        extends(old(tree)@, final(tree)@),
    decreases tokens.len() - open,
{
    proof {
        lemma_extends_self(tree@);
    }
    let ghost views = token_views(tokens@);
    let ghost whole = walk_object(views, pre_calc@, enter_object(tree@), open + 1, close as int);
    let mut is_key = true;
    let mut key_pos: usize = 0;
    let (mut json_object, range) = create_new_object(tokens, open, close);
    let mut at: usize = open + 1;
    assert(member_views(json_object@) =~= Seq::<MemberView>::empty());
    while at < close
        invariant
            open < at,
            close < tokens.len(),
            at <= tokens.len(),
            views == token_views(tokens@),
            pairs_fit(pre_calc@, views),
            extends(old(tree)@, tree@),
            whole == walk_object(
                views,
                pre_calc@,
                enter_object(old(tree)@),
                open + 1,
                close as int,
            ),
            whole == walk_object(
                views,
                pre_calc@,
                ObjectWalk {
                    tree: tree@,
                    members: member_views(json_object@),
                    expecting_key: is_key,
                    key: key_pos,
                },
                at as int,
                close as int,
            ),
        decreases tokens.len() - at,
    {
        assert(views[at as int] == tokens@[at as int]@);
        let ghost walk = ObjectWalk {
            tree: tree@,
            members: member_views(json_object@),
            expecting_key: is_key,
            key: key_pos,
        };
        match &tokens[at] {
            TokenType::Comma => {
                is_key = true;
                at += 1;
            },
            TokenType::Colon => {
                is_key = false;
                at += 1;
            },
            TokenType::String(range, key) => {
                if is_key {
                    let record = Key { name: key.clone(), range: *range };
                    proof {
                        lemma_key_views_push(tree.keys@, record);
                    }
                    tree.keys.push(record);
                    key_pos = tree.keys.len() - 1;
                    assert(tree@ == read_key(walk, *range, key@).tree);
                } else {
                    let primitive = Entry {
                        key: Some(key_pos),
                        range: *range,
                        entry_type: EntryType::String(key.clone()),
                    };
                    if !store_member(tree, &mut json_object, key_pos, primitive) {
                        return Err(ParseError::Error);
                    }
                }
                at += 1;
            },
            TokenType::ObjectOpen(_) => {
                match closer(pre_calc, tokens, at) {
                    Some(close_idx) => {
                        match handle_object(tree, tokens, pre_calc, at, close_idx) {
                            Ok((hash, range)) => {
                                let entry = Entry {
                                    key: Some(key_pos),
                                    range,
                                    entry_type: EntryType::JSONObject(hash),
                                };
                                if !store_member(tree, &mut json_object, key_pos, entry) {
                                    return Err(ParseError::Error);
                                }
                                at = close_idx + 1;
                            },
                            Err(e) => {
                                return Err(e);
                            },
                        }
                    },
                    None => {
                        return Err(ParseError::MissingObjectBrace);
                    },
                }
            },
            TokenType::ArrayOpen(_) => {
                match closer(pre_calc, tokens, at) {
                    Some(close_idx) => {
                        match handle_array(tree, tokens, pre_calc, at, close_idx) {
                            Ok((array_vec, range)) => {
                                let entry = Entry {
                                    key: Some(key_pos),
                                    range,
                                    entry_type: EntryType::JSONArray(array_vec),
                                };
                                if !store_member(tree, &mut json_object, key_pos, entry) {
                                    return Err(ParseError::Error);
                                }
                                at = close_idx + 1;
                            },
                            Err(e) => {
                                return Err(e);
                            },
                        }
                    },
                    None => {
                        return Err(ParseError::MissingArrayBrace);
                    },
                }
            },
            token => {
                if let Some(primitive) = handle_primitives(token, Some(key_pos)) {
                    store_member(tree, &mut json_object, key_pos, primitive);
                }
                at += 1;
            },
        }
    }
    Ok((json_object, range))
}

/// Builds the tree that a sequence of tokens stands for.
///
/// The tokens are those of a document without its comments. Fails with
/// `MissingObjectBrace` where the first token is not an opening brace with a
/// closer, or where a nested opening brace has no closer; with
/// `MissingArrayBrace` where an opening square bracket has no closer; with
/// `Error` where a string or a nested value is to be stored in an object and
/// no key has been read yet. The first failure in the order of the tokens is
/// the one reported.
///
/// The tree that is returned is well formed, and its last entry is the
/// object of the document.
pub fn parse_json(tokens: &[TokenType]) -> (result: ParseResult<Tree>)
    ensures
        match build_tree(token_views(tokens@)) {
            Ok(tree) => result is Ok && result->Ok_0@ == tree,
            Err(e) => result == Err::<Tree, ParseError>(e),
        },
        result matches Ok(tree) ==> tree@.wf() && tree@.rooted(),
        result matches Err(e) ==> e == ParseError::MissingObjectBrace || e
            == ParseError::MissingArrayBrace || e == ParseError::Error,
{
    proof {
        lemma_build_tree_error(token_views(tokens@));
    }
    let mut tree = Tree { entries: Vec::new(), keys: Vec::new() };
    assert(tree@.entries =~= Seq::<EntryView>::empty());
    assert(tree@.keys =~= Seq::<KeyView>::empty());
    let pre_calc = pre_calculate_positions(tokens);
    if tokens.len() == 0 {
        return Err(ParseError::MissingObjectBrace);
    }
    assert(token_views(tokens@)[0] == tokens@[0]@);
    match &tokens[0] {
        TokenType::ObjectOpen(_) => {},
        _ => {
            return Err(ParseError::MissingObjectBrace);
        },
    }
    if closer(&pre_calc, tokens, 0).is_none() {
        return Err(ParseError::MissingObjectBrace);
    }
    assert(pre_calc@.contains_key(0));
    match handle_object(&mut tree, tokens, &pre_calc, 0, tokens.len() - 1) {
        Ok((hash, range)) => {
            let root = Entry { key: None, range, entry_type: EntryType::JSONObject(hash) };
            proof {
                lemma_entry_views_push(tree.entries@, root);
            }
            tree.entries.push(root);
            proof {
                assert(tree@.entries.len() == tree.entries.len());
                lemma_built_tree_is_well_formed(token_views(tokens@));
            }
            Ok(tree)
        },
        Err(e) => Err(e),
    }
}

} // verus!
