//! What a tree means, and that the builder gets it right.
//!
//! A tree is an arena of entries; what it stands for is a JSON value
//! ([`value_of`]). The tokens of a JSON object are its braces, keys, colons,
//! values and commas in the usual order ([`tokens_of`]). The law proved here
//! joins the two: from the tokens of an object whose keys are distinct, the
//! builder makes a tree whose root stands for that object.
use crate::parser::parse::{
    array_range, bracket_pairs, bracket_scan, bracket_step, build_tree, closer_of, commit_item,
    commit_member, empty_tree, enter_array, enter_object, object_range, primitive, read_key,
    walk_array, walk_object, ArrayWalk, Brackets, ObjectWalk,
};
use crate::parser::shape::{
    extends, lemma_extends_chain, lemma_extends_push_entry, lemma_extends_push_key,
    lemma_extends_self,
};
use crate::parser::alike::{lemma_build_tree_alike, same_tokens, same_tree};
use crate::parser::tokenize::TokenView;
use crate::tree::{member_position, EntryView, KeyView, MemberView, TreeView, ValueView};
use crate::types::{ParseError, Position, Range};
use vstd::prelude::*;

verus! {

/// A JSON value.
pub enum Json {
    Object(Fields),
    Array(Elements),
    String(Seq<char>),
    Int(i64),
    /// A number that is not a 64-bit integer, as it is written.
    Float(Seq<char>),
    Bool(bool),
    Null,
}

/// The fields of an object, in the order in which they are written.
pub enum Fields {
    End,
    Field(Seq<char>, Box<Json>, Box<Fields>),
}

/// The elements of an array, in order.
pub enum Elements {
    End,
    Element(Box<Json>, Box<Elements>),
}

/// The value that entry `i` of a tree stands for. The parts of a composite
/// value are the values that the entries before `i` to which it refers stand
/// for.
pub open spec fn value_of(tree: TreeView, i: usize) -> Json
    decreases i + 1, 0nat,
{
    match tree.entries[i as int].value {
        ValueView::Object(members) => Json::Object(fields_of(tree, members, i)),
        ValueView::Array(items) => Json::Array(elements_of(tree, items, i)),
        ValueView::String(text) => Json::String(text),
        ValueView::Int(value) => Json::Int(value),
        ValueView::Float(text) => Json::Float(text),
        ValueView::Bool(value) => Json::Bool(value),
        ValueView::Null => Json::Null,
    }
}

/// The fields that the members of an object stand for, where the object is
/// stored at index `bound`. A member that does not refer to an earlier entry
/// stands for `null`.
pub open spec fn fields_of(tree: TreeView, members: Seq<MemberView>, bound: usize) -> Fields
    decreases bound, members.len() + 1,
{
    if members.len() == 0 {
        Fields::End
    } else {
        Fields::Field(
            members[0].name,
            Box::new(
                if members[0].value < bound {
                    value_of(tree, members[0].value)
                } else {
                    Json::Null
                },
            ),
            Box::new(fields_of(tree, members.drop_first(), bound)),
        )
    }
}

/// The elements that the items of an array stand for, where the array is
/// stored at index `bound`. An item that does not refer to an earlier entry
/// stands for `null`.
pub open spec fn elements_of(tree: TreeView, items: Seq<usize>, bound: usize) -> Elements
    decreases bound, items.len() + 1,
{
    if items.len() == 0 {
        Elements::End
    } else {
        Elements::Element(
            Box::new(
                if items[0] < bound {
                    value_of(tree, items[0])
                } else {
                    Json::Null
                },
            ),
            Box::new(elements_of(tree, items.drop_first(), bound)),
        )
    }
}

/// An entry of a tree stands for the same value in every tree that extends
/// it.
pub proof fn lemma_value_of_extends(earlier: TreeView, later: TreeView, i: usize)
    requires
        extends(earlier, later),
        i < earlier.entries.len(),
    ensures
        value_of(later, i) == value_of(earlier, i),
    decreases i + 1, 0nat,
{
    assert(later.entries[i as int] == earlier.entries[i as int]);
    match earlier.entries[i as int].value {
        ValueView::Object(members) => {
            lemma_fields_of_extends(earlier, later, members, i);
        },
        ValueView::Array(items) => {
            lemma_elements_of_extends(earlier, later, items, i);
        },
        _ => {},
    }
}

/// Members stand for the same fields in every tree that extends the tree of
/// their object.
pub proof fn lemma_fields_of_extends(
    earlier: TreeView,
    later: TreeView,
    members: Seq<MemberView>,
    bound: usize,
)
    requires
        extends(earlier, later),
        bound <= earlier.entries.len(),
    ensures
        fields_of(later, members, bound) == fields_of(earlier, members, bound),
    decreases bound, members.len() + 1,
{
    if members.len() > 0 {
        if members[0].value < bound {
            lemma_value_of_extends(earlier, later, members[0].value);
        }
        lemma_fields_of_extends(earlier, later, members.drop_first(), bound);
    }
}

/// Items stand for the same elements in every tree that extends the tree of
/// their array.
pub proof fn lemma_elements_of_extends(
    earlier: TreeView,
    later: TreeView,
    items: Seq<usize>,
    bound: usize,
)
    requires
        extends(earlier, later),
        bound <= earlier.entries.len(),
    ensures
        elements_of(later, items, bound) == elements_of(earlier, items, bound),
    decreases bound, items.len() + 1,
{
    if items.len() > 0 {
        if items[0] < bound {
            lemma_value_of_extends(earlier, later, items[0]);
        }
        lemma_elements_of_extends(earlier, later, items.drop_first(), bound);
    }
}

/// A range that says nothing.
pub open spec fn nowhere() -> Range {
    Range { start: Position::origin(), end: Position::origin() }
}

/// The tokens that a value is written with, their ranges left aside.
pub open spec fn tokens_of(value: Json) -> Seq<TokenView>
    decreases value,
{
    match value {
        Json::Object(fields) => seq![TokenView::ObjectOpen(nowhere())] + tokens_of_fields(fields)
            + seq![TokenView::ObjectClose(nowhere())],
        Json::Array(elements) => seq![TokenView::ArrayOpen(nowhere())] + tokens_of_elements(
            elements,
        ) + seq![TokenView::ArrayClose(nowhere())],
        Json::String(text) => seq![TokenView::String(nowhere(), text)],
        Json::Int(number) => seq![TokenView::Int(nowhere(), number)],
        Json::Float(text) => seq![TokenView::Float(nowhere(), text)],
        Json::Bool(truth) => seq![TokenView::Bool(nowhere(), truth)],
        Json::Null => seq![TokenView::Null(nowhere())],
    }
}

/// The tokens that fields are written with: for each field its key, a colon
/// and its value, and a comma between one field and the next.
pub open spec fn tokens_of_fields(fields: Fields) -> Seq<TokenView>
    decreases fields,
{
    match fields {
        Fields::End => Seq::empty(),
        Fields::Field(name, value, rest) => seq![
            TokenView::String(nowhere(), name),
            TokenView::Colon,
        ] + tokens_of(*value) + (if *rest is End {
            Seq::empty()
        } else {
            seq![TokenView::Comma] + tokens_of_fields(*rest)
        }),
    }
}

/// The tokens that elements are written with: the values, and a comma
/// between one element and the next.
pub open spec fn tokens_of_elements(elements: Elements) -> Seq<TokenView>
    decreases elements,
{
    match elements {
        Elements::End => Seq::empty(),
        Elements::Element(value, rest) => tokens_of(*value) + (if *rest is End {
            Seq::empty()
        } else {
            seq![TokenView::Comma] + tokens_of_elements(*rest)
        }),
    }
}

/// Whether one of the fields has that name.
pub open spec fn has_field(fields: Fields, name: Seq<char>) -> bool
    decreases fields,
{
    match fields {
        Fields::End => false,
        Fields::Field(first, _, rest) => first == name || has_field(*rest, name),
    }
}

/// Whether no object within the value has two fields of one name.
pub open spec fn distinct_keys(value: Json) -> bool
    decreases value,
{
    match value {
        Json::Object(fields) => distinct_keys_in_fields(fields),
        Json::Array(elements) => distinct_keys_in_elements(elements),
        _ => true,
    }
}

/// Whether the fields have different names, and no object within their
/// values has two fields of one name.
pub open spec fn distinct_keys_in_fields(fields: Fields) -> bool
    decreases fields,
{
    match fields {
        Fields::End => true,
        Fields::Field(name, value, rest) => !has_field(*rest, name) && distinct_keys(*value)
            && distinct_keys_in_fields(*rest),
    }
}

/// Whether no object within the elements has two fields of one name.
pub open spec fn distinct_keys_in_elements(elements: Elements) -> bool
    decreases elements,
{
    match elements {
        Elements::End => true,
        Elements::Element(value, rest) => distinct_keys(*value) && distinct_keys_in_elements(*rest),
    }
}

/// Whether `part` stands among `tokens` from index `at` on.
pub open spec fn written_at(tokens: Seq<TokenView>, at: int, part: Seq<TokenView>) -> bool {
    &&& 0 <= at
    &&& at + part.len() <= tokens.len()
    &&& tokens.subrange(at, at + part.len()) == part
}

/// Where two parts stand one after the other, each of them stands.
proof fn lemma_written_split(
    tokens: Seq<TokenView>,
    at: int,
    front: Seq<TokenView>,
    back: Seq<TokenView>,
)
    requires
        written_at(tokens, at, front + back),
    ensures
        written_at(tokens, at, front),
        written_at(tokens, at + front.len(), back),
{
    let whole = tokens.subrange(at, at + (front + back).len());
    assert(tokens.subrange(at, at + front.len()) =~= front) by {
        assert forall|i: int| 0 <= i < front.len() implies tokens[at + i] == front[i] by {
            assert(whole[i] == (front + back)[i]);
        }
    }
    assert(tokens.subrange(at + front.len(), at + front.len() + back.len()) =~= back) by {
        assert forall|i: int| 0 <= i < back.len() implies tokens[at + front.len() + i]
            == back[i] by {
            assert(whole[front.len() + i] == (front + back)[front.len() + i]);
        }
    }
}

/// Where one token stands, it is the token at that index.
proof fn lemma_written_one(tokens: Seq<TokenView>, at: int, token: TokenView)
    requires
        written_at(tokens, at, seq![token]),
    ensures
        tokens[at] == token,
        at < tokens.len(),
{
    assert(tokens.subrange(at, at + 1)[0] == seq![token][0]);
}

/// A value is written with at least one token, a composite value with at
/// least two.
proof fn lemma_tokens_of_len(value: Json)
    ensures
        tokens_of(value).len() >= 1,
        value is Object || value is Array ==> tokens_of(value).len() >= 2,
{
}

/// Whether two states of the bracket matcher have the same openers waiting.
spec fn same_stacks(a: Brackets, b: Brackets) -> bool {
    a.objects == b.objects && a.arrays == b.arrays
}

/// Whether the later state of the bracket matcher has, for every opener
/// before index `at`, the closer that the earlier state has, or none as the
/// earlier state has none.
spec fn keeps_pairs_below(before: Brackets, after: Brackets, at: int) -> bool {
    forall|k: usize|
        (k as int) < at ==> (#[trigger] after.pairs.contains_key(k)) == before.pairs.contains_key(k)
            && (before.pairs.contains_key(k) ==> after.pairs[k] == before.pairs[k])
}

/// A token that is no brace and no bracket leaves the bracket matcher as it
/// is.
proof fn lemma_scan_plain(tokens: Seq<TokenView>, at: int)
    requires
        0 <= at < tokens.len(),
        !(tokens[at] is ObjectOpen),
        !(tokens[at] is ObjectClose),
        !(tokens[at] is ArrayOpen),
        !(tokens[at] is ArrayClose),
    ensures
        bracket_scan(tokens, at + 1) == bracket_scan(tokens, at),
{
}

/// Whether the opener at index `k` waits for its closer in neither stack.
spec fn waits_not(b: Brackets, k: usize) -> bool {
    &&& forall|j: int| 0 <= j < b.objects.len() ==> #[trigger] b.objects[j] != k
    &&& forall|j: int| 0 <= j < b.arrays.len() ==> #[trigger] b.arrays[j] != k
}

/// The openers that wait after the first `n` tokens are among those tokens.
proof fn lemma_stack_below(tokens: Seq<TokenView>, n: int)
    requires
        0 <= n <= tokens.len() <= usize::MAX,
    ensures
        forall|j: int|
            0 <= j < bracket_scan(tokens, n).objects.len() ==> #[trigger] bracket_scan(
                tokens,
                n,
            ).objects[j] < n,
        forall|j: int|
            0 <= j < bracket_scan(tokens, n).arrays.len() ==> #[trigger] bracket_scan(
                tokens,
                n,
            ).arrays[j] < n,
    decreases n,
{
    if n > 0 {
        lemma_stack_below(tokens, n - 1);
        let before = bracket_scan(tokens, n - 1);
        let after = bracket_scan(tokens, n);
        assert forall|j: int| 0 <= j < after.objects.len() implies #[trigger] after.objects[j]
            < n by {
            if j < before.objects.len() {
                assert(before.objects[j] < n - 1);
            }
        }
        assert forall|j: int| 0 <= j < after.arrays.len() implies #[trigger] after.arrays[j]
            < n by {
            if j < before.arrays.len() {
                assert(before.arrays[j] < n - 1);
            }
        }
    }
}

/// An opener that no longer waits keeps its closer, or stays without one.
proof fn lemma_pairs_stable(tokens: Seq<TokenView>, m: int, n: int, k: usize)
    requires
        0 <= m <= n <= tokens.len() <= usize::MAX,
        (k as int) < m,
        waits_not(bracket_scan(tokens, m), k),
    ensures
        waits_not(bracket_scan(tokens, n), k),
        bracket_scan(tokens, n).pairs.contains_key(k) == bracket_scan(tokens, m).pairs.contains_key(
            k,
        ),
        bracket_scan(tokens, m).pairs.contains_key(k) ==> bracket_scan(tokens, n).pairs[k]
            == bracket_scan(tokens, m).pairs[k],
    decreases n - m,
{
    if m < n {
        lemma_pairs_stable(tokens, m, n - 1, k);
        let before = bracket_scan(tokens, n - 1);
        let after = bracket_scan(tokens, n);
        assert(after == bracket_step(before, tokens[n - 1], (n - 1) as usize));
        assert forall|j: int| 0 <= j < after.objects.len() implies #[trigger] after.objects[j]
            != k by {
            if j < before.objects.len() {
                assert(before.objects[j] != k);
            }
        }
        assert forall|j: int| 0 <= j < after.arrays.len() implies #[trigger] after.arrays[j]
            != k by {
            if j < before.arrays.len() {
                assert(before.arrays[j] != k);
            }
        }
        if before.objects.len() > 0 {
            assert(before.objects[before.objects.len() - 1] != k);
        }
        if before.arrays.len() > 0 {
            assert(before.arrays[before.arrays.len() - 1] != k);
        }
    }
}

/// Where a composite value is written, the bracket matcher pairs its opener
/// with its closer.
proof fn lemma_closer_of_value(tokens: Seq<TokenView>, value: Json, at: int)
    requires
        written_at(tokens, at, tokens_of(value)),
        tokens.len() <= usize::MAX,
        value is Object || value is Array,
    ensures
        closer_of(bracket_pairs(tokens), tokens.len(), at) == Some(
            at + tokens_of(value).len() - 1,
        ),
{
    let behind = at + tokens_of(value).len();
    lemma_tokens_of_len(value);
    lemma_scan_value(tokens, value, at);
    lemma_stack_below(tokens, at);
    let before = bracket_scan(tokens, at);
    let after = bracket_scan(tokens, behind);
    assert(waits_not(after, at as usize)) by {
        assert forall|j: int| 0 <= j < after.objects.len() implies #[trigger] after.objects[j]
            != at as usize by {
            assert(before.objects[j] < at);
        }
        assert forall|j: int| 0 <= j < after.arrays.len() implies #[trigger] after.arrays[j]
            != at as usize by {
            assert(before.arrays[j] < at);
        }
    }
    lemma_pairs_stable(tokens, behind, tokens.len() as int, at as usize);
}

/// Over the tokens of a value the bracket matcher pairs the opener of a
/// composite value with its closer and ends with the openers waiting that
/// waited before; it leaves every earlier pair as it is.
proof fn lemma_scan_value(tokens: Seq<TokenView>, value: Json, at: int)
    requires
        written_at(tokens, at, tokens_of(value)),
        tokens.len() <= usize::MAX,
    ensures
        same_stacks(
            bracket_scan(tokens, at + tokens_of(value).len()),
            bracket_scan(tokens, at),
        ),
        keeps_pairs_below(
            bracket_scan(tokens, at),
            bracket_scan(tokens, at + tokens_of(value).len()),
            at,
        ),
        value is Object || value is Array ==> bracket_scan(
            tokens,
            at + tokens_of(value).len(),
        ).pairs.contains_key(at as usize) && bracket_scan(
            tokens,
            at + tokens_of(value).len(),
        ).pairs[at as usize] == at + tokens_of(value).len() - 1,
    decreases value,
{
    let all = tokens_of(value);
    let len = all.len() as int;
    let before = bracket_scan(tokens, at);
    match value {
        Json::Object(fields) => {
            let inner = tokens_of_fields(fields);
            let open = seq![TokenView::ObjectOpen(nowhere())];
            let close = seq![TokenView::ObjectClose(nowhere())];
            assert(all == open + inner + close);
            lemma_written_split(tokens, at, open + inner, close);
            lemma_written_split(tokens, at, open, inner);
            lemma_written_one(tokens, at, open[0]);
            lemma_written_one(tokens, at + 1 + inner.len(), close[0]);
            lemma_scan_fields(tokens, fields, at + 1);
            let opened = bracket_scan(tokens, at + 1);
            let filled = bracket_scan(tokens, at + 1 + inner.len());
            let after = bracket_scan(tokens, at + len);
            assert(opened.objects == before.objects.push(at as usize));
            assert(filled.objects.last() == at as usize);
            assert(after.objects =~= before.objects);
            assert(after.pairs == filled.pairs.insert(at as usize, (at + len - 1) as usize));
            assert(opened.pairs == before.pairs);
            assert forall|k: usize| (k as int) < at implies (#[trigger] after.pairs.contains_key(k))
                == before.pairs.contains_key(k) && (before.pairs.contains_key(k) ==> after.pairs[k]
                == before.pairs[k]) by {
                assert(k != at as usize);
                assert(after.pairs.contains_key(k) == filled.pairs.contains_key(k));
                assert(filled.pairs.contains_key(k) == opened.pairs.contains_key(k));
                if before.pairs.contains_key(k) {
                    assert(after.pairs[k] == filled.pairs[k]);
                    assert(filled.pairs[k] == opened.pairs[k]);
                }
            }
            assert(keeps_pairs_below(before, after, at));
            assert(same_stacks(after, before));
            assert(after.pairs.contains_key(at as usize));
            assert(after.pairs[at as usize] == at + len - 1);
        },
        Json::Array(elements) => {
            let inner = tokens_of_elements(elements);
            let open = seq![TokenView::ArrayOpen(nowhere())];
            let close = seq![TokenView::ArrayClose(nowhere())];
            assert(all == open + inner + close);
            lemma_written_split(tokens, at, open + inner, close);
            lemma_written_split(tokens, at, open, inner);
            lemma_written_one(tokens, at, open[0]);
            lemma_written_one(tokens, at + 1 + inner.len(), close[0]);
            lemma_scan_elements(tokens, elements, at + 1);
            let opened = bracket_scan(tokens, at + 1);
            let filled = bracket_scan(tokens, at + 1 + inner.len());
            let after = bracket_scan(tokens, at + len);
            assert(opened.arrays == before.arrays.push(at as usize));
            assert(filled.arrays.last() == at as usize);
            assert(after.arrays =~= before.arrays);
            assert(after.pairs == filled.pairs.insert(at as usize, (at + len - 1) as usize));
            assert(opened.pairs == before.pairs);
            assert forall|k: usize| (k as int) < at implies (#[trigger] after.pairs.contains_key(k))
                == before.pairs.contains_key(k) && (before.pairs.contains_key(k) ==> after.pairs[k]
                == before.pairs[k]) by {
                assert(k != at as usize);
                assert(after.pairs.contains_key(k) == filled.pairs.contains_key(k));
                assert(filled.pairs.contains_key(k) == opened.pairs.contains_key(k));
                if before.pairs.contains_key(k) {
                    assert(after.pairs[k] == filled.pairs[k]);
                    assert(filled.pairs[k] == opened.pairs[k]);
                }
            }
            assert(keeps_pairs_below(before, after, at));
            assert(same_stacks(after, before));
            assert(after.pairs.contains_key(at as usize));
            assert(after.pairs[at as usize] == at + len - 1);
        },
        _ => {
            lemma_written_one(tokens, at, all[0]);
            lemma_scan_plain(tokens, at);
        },
    }
}

/// Over the tokens of fields the bracket matcher ends with the openers
/// waiting that waited before, and it leaves every earlier pair as it is.
proof fn lemma_scan_fields(tokens: Seq<TokenView>, fields: Fields, at: int)
    requires
        written_at(tokens, at, tokens_of_fields(fields)),
        tokens.len() <= usize::MAX,
    ensures
        same_stacks(
            bracket_scan(tokens, at + tokens_of_fields(fields).len()),
            bracket_scan(tokens, at),
        ),
        keeps_pairs_below(
            bracket_scan(tokens, at),
            bracket_scan(tokens, at + tokens_of_fields(fields).len()),
            at,
        ),
    decreases fields,
{
    match fields {
        Fields::End => {
            assert(tokens_of_fields(fields).len() == 0);
        },
        Fields::Field(name, value, rest) => {
            let head = seq![TokenView::String(nowhere(), name), TokenView::Colon];
            let body = tokens_of(*value);
            let tail = if *rest is End {
                Seq::empty()
            } else {
                seq![TokenView::Comma] + tokens_of_fields(*rest)
            };
            assert(tokens_of_fields(fields) == head + body + tail);
            lemma_written_split(tokens, at, head + body, tail);
            lemma_written_split(tokens, at, head, body);
            assert(tokens[at] == head[0] && tokens[at + 1] == head[1]) by {
                assert(tokens.subrange(at, at + 2)[0] == head[0]);
                assert(tokens.subrange(at, at + 2)[1] == head[1]);
            }
            lemma_scan_plain(tokens, at);
            lemma_scan_plain(tokens, at + 1);
            lemma_scan_value(tokens, *value, at + 2);
            let behind = at + 2 + body.len();
            if !(*rest is End) {
                let comma = seq![TokenView::Comma];
                lemma_written_split(tokens, behind, comma, tokens_of_fields(*rest));
                lemma_written_one(tokens, behind, comma[0]);
                lemma_scan_plain(tokens, behind);
                lemma_scan_fields(tokens, *rest, behind + 1);
            }
        },
    }
}

/// Over the tokens of elements the bracket matcher ends with the openers
/// waiting that waited before, and it leaves every earlier pair as it is.
proof fn lemma_scan_elements(tokens: Seq<TokenView>, elements: Elements, at: int)
    requires
        written_at(tokens, at, tokens_of_elements(elements)),
        tokens.len() <= usize::MAX,
    ensures
        same_stacks(
            bracket_scan(tokens, at + tokens_of_elements(elements).len()),
            bracket_scan(tokens, at),
        ),
        keeps_pairs_below(
            bracket_scan(tokens, at),
            bracket_scan(tokens, at + tokens_of_elements(elements).len()),
            at,
        ),
    decreases elements,
{
    match elements {
        Elements::End => {
            assert(tokens_of_elements(elements).len() == 0);
        },
        Elements::Element(value, rest) => {
            let body = tokens_of(*value);
            let tail = if *rest is End {
                Seq::empty()
            } else {
                seq![TokenView::Comma] + tokens_of_elements(*rest)
            };
            assert(tokens_of_elements(elements) == body + tail);
            lemma_written_split(tokens, at, body, tail);
            lemma_scan_value(tokens, *value, at);
            let behind = at + body.len();
            if !(*rest is End) {
                let comma = seq![TokenView::Comma];
                lemma_written_split(tokens, behind, comma, tokens_of_elements(*rest));
                lemma_written_one(tokens, behind, comma[0]);
                lemma_scan_plain(tokens, behind);
                lemma_scan_elements(tokens, *rest, behind + 1);
            }
        },
    }
}

/// Whether a walk has stored no more entries and key records than there are
/// tokens before index `at`.
spec fn within(tree: TreeView, at: int) -> bool {
    tree.entries.len() <= at && tree.keys.len() <= at
}

/// Whether none of the fields has the name of one of the members.
spec fn fresh(fields: Fields, members: Seq<MemberView>) -> bool {
    forall|name: Seq<char>| #[trigger]
        has_field(fields, name) ==> member_position(members, name) is None
}

/// A name that no member has is still not there after a member of another
/// name is added.
proof fn lemma_member_position_push(members: Seq<MemberView>, member: MemberView, name: Seq<char>)
    requires
        member_position(members, name) is None,
        member.name != name,
    ensures
        member_position(members.push(member), name) is None,
{
    assert(members.push(member).drop_last() =~= members);
}

/// A value that is written in an object, behind the colon of a key that the
/// object does not have yet, is stored under that key, and the walk goes on
/// behind it. The entry that is stored stands for the value.
proof fn lemma_value_in_object(
    tokens: Seq<TokenView>,
    value: Json,
    at: int,
    walk: ObjectWalk,
    end: int,
) -> (next: ObjectWalk)
    requires
        written_at(tokens, at, tokens_of(value)),
        at + tokens_of(value).len() <= end <= tokens.len() <= usize::MAX,
        distinct_keys(value),
        !walk.expecting_key,
        walk.key < walk.tree.keys.len(),
        member_position(walk.members, walk.tree.keys[walk.key as int].name) is None,
        within(walk.tree, at),
    ensures
        walk_object(tokens, bracket_pairs(tokens), walk, at, end) == walk_object(
            tokens,
            bracket_pairs(tokens),
            next,
            at + tokens_of(value).len(),
            end,
        ),
        extends(walk.tree, next.tree),
        next.tree.entries.len() >= 1,
        next.members == walk.members.push(
            MemberView {
                name: walk.tree.keys[walk.key as int].name,
                key: walk.key,
                value: (next.tree.entries.len() - 1) as usize,
            },
        ),
        value_of(next.tree, (next.tree.entries.len() - 1) as usize) == value,
        next.key == walk.key,
        next.expecting_key == walk.expecting_key,
        within(next.tree, at + tokens_of(value).len()),
    decreases value,
{
    let pairs = bracket_pairs(tokens);
    let all = tokens_of(value);
    let name = walk.tree.keys[walk.key as int].name;
    lemma_tokens_of_len(value);
    match value {
        Json::Object(fields) => {
            let inside = tokens_of_fields(fields);
            let open = seq![TokenView::ObjectOpen(nowhere())];
            let shut = seq![TokenView::ObjectClose(nowhere())];
            let close = at + all.len() - 1;
            assert(all == open + inside + shut);
            lemma_written_split(tokens, at, open + inside, shut);
            lemma_written_split(tokens, at, open, inside);
            lemma_written_one(tokens, at, open[0]);
            lemma_closer_of_value(tokens, value, at);
            let (inner, members) = lemma_fields_in_object(
                tokens,
                fields,
                at + 1,
                enter_object(walk.tree),
                close,
            );
            assert(inner.members =~= members);
            let outer = ObjectWalk { tree: inner.tree, ..walk };
            let range = object_range(tokens, at, close);
            let entry = EntryView { key: Some(walk.key), range, value: ValueView::Object(members) };
            assert(inner.tree.keys[walk.key as int] == walk.tree.keys[walk.key as int]) by {
                assert(walk.tree.keys[walk.key as int] == inner.tree.keys.subrange(
                    0,
                    walk.tree.keys.len() as int,
                )[walk.key as int]);
            }
            let next = commit_member(outer, range, ValueView::Object(members))->Some_0;
            let index = inner.tree.entries.len() as usize;
            lemma_extends_push_entry(inner.tree, entry);
            lemma_extends_chain(walk.tree, inner.tree, next.tree);
            lemma_fields_of_extends(inner.tree, next.tree, members, index);
            assert(next.tree.entries[index as int] == entry);
            assert(value_of(next.tree, index) == value);
            next
        },
        Json::Array(elements) => {
            let inside = tokens_of_elements(elements);
            let open = seq![TokenView::ArrayOpen(nowhere())];
            let shut = seq![TokenView::ArrayClose(nowhere())];
            let close = at + all.len() - 1;
            assert(all == open + inside + shut);
            lemma_written_split(tokens, at, open + inside, shut);
            lemma_written_split(tokens, at, open, inside);
            lemma_written_one(tokens, at, open[0]);
            lemma_closer_of_value(tokens, value, at);
            let (inner, items) = lemma_elements_in_array(
                tokens,
                elements,
                at + 1,
                enter_array(walk.tree),
                close,
            );
            assert(inner.items =~= items);
            let outer = ObjectWalk { tree: inner.tree, ..walk };
            let range = array_range(tokens, at, close);
            let entry = EntryView { key: Some(walk.key), range, value: ValueView::Array(items) };
            assert(inner.tree.keys[walk.key as int] == walk.tree.keys[walk.key as int]) by {
                assert(walk.tree.keys[walk.key as int] == inner.tree.keys.subrange(
                    0,
                    walk.tree.keys.len() as int,
                )[walk.key as int]);
            }
            let next = commit_member(outer, range, ValueView::Array(items))->Some_0;
            let index = inner.tree.entries.len() as usize;
            lemma_extends_push_entry(inner.tree, entry);
            lemma_extends_chain(walk.tree, inner.tree, next.tree);
            lemma_elements_of_extends(inner.tree, next.tree, items, index);
            assert(next.tree.entries[index as int] == entry);
            assert(value_of(next.tree, index) == value);
            next
        },
        _ => {
            lemma_written_one(tokens, at, all[0]);
            let (range, stored) = primitive(tokens[at])->Some_0;
            let entry = EntryView { key: Some(walk.key), range, value: stored };
            let next = commit_member(walk, range, stored)->Some_0;
            let index = walk.tree.entries.len() as usize;
            lemma_extends_push_entry(walk.tree, entry);
            assert(next.tree.entries[index as int] == entry);
            assert(value_of(next.tree, index) == value);
            next
        },
    }
}

/// Fields with distinct names that the object does not have yet, written up
/// to the closing brace, become members of the object in the order in which
/// they are written. The members stand for the fields.
proof fn lemma_fields_in_object(
    tokens: Seq<TokenView>,
    fields: Fields,
    at: int,
    walk: ObjectWalk,
    end: int,
) -> (done: (ObjectWalk, Seq<MemberView>))
    requires
        written_at(tokens, at, tokens_of_fields(fields)),
        at + tokens_of_fields(fields).len() == end,
        end <= tokens.len() <= usize::MAX,
        distinct_keys_in_fields(fields),
        walk.expecting_key,
        fresh(fields, walk.members),
        within(walk.tree, at),
    ensures
        walk_object(tokens, bracket_pairs(tokens), walk, at, end) == Ok::<ObjectWalk, ParseError>(
            done.0,
        ),
        extends(walk.tree, done.0.tree),
        done.0.members == walk.members + done.1,
        fields_of(done.0.tree, done.1, done.0.tree.entries.len() as usize) == fields,
        within(done.0.tree, end),
    decreases fields,
{
    let pairs = bracket_pairs(tokens);
    match fields {
        Fields::End => {
            assert(tokens_of_fields(fields).len() == 0);
            lemma_extends_self(walk.tree);
            assert(walk.members + Seq::<MemberView>::empty() =~= walk.members);
            (walk, Seq::empty())
        },
        Fields::Field(name, value, rest) => {
            let head = seq![TokenView::String(nowhere(), name), TokenView::Colon];
            let body = tokens_of(*value);
            let tail = if *rest is End {
                Seq::empty()
            } else {
                seq![TokenView::Comma] + tokens_of_fields(*rest)
            };
            assert(tokens_of_fields(fields) == head + body + tail);
            lemma_written_split(tokens, at, head + body, tail);
            lemma_written_split(tokens, at, head, body);
            assert(tokens[at] == head[0] && tokens[at + 1] == head[1]) by {
                assert(tokens.subrange(at, at + 2)[0] == head[0]);
                assert(tokens.subrange(at, at + 2)[1] == head[1]);
            }
            // The key is read, and the colon makes what follows a value.
            let keyed = read_key(walk, nowhere(), name);
            let valued = ObjectWalk { expecting_key: false, ..keyed };
            lemma_extends_push_key(walk.tree, KeyView { name, range: nowhere() });
            assert(walk_object(tokens, pairs, walk, at, end) == walk_object(
                tokens,
                pairs,
                valued,
                at + 2,
                end,
            )) by {
                assert(walk_object(tokens, pairs, walk, at, end) == walk_object(
                    tokens,
                    pairs,
                    keyed,
                    at + 1,
                    end,
                ));
            }
            assert(has_field(fields, name));
            let stored = lemma_value_in_object(tokens, *value, at + 2, valued, end);
            lemma_extends_chain(walk.tree, valued.tree, stored.tree);
            let behind = at + 2 + body.len();
            let index = (stored.tree.entries.len() - 1) as usize;
            let member = MemberView { name, key: valued.key, value: index };
            assert(stored.members == walk.members.push(member));
            if *rest is End {
                assert(behind == end);
                let members = seq![member];
                assert(stored.members =~= walk.members + members);
                assert(members.drop_first() =~= Seq::<MemberView>::empty());
                let bound = stored.tree.entries.len() as usize;
                assert(fields_of(stored.tree, members.drop_first(), bound) == Fields::End);
                assert(members[0] == member);
                assert(index < bound);
                assert(*rest == Fields::End);
                assert(fields_of(stored.tree, members, bound) == Fields::Field(
                    name,
                    Box::new(value_of(stored.tree, index)),
                    Box::new(Fields::End),
                ));
                assert(fields_of(stored.tree, members, stored.tree.entries.len() as usize)
                    == fields);
                (stored, members)
            } else {
                let comma = seq![TokenView::Comma];
                lemma_written_split(tokens, behind, comma, tokens_of_fields(*rest));
                lemma_written_one(tokens, behind, comma[0]);
                let again = ObjectWalk { expecting_key: true, ..stored };
                assert forall|other: Seq<char>| #[trigger] has_field(*rest, other) implies member_position(
                    again.members,
                    other,
                ) is None by {
                    assert(has_field(fields, other));
                    lemma_member_position_push(walk.members, member, other);
                }
                let (done, more) = lemma_fields_in_object(tokens, *rest, behind + 1, again, end);
                lemma_extends_chain(walk.tree, stored.tree, done.tree);
                let members = seq![member] + more;
                assert(done.members =~= walk.members + members);
                assert(members.drop_first() =~= more);
                lemma_value_of_extends(stored.tree, done.tree, index);
                assert(index < done.tree.entries.len()) by {
                    assert(stored.tree.entries.len() <= done.tree.entries.len());
                }
                assert(fields_of(done.tree, members, done.tree.entries.len() as usize) == fields);
                (done, members)
            }
        },
    }
}

/// A value that is written in an array becomes the last element so far, and
/// the walk goes on behind it. The entry that is stored stands for the value.
proof fn lemma_value_in_array(
    tokens: Seq<TokenView>,
    value: Json,
    at: int,
    walk: ArrayWalk,
    end: int,
) -> (next: ArrayWalk)
    requires
        written_at(tokens, at, tokens_of(value)),
        at + tokens_of(value).len() <= end <= tokens.len() <= usize::MAX,
        distinct_keys(value),
        within(walk.tree, at),
    ensures
        walk_array(tokens, bracket_pairs(tokens), walk, at, end) == walk_array(
            tokens,
            bracket_pairs(tokens),
            next,
            at + tokens_of(value).len(),
            end,
        ),
        extends(walk.tree, next.tree),
        next.tree.entries.len() >= 1,
        next.items == walk.items.push((next.tree.entries.len() - 1) as usize),
        value_of(next.tree, (next.tree.entries.len() - 1) as usize) == value,
        within(next.tree, at + tokens_of(value).len()),
    decreases value,
{
    let pairs = bracket_pairs(tokens);
    let all = tokens_of(value);
    lemma_tokens_of_len(value);
    match value {
        Json::Object(fields) => {
            let inside = tokens_of_fields(fields);
            let open = seq![TokenView::ObjectOpen(nowhere())];
            let shut = seq![TokenView::ObjectClose(nowhere())];
            let close = at + all.len() - 1;
            assert(all == open + inside + shut);
            lemma_written_split(tokens, at, open + inside, shut);
            lemma_written_split(tokens, at, open, inside);
            lemma_written_one(tokens, at, open[0]);
            lemma_closer_of_value(tokens, value, at);
            let (inner, members) = lemma_fields_in_object(
                tokens,
                fields,
                at + 1,
                enter_object(walk.tree),
                close,
            );
            assert(inner.members =~= members);
            let range = object_range(tokens, at, close);
            let entry = EntryView { key: None, range, value: ValueView::Object(members) };
            let next = commit_item(
                ArrayWalk { tree: inner.tree, ..walk },
                range,
                ValueView::Object(members),
            );
            let index = inner.tree.entries.len() as usize;
            lemma_extends_push_entry(inner.tree, entry);
            lemma_extends_chain(walk.tree, inner.tree, next.tree);
            lemma_fields_of_extends(inner.tree, next.tree, members, index);
            assert(next.tree.entries[index as int] == entry);
            assert(value_of(next.tree, index) == value);
            next
        },
        Json::Array(elements) => {
            let inside = tokens_of_elements(elements);
            let open = seq![TokenView::ArrayOpen(nowhere())];
            let shut = seq![TokenView::ArrayClose(nowhere())];
            let close = at + all.len() - 1;
            assert(all == open + inside + shut);
            lemma_written_split(tokens, at, open + inside, shut);
            lemma_written_split(tokens, at, open, inside);
            lemma_written_one(tokens, at, open[0]);
            lemma_closer_of_value(tokens, value, at);
            let (inner, items) = lemma_elements_in_array(
                tokens,
                elements,
                at + 1,
                enter_array(walk.tree),
                close,
            );
            assert(inner.items =~= items);
            let range = array_range(tokens, at, close);
            let entry = EntryView { key: None, range, value: ValueView::Array(items) };
            let next = commit_item(
                ArrayWalk { tree: inner.tree, ..walk },
                range,
                ValueView::Array(items),
            );
            let index = inner.tree.entries.len() as usize;
            lemma_extends_push_entry(inner.tree, entry);
            lemma_extends_chain(walk.tree, inner.tree, next.tree);
            lemma_elements_of_extends(inner.tree, next.tree, items, index);
            assert(next.tree.entries[index as int] == entry);
            assert(value_of(next.tree, index) == value);
            next
        },
        _ => {
            lemma_written_one(tokens, at, all[0]);
            let (range, stored) = primitive(tokens[at])->Some_0;
            let entry = EntryView { key: None, range, value: stored };
            let next = commit_item(walk, range, stored);
            let index = walk.tree.entries.len() as usize;
            lemma_extends_push_entry(walk.tree, entry);
            assert(next.tree.entries[index as int] == entry);
            assert(value_of(next.tree, index) == value);
            next
        },
    }
}

/// Elements that are written up to the closing bracket become elements of
/// the array in the order in which they are written. The items stand for the
/// elements.
proof fn lemma_elements_in_array(
    tokens: Seq<TokenView>,
    elements: Elements,
    at: int,
    walk: ArrayWalk,
    end: int,
) -> (done: (ArrayWalk, Seq<usize>))
    requires
        written_at(tokens, at, tokens_of_elements(elements)),
        at + tokens_of_elements(elements).len() == end,
        end <= tokens.len() <= usize::MAX,
        distinct_keys_in_elements(elements),
        within(walk.tree, at),
    ensures
        walk_array(tokens, bracket_pairs(tokens), walk, at, end) == Ok::<ArrayWalk, ParseError>(
            done.0,
        ),
        extends(walk.tree, done.0.tree),
        done.0.items == walk.items + done.1,
        elements_of(done.0.tree, done.1, done.0.tree.entries.len() as usize) == elements,
        within(done.0.tree, end),
    decreases elements,
{
    let pairs = bracket_pairs(tokens);
    match elements {
        Elements::End => {
            assert(tokens_of_elements(elements).len() == 0);
            lemma_extends_self(walk.tree);
            assert(walk.items + Seq::<usize>::empty() =~= walk.items);
            (walk, Seq::empty())
        },
        Elements::Element(value, rest) => {
            let body = tokens_of(*value);
            let tail = if *rest is End {
                Seq::empty()
            } else {
                seq![TokenView::Comma] + tokens_of_elements(*rest)
            };
            assert(tokens_of_elements(elements) == body + tail);
            lemma_written_split(tokens, at, body, tail);
            let stored = lemma_value_in_array(tokens, *value, at, walk, end);
            let behind = at + body.len();
            let index = (stored.tree.entries.len() - 1) as usize;
            if *rest is End {
                assert(behind == end);
                let items = seq![index];
                assert(stored.items =~= walk.items + items);
                assert(items.drop_first() =~= Seq::<usize>::empty());
                let bound = stored.tree.entries.len() as usize;
                assert(elements_of(stored.tree, items.drop_first(), bound) == Elements::End);
                assert(items[0] == index);
                assert(index < bound);
                assert(*rest == Elements::End);
                assert(elements_of(stored.tree, items, bound) == Elements::Element(
                    Box::new(value_of(stored.tree, index)),
                    Box::new(Elements::End),
                ));
                assert(elements_of(stored.tree, items, stored.tree.entries.len() as usize)
                    == elements);
                (stored, items)
            } else {
                let comma = seq![TokenView::Comma];
                lemma_written_split(tokens, behind, comma, tokens_of_elements(*rest));
                lemma_written_one(tokens, behind, comma[0]);
                let (done, more) = lemma_elements_in_array(tokens, *rest, behind + 1, stored, end);
                lemma_extends_chain(walk.tree, stored.tree, done.tree);
                let items = seq![index] + more;
                assert(done.items =~= walk.items + items);
                assert(items.drop_first() =~= more);
                lemma_value_of_extends(stored.tree, done.tree, index);
                assert(index < done.tree.entries.len()) by {
                    assert(stored.tree.entries.len() <= done.tree.entries.len());
                }
                assert(elements_of(done.tree, items, done.tree.entries.len() as usize)
                    == elements);
                (done, items)
            }
        },
    }
}

/// An entry stands for the same value in trees that are alike but for their
/// ranges.
pub proof fn lemma_value_of_alike(a: TreeView, b: TreeView, i: usize)
    requires
        same_tree(a, b),
        i < a.entries.len(),
    ensures
        value_of(a, i) == value_of(b, i),
    decreases i + 1, 0nat,
{
    assert(a.entries[i as int].value == b.entries[i as int].value);
    match a.entries[i as int].value {
        ValueView::Object(members) => {
            lemma_fields_of_alike(a, b, members, i);
        },
        ValueView::Array(items) => {
            lemma_elements_of_alike(a, b, items, i);
        },
        _ => {},
    }
}

/// Members stand for the same fields in trees that are alike but for their
/// ranges.
proof fn lemma_fields_of_alike(a: TreeView, b: TreeView, members: Seq<MemberView>, bound: usize)
    requires
        same_tree(a, b),
        bound <= a.entries.len(),
    ensures
        fields_of(a, members, bound) == fields_of(b, members, bound),
    decreases bound, members.len() + 1,
{
    if members.len() > 0 {
        if members[0].value < bound {
            lemma_value_of_alike(a, b, members[0].value);
        }
        lemma_fields_of_alike(a, b, members.drop_first(), bound);
    }
}

/// Items stand for the same elements in trees that are alike but for their
/// ranges.
proof fn lemma_elements_of_alike(a: TreeView, b: TreeView, items: Seq<usize>, bound: usize)
    requires
        same_tree(a, b),
        bound <= a.entries.len(),
    ensures
        elements_of(a, items, bound) == elements_of(b, items, bound),
    decreases bound, items.len() + 1,
{
    if items.len() > 0 {
        if items[0] < bound {
            lemma_value_of_alike(a, b, items[0]);
        }
        lemma_elements_of_alike(a, b, items.drop_first(), bound);
    }
}

/// The root of a tree that has one: its last entry.
pub open spec fn root_of(tree: TreeView) -> usize {
    (tree.entries.len() - 1) as usize
}

/// From the tokens of an object the builder makes a tree whose root stands
/// for that object.
///
/// The tokens are those that the object is written with: braces and
/// brackets, keys, colons, values and commas in the usual order, with
/// whatever ranges. No object within the object may have two fields of one
/// name. Then building succeeds, and the value that the last entry of the
/// tree stands for is the object, field by field and element by element.
pub proof fn lemma_object_is_built(object: Json, tokens: Seq<TokenView>)
    requires
        object is Object,
        distinct_keys(object),
        same_tokens(tokens, tokens_of(object)),
        tokens.len() <= usize::MAX,
    ensures
        build_tree(tokens) matches Ok(tree) && tree.entries.len() >= 1 && value_of(
            tree,
            root_of(tree),
        ) == object,
{
    let written = tokens_of(object);
    let fields = object->Object_0;
    let inside = tokens_of_fields(fields);
    let open = seq![TokenView::ObjectOpen(nowhere())];
    let shut = seq![TokenView::ObjectClose(nowhere())];
    let len = written.len() as int;
    let pairs = bracket_pairs(written);
    assert(written == open + inside + shut);
    assert(written.subrange(0, len) =~= written);
    lemma_written_split(written, 0, open + inside, shut);
    lemma_written_split(written, 0, open, inside);
    lemma_written_one(written, 0, open[0]);
    lemma_closer_of_value(written, object, 0);
    assert(pairs.contains_key(0));
    let start = enter_object(empty_tree());
    assert(fresh(fields, start.members));
    let (done, members) = lemma_fields_in_object(written, fields, 1, start, len - 1);
    assert(done.members =~= members);
    let built = build_tree(written)->Ok_0;
    let root = EntryView {
        key: None,
        range: object_range(written, 0, len - 1),
        value: ValueView::Object(members),
    };
    let index = done.tree.entries.len() as usize;
    assert(built.entries == done.tree.entries.push(root));
    lemma_extends_push_entry(done.tree, root);
    lemma_fields_of_extends(done.tree, built, members, index);
    assert(built.entries[index as int] == root);
    assert(value_of(built, index) == object);
    lemma_build_tree_alike(tokens, written);
    let tree = build_tree(tokens)->Ok_0;
    lemma_value_of_alike(tree, built, index);
}

} // verus!
