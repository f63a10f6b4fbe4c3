//! Comments do not change what a document means.
//!
//! Three laws are proved here.
//!
//! - On tokens: a comment token may stand anywhere among the tokens without
//!   any effect on the tree that is built.
//! - On text, in place: a comment that stands where no token is under way
//!   may be blanked out, character by character, without any effect on the
//!   other tokens, and so on the tree. The ranges in the tree stay as they
//!   are, since every other character keeps its place.
//! - On text, by insertion: a comment that is put where no token is under
//!   way, or taken out, changes nothing in the tree but the ranges, and no
//!   answer to any query.
use crate::parser::alike::{
    lemma_build_tree_alike, lemma_lex_range_alike, lemma_same_tokens_concat,
    lemma_same_tokens_without_comments, lemma_same_tree_same_answers, same_meaning, same_tokens,
    same_tree,
};
use crate::parser::parse::build_tree;
use crate::parser::tokenize::{
    lex_idle, lex_range, lex_step, position_at, start_cursor, tokenize_spec, Cursor, Lexed,
    Pending, TokenView,
};
use crate::tree::{PathView, TreeView};
use crate::types::ParseError;
use crate::{document_tree, without_comments};
use vstd::prelude::*;

verus! {

/// Dropping the comments of two sequences of tokens, one after the other,
/// drops the comments of the two together.
pub(crate) proof fn lemma_without_comments_concat(front: Seq<TokenView>, back: Seq<TokenView>)
    ensures
        without_comments(front + back) == without_comments(front) + without_comments(back),
    decreases back.len(),
{
    if back.len() == 0 {
        assert(front + back =~= front);
        assert(without_comments(front) + without_comments(back) =~= without_comments(front));
    } else {
        let all = front + back;
        assert(all.drop_last() =~= front + back.drop_last());
        assert(all.last() == back.last());
        lemma_without_comments_concat(front, back.drop_last());
        if back.last() is Comment {
        } else {
            assert(without_comments(front + back.drop_last()).push(back.last())
                =~= without_comments(front) + without_comments(back.drop_last()).push(
                back.last(),
            ));
        }
    }
}

/// Where there is no comment, dropping the comments changes nothing.
pub(crate) proof fn lemma_without_comments_keeps(tokens: Seq<TokenView>)
    requires
        forall|i: int| 0 <= i < tokens.len() ==> !(#[trigger] tokens[i] is Comment),
    ensures
        without_comments(tokens) == tokens,
    decreases tokens.len(),
{
    if tokens.len() == 0 {
        assert(tokens =~= Seq::<TokenView>::empty());
    } else {
        let front = tokens.drop_last();
        assert forall|i: int| 0 <= i < front.len() implies !(#[trigger] front[i] is Comment) by {
            assert(front[i] == tokens[i]);
        }
        lemma_without_comments_keeps(front);
        assert(!(tokens[tokens.len() - 1] is Comment));
        assert(front.push(tokens.last()) =~= tokens);
    }
}

/// What is left when the comments are dropped holds no comment.
pub(crate) proof fn lemma_without_comments_holds_none(tokens: Seq<TokenView>)
    ensures
        forall|i: int|
            0 <= i < without_comments(tokens).len() ==> !(#[trigger] without_comments(tokens)[i]
                is Comment),
    decreases tokens.len(),
{
    if tokens.len() > 0 {
        lemma_without_comments_holds_none(tokens.drop_last());
    }
}

/// Dropping the comments a second time changes nothing.
pub proof fn lemma_without_comments_twice(tokens: Seq<TokenView>)
    ensures
        without_comments(without_comments(tokens)) == without_comments(tokens),
{
    lemma_without_comments_holds_none(tokens);
    lemma_without_comments_keeps(without_comments(tokens));
}

/// A comment token that is put anywhere among the tokens of a document, or
/// taken out again, does not change the tree that is built: not its entries,
/// not its key records, and so no answer to any query.
pub proof fn lemma_comment_token_leaves_tree(
    before: Seq<TokenView>,
    comment: TokenView,
    after: Seq<TokenView>,
)
    requires
        comment is Comment,
    ensures
        without_comments(before + seq![comment] + after) == without_comments(before + after),
        build_tree(without_comments(before + seq![comment] + after)) == build_tree(
            without_comments(before + after),
        ),
{
    lemma_without_comments_concat(before + seq![comment], after);
    lemma_without_comments_concat(before, seq![comment]);
    lemma_without_comments_concat(before, after);
    assert(without_comments(seq![comment]) =~= Seq::<TokenView>::empty()) by {
        reveal_with_fuel(without_comments, 2);
        assert(seq![comment].drop_last() =~= Seq::<TokenView>::empty());
    }
    assert(without_comments(before) + Seq::<TokenView>::empty() =~= without_comments(before));
}

/// A run continued: the characters from `from` up to `to`, met after a run
/// that ended as `first` did.
pub open spec fn lex_continue(
    first: Result<Lexed, ParseError>,
    text: Seq<char>,
    from: int,
    to: int,
) -> Result<Lexed, ParseError> {
    match first {
        Ok(done) => match lex_range(done.cursor, text, from, to) {
            Ok(more) => Ok(Lexed { cursor: more.cursor, tokens: done.tokens + more.tokens }),
            Err(e) => Err(e),
        },
        Err(e) => Err(e),
    }
}

/// A run over a stretch of text is a run over its first part, continued over
/// the rest.
pub(crate) proof fn lemma_lex_range_split(cur: Cursor, text: Seq<char>, from: int, mid: int, to: int)
    requires
        from <= mid <= to,
    ensures
        lex_range(cur, text, from, to) == lex_continue(
            lex_range(cur, text, from, mid),
            text,
            mid,
            to,
        ),
    decreases to - mid,
{
    let first = lex_range(cur, text, from, mid);
    if mid == to {
        if let Ok(done) = first {
            assert(done.tokens + Seq::<TokenView>::empty() =~= done.tokens);
        }
    } else {
        lemma_lex_range_split(cur, text, from, mid, to - 1);
        if let Ok(done) = first {
            if let Ok(more) = lex_range(done.cursor, text, mid, to - 1) {
                if let Ok(step) = lex_step(more.cursor, text[to - 1], to - 1) {
                    assert((done.tokens + more.tokens) + step.tokens =~= done.tokens + (more.tokens
                        + step.tokens));
                }
            }
        }
    }
}

/// A run depends on no character outside the stretch that it covers.
pub(crate) proof fn lemma_lex_range_local(
    cur: Cursor,
    text: Seq<char>,
    other: Seq<char>,
    from: int,
    to: int,
)
    requires
        forall|i: int| from <= i < to ==> text[i] == other[i],
    ensures
        lex_range(cur, text, from, to) == lex_range(cur, other, from, to),
    decreases to - from,
{
    if from < to {
        lemma_lex_range_local(cur, text, other, from, to - 1);
    }
}

/// The text with every character from `from` up to `to` replaced by a space.
pub open spec fn blank_out(text: Seq<char>, from: int, to: int) -> Seq<char> {
    Seq::new(
        text.len(),
        |i: int|
            if from <= i < to {
                ' '
            } else {
                text[i]
            },
    )
}

/// Whether a comment stands in `text` from `from` up to `to`: two slashes,
/// then no newline before `to`, where the line or the text ends.
pub open spec fn is_comment_at(text: Seq<char>, from: int, to: int) -> bool {
    &&& 0 <= from
    &&& from + 2 <= to <= text.len()
    &&& text[from] == '/'
    &&& text[from + 1] == '/'
    &&& forall|i: int| from <= i < to ==> text[i] != '\n'
    &&& to < text.len() ==> text[to] == '\n'
}

/// Whether no token is under way after the first `n` characters of `text`.
pub open spec fn is_idle_at(text: Seq<char>, n: int) -> bool {
    lex_range(start_cursor(), text, 0, n) matches Ok(done) && done.cursor.pending is Idle
}

/// Spaces met while nothing is pending make no token and leave nothing
/// pending.
proof fn lemma_blanks_run(cur: Cursor, text: Seq<char>, from: int, to: int)
    requires
        from <= to,
        cur.pending is Idle,
        forall|i: int| from <= i < to ==> text[i] == ' ',
    ensures
        lex_range(cur, text, from, to) == Ok::<Lexed, ParseError>(
            Lexed {
                cursor: Cursor {
                    pending: Pending::Idle,
                    line: cur.line,
                    column: cur.column + (to - from),
                },
                tokens: Seq::empty(),
            },
        ),
    decreases to - from,
{
    if from < to {
        lemma_blanks_run(cur, text, from, to - 1);
        let done = lex_range(cur, text, from, to - 1)->Ok_0;
        let here = position_at(done.cursor.line, done.cursor.column, to - 1);
        assert(lex_idle(' ', here) == (Pending::Idle, Seq::<TokenView>::empty()));
        assert(done.tokens + Seq::<TokenView>::empty() =~= done.tokens);
    }
}

/// A comment met while nothing is pending makes no token before its line
/// ends, and is what is pending from its second slash on.
proof fn lemma_comment_run(cur: Cursor, text: Seq<char>, from: int, to: int)
    requires
        from + 2 <= to,
        cur.pending is Idle,
        text[from] == '/',
        text[from + 1] == '/',
        forall|i: int| from <= i < to ==> text[i] != '\n',
    ensures
        lex_range(cur, text, from, to) matches Ok(done) && {
            &&& done.cursor.pending is Comment
            &&& done.cursor.line == cur.line
            &&& done.cursor.column == cur.column + (to - from)
            &&& done.tokens == Seq::<TokenView>::empty()
        },
    decreases to - from,
{
    if from + 2 == to {
        assert(lex_range(cur, text, from, from) == Ok::<Lexed, ParseError>(
            Lexed { cursor: cur, tokens: Seq::empty() },
        ));
        let first = lex_range(cur, text, from, from + 1)->Ok_0;
        assert(first.cursor.pending is Slash);
        assert(first.tokens =~= Seq::<TokenView>::empty());
        let second = lex_range(cur, text, from, from + 2)->Ok_0;
        assert(second.tokens =~= Seq::<TokenView>::empty());
    } else {
        lemma_comment_run(cur, text, from, to - 1);
        let done = lex_range(cur, text, from, to - 1)->Ok_0;
        assert(done.tokens + Seq::<TokenView>::empty() =~= done.tokens);
    }
}

/// Whether two runs of the tokenizer came out alike: both failed in the same
/// way, or both made the same tokens, comments apart.
pub open spec fn alike(a: Result<Seq<TokenView>, ParseError>, b: Result<Seq<TokenView>, ParseError>) -> bool {
    match (a, b) {
        (Ok(x), Ok(y)) => without_comments(x) == without_comments(y),
        (Err(e), Err(f)) => e == f,
        _ => false,
    }
}

/// A comment that stands where no token is under way may be blanked out:
/// with each of its characters replaced by a space, the text has the same
/// tokens but for the comment, fails where it failed before, and stands for
/// the same tree.
#[verifier::rlimit(40)]
pub proof fn lemma_blank_comment(text: Seq<char>, from: int, to: int)
    requires
        is_comment_at(text, from, to),
        is_idle_at(text, from),
    ensures
        alike(tokenize_spec(blank_out(text, from, to)), tokenize_spec(text)),
        document_tree(blank_out(text, from, to)) == document_tree(text),
{
    let blank = blank_out(text, from, to);
    let len = text.len() as int;
    let start = start_cursor();
    let head = lex_range(start, text, 0, from)->Ok_0;
    lemma_lex_range_local(start, text, blank, 0, from);
    lemma_comment_run(head.cursor, text, from, to);
    lemma_blanks_run(head.cursor, blank, from, to);
    let noted = lex_range(head.cursor, text, from, to)->Ok_0;
    let blanked = lex_range(head.cursor, blank, from, to)->Ok_0;
    if to == len {
        lemma_lex_range_split(start, text, 0, from, len);
        lemma_lex_range_split(start, blank, 0, from, len);
        assert(tokenize_spec(text) == Ok::<Seq<TokenView>, ParseError>(head.tokens + noted.tokens));
        assert(tokenize_spec(blank) == Ok::<Seq<TokenView>, ParseError>(
            head.tokens + blanked.tokens,
        ));
    } else {
        // The newline ends the comment in the one text and does nothing in
        // the other; behind it the two cursors are the same.
        let comment = lex_step(noted.cursor, text[to], to)->Ok_0;
        let nothing = lex_step(blanked.cursor, blank[to], to)->Ok_0;
        assert(comment.cursor == nothing.cursor);
        assert(nothing.tokens == Seq::<TokenView>::empty());
        assert(comment.tokens.len() == 1 && comment.tokens[0] is Comment);
        let noted_line = lex_range(head.cursor, text, from, to + 1)->Ok_0;
        let blank_line = lex_range(head.cursor, blank, from, to + 1)->Ok_0;
        assert(noted_line.tokens =~= comment.tokens);
        assert(blank_line.tokens =~= Seq::<TokenView>::empty());
        assert(noted_line.cursor == blank_line.cursor);
        lemma_lex_range_split(start, text, 0, from, to + 1);
        lemma_lex_range_split(start, blank, 0, from, to + 1);
        lemma_lex_range_split(start, text, 0, to + 1, len);
        lemma_lex_range_split(start, blank, 0, to + 1, len);
        lemma_lex_range_local(noted_line.cursor, text, blank, to + 1, len);
        let noted_front = lex_range(start, text, 0, to + 1)->Ok_0;
        let blank_front = lex_range(start, blank, 0, to + 1)->Ok_0;
        assert(noted_front.tokens == head.tokens + comment.tokens);
        assert(blank_front.tokens =~= head.tokens);
        assert(noted_front.cursor == blank_front.cursor);
        if let Ok(tail) = lex_range(noted_front.cursor, text, to + 1, len) {
            assert(comment.tokens =~= seq![comment.tokens[0]]);
            lemma_comment_token_leaves_tree(head.tokens, comment.tokens[0], tail.tokens);
            assert(tokenize_spec(text) == Ok::<Seq<TokenView>, ParseError>(
                head.tokens + comment.tokens + tail.tokens,
            ));
            assert(tokenize_spec(blank) == Ok::<Seq<TokenView>, ParseError>(
                head.tokens + tail.tokens,
            ));
        }
    }
}

/// Whether `comment` is a comment that may stand in front of `after`: two
/// slashes, then no newline before its last character, which is the newline
/// that ends its line. At the end of a text the newline may be missing.
pub open spec fn is_comment_before(comment: Seq<char>, after: Seq<char>) -> bool {
    &&& comment.len() >= 2
    &&& comment[0] == '/'
    &&& comment[1] == '/'
    &&& forall|i: int| 0 <= i < comment.len() - 1 ==> comment[i] != '\n'
    &&& comment.last() == '\n' || after.len() == 0
}

/// Whether two documents mean the same: both fail in the same way, or both
/// stand for trees that are alike but for their ranges and that answer the
/// query for `path` alike.
pub open spec fn same_answers(
    a: Result<TreeView, ParseError>,
    b: Result<TreeView, ParseError>,
    path: Seq<PathView>,
) -> bool {
    match (a, b) {
        (Ok(x), Ok(y)) => {
            &&& same_tree(x, y)
            &&& x.resolve(path) == y.resolve(path)
            &&& x.owned_keys_of_each(x.resolve(path)) == y.owned_keys_of_each(y.resolve(path))
        },
        (Err(e), Err(f)) => e == f,
        _ => false,
    }
}

/// Tokens are alike themselves.
proof fn lemma_same_tokens_self(tokens: Seq<TokenView>)
    ensures
        same_tokens(tokens, tokens),
{
}

/// A comment that is put into a text where no token is under way, or taken
/// out of it, changes nothing but ranges: the text fails as before, or its
/// tree has the same entries and key records but for their ranges, and every
/// path leads to the entries and key records at the same indices as before.
#[verifier::rlimit(40)]
pub proof fn lemma_comment_changes_ranges_only(
    before: Seq<char>,
    comment: Seq<char>,
    after: Seq<char>,
    path: Seq<PathView>,
)
    requires
        is_comment_before(comment, after),
        is_idle_at(before, before.len() as int),
    ensures
        same_meaning(document_tree(before + comment + after), document_tree(before + after)),
        same_answers(document_tree(before + comment + after), document_tree(before + after), path),
{
    let plain = before + after;
    let noted = before + comment + after;
    let n = before.len() as int;
    let m = comment.len() as int;
    let k = after.len() as int;
    let start = start_cursor();
    let head = lex_range(start, before, 0, n)->Ok_0;
    lemma_lex_range_local(start, before, plain, 0, n);
    lemma_lex_range_local(start, before, noted, 0, n);
    lemma_lex_range_split(start, plain, 0, n, n + k);
    lemma_lex_range_split(start, noted, 0, n, n + m + k);
    assert(noted[n] == comment[0]);
    assert(noted[n + 1] == comment[1]);
    let to = if comment.last() == '\n' {
        n + m - 1
    } else {
        n + m
    };
    assert forall|i: int| n <= i < to implies noted[i] != '\n' by {
        assert(noted[i] == comment[i - n]);
    }
    if comment.last() == '\n' {
        assert(noted[to] == comment[m - 1]);
        lemma_comment_run(head.cursor, noted, n, to);
        let run = lex_range(head.cursor, noted, n, to)->Ok_0;
        let line = lex_range(head.cursor, noted, n, n + m)->Ok_0;
        let made = lex_step(run.cursor, noted[to], to)->Ok_0;
        assert(line.tokens =~= made.tokens);
        assert(made.tokens.len() == 1 && made.tokens[0] is Comment);
        assert(made.tokens =~= seq![made.tokens[0]]);
        lemma_lex_range_split(head.cursor, noted, n, n + m, n + m + k);
        assert(noted.subrange(n + m, n + m + k) =~= after);
        assert(plain.subrange(n, n + k) =~= after);
        lemma_lex_range_alike(line.cursor, noted, n + m, head.cursor, plain, n, k);
        if let Ok(tail) = lex_range(line.cursor, noted, n + m, n + m + k) {
            let other = lex_range(head.cursor, plain, n, n + k)->Ok_0;
            let noted_tokens = head.tokens + (made.tokens + tail.tokens);
            assert(tokenize_spec(noted) == Ok::<Seq<TokenView>, ParseError>(noted_tokens));
            assert(tokenize_spec(plain) == Ok::<Seq<TokenView>, ParseError>(
                head.tokens + other.tokens,
            ));
            assert(noted_tokens =~= head.tokens + seq![made.tokens[0]] + tail.tokens);
            lemma_comment_token_leaves_tree(head.tokens, made.tokens[0], tail.tokens);
            lemma_same_tokens_self(head.tokens);
            lemma_same_tokens_concat(head.tokens, head.tokens, tail.tokens, other.tokens);
            lemma_same_tokens_without_comments(
                head.tokens + tail.tokens,
                head.tokens + other.tokens,
            );
            lemma_build_tree_alike(
                without_comments(head.tokens + tail.tokens),
                without_comments(head.tokens + other.tokens),
            );
        }
    } else {
        assert(noted =~= before + comment);
        assert(plain =~= before);
        lemma_comment_run(head.cursor, noted, n, to);
        let run = lex_range(head.cursor, noted, n, to)->Ok_0;
        assert(head.tokens + run.tokens =~= head.tokens);
        assert(tokenize_spec(noted) == Ok::<Seq<TokenView>, ParseError>(head.tokens));
        assert(tokenize_spec(plain) == Ok::<Seq<TokenView>, ParseError>(head.tokens));
        lemma_same_tokens_self(without_comments(head.tokens));
        lemma_build_tree_alike(without_comments(head.tokens), without_comments(head.tokens));
    }
    if let Ok(x) = document_tree(noted) {
        if let Ok(y) = document_tree(plain) {
            lemma_same_tree_same_answers(x, y, path);
        }
    }
}

} // verus!
