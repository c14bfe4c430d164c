//! The ConfigNode text format, as functions on a sequence of characters.
//!
//! A text is a node body: entries, one after another. An entry is an identifier followed
//! by `=` and a text value that runs to the end of the line, or by `{`, a node body and
//! `}`. Two slashes start a comment that runs to the end of the line.
//!
//! A position is an index into the text. Every function that reads something says where
//! the cursor stands afterwards.

use crate::error::ParseErrorKind;
use crate::node::{NodeView, ValueView};
use vstd::prelude::*;

verus! {

/// ASCII whitespace: space, tab, line feed, form feed and carriage return.
pub open spec fn is_whitespace(c: char) -> bool {
    c == ' ' || c == '\t' || c == '\n' || c == '\x0C' || c == '\r'
}

/// The first position at or after `i` that holds no whitespace; the end of the text if
/// there is none.
pub open spec fn skip_whitespace(s: Seq<char>, i: int) -> int
    decreases s.len() - i,
{
    if 0 <= i < s.len() && is_whitespace(s[i]) {
        skip_whitespace(s, i + 1)
    } else {
        i
    }
}

/// The position of the first line feed at or after `i`; the end of the text if there is
/// none.
pub open spec fn skip_line(s: Seq<char>, i: int) -> int
    decreases s.len() - i,
{
    if 0 <= i < s.len() && s[i] != '\n' {
        skip_line(s, i + 1)
    } else {
        i
    }
}

/// Whether a comment starts at `i`: two slashes in a row.
pub open spec fn comment_at(s: Seq<char>, i: int) -> bool {
    0 <= i && i + 1 < s.len() && s[i] == '/' && s[i + 1] == '/'
}

/// Where the cursor stands once a token has stopped at `i`: a comment that starts there
/// is passed over, up to the line feed that ends it.
pub open spec fn after_comment(s: Seq<char>, i: int) -> int {
    if comment_at(s, i) {
        skip_line(s, i)
    } else {
        i
    }
}

/// The text without its leading whitespace
pub open spec fn trim_start(s: Seq<char>) -> Seq<char>
    decreases s.len(),
{
    if s.len() > 0 && is_whitespace(s.first()) {
        trim_start(s.drop_first())
    } else {
        s
    }
}

/// The text without its trailing whitespace
pub open spec fn trim_end(s: Seq<char>) -> Seq<char>
    decreases s.len(),
{
    if s.len() > 0 && is_whitespace(s.last()) {
        trim_end(s.drop_last())
    } else {
        s
    }
}

/// The text without its leading and trailing whitespace
pub open spec fn trim(s: Seq<char>) -> Seq<char> {
    trim_end(trim_start(s))
}

/// Whether the character ends an identifier and is left for the next step
pub open spec fn ends_identifier(c: char) -> bool {
    c == '{' || c == '=' || c == '\n' || c == '\r'
}

/// Whether the scan of an identifier goes on past `i`: the character there does not end
/// an identifier, is no closing brace and starts no comment.
pub open spec fn in_identifier(s: Seq<char>, i: int) -> bool {
    0 <= i < s.len() && !ends_identifier(s[i]) && s[i] != '}' && !comment_at(s, i)
}

/// Where the scan of an identifier that starts at `i` stops: at the end of the text, at
/// a character that ends an identifier, at a closing brace or at a comment.
pub open spec fn identifier_end(s: Seq<char>, i: int) -> int
    decreases s.len() - i,
{
    if in_identifier(s, i) {
        identifier_end(s, i + 1)
    } else {
        i
    }
}

/// The identifier that starts at `i`, trimmed, and the position after it.
///
/// The text must not end before the identifier does, and a closing brace has no place
/// in it.
pub open spec fn identifier(s: Seq<char>, i: int) -> Result<(Seq<char>, int), ParseErrorKind> {
    let end = identifier_end(s, i);
    if end >= s.len() {
        Err(ParseErrorKind::UnexpectedEof)
    } else if s[end] == '}' {
        Err(ParseErrorKind::InvalidCharacter)
    } else {
        Ok((trim(s.subrange(i, end)), after_comment(s, end)))
    }
}

/// Whether the scan of a text value goes on past `i`: the character there does not end
/// the line and starts no comment.
pub open spec fn in_value(s: Seq<char>, i: int) -> bool {
    0 <= i < s.len() && s[i] != '\n' && s[i] != '\r' && !comment_at(s, i)
}

/// Where the scan of a text value that starts at `i` stops: at the end of the text, at
/// the end of the line or at a comment.
pub open spec fn value_end(s: Seq<char>, i: int) -> int
    decreases s.len() - i,
{
    if in_value(s, i) {
        value_end(s, i + 1)
    } else {
        i
    }
}

/// The text value that starts at `i`, trimmed, and the position after it.
pub open spec fn text_value(s: Seq<char>, i: int) -> (Seq<char>, int) {
    let end = value_end(s, i);
    (trim(s.subrange(i, end)), after_comment(s, end))
}

/// The identifier of the entry that starts at `i`, and the position after it.
///
/// A slash at `i` (which starts no comment here) is the first character of the
/// identifier, whatever follows it; the rest is read and trimmed on its own.
pub open spec fn key(s: Seq<char>, i: int) -> Result<(Seq<char>, int), ParseErrorKind> {
    if 0 <= i < s.len() && s[i] == '/' {
        match identifier(s, i + 1) {
            Ok((rest, end)) => Ok((seq!['/'] + rest, end)),
            Err(kind) => Err(kind),
        }
    } else {
        identifier(s, i)
    }
}

/// The node whose body starts at `i`, and the position at which the body ends: at the
/// closing brace that follows the last entry, or at the end of the text.
pub open spec fn node_body(s: Seq<char>, i: int) -> Result<(NodeView, int), ParseErrorKind>
    decreases s.len() - i, 1int,
    via node_body_decreases
{
    entries(s, skip_whitespace(s, i), Map::empty())
}

#[via_fn]
proof fn node_body_decreases(s: Seq<char>, i: int) {
    lemma_skip_whitespace_bounds(s, i);
}

/// The node that results from adding to `node` the entries that start at `i`, and the
/// position at which the body ends. Whitespace before `i` has been skipped.
///
/// The body ends at a closing brace or at the end of the text. A comment is passed
/// over. An entry is an identifier followed by `=` and a text value, or by `{`, a node
/// body and `}`; it replaces an earlier entry with the same identifier. The first error
/// is the outcome.
pub open spec fn entries(s: Seq<char>, i: int, node: NodeView) -> Result<
    (NodeView, int),
    ParseErrorKind,
>
    decreases s.len() - i, 0int,
    via entries_decreases
{
    if i < 0 || i >= s.len() || s[i] == '}' {
        Ok((node, i))
    } else if comment_at(s, i) {
        entries(s, skip_whitespace(s, skip_line(s, i)), node)
    } else {
        match key(s, i) {
            Err(kind) => Err(kind),
            Ok((name, after_key)) => {
                let open = skip_whitespace(s, after_key);
                if open >= s.len() {
                    Err(ParseErrorKind::UnexpectedEof)
                } else if s[open] == '{' {
                    match node_body(s, open + 1) {
                        Err(kind) => Err(kind),
                        Ok((child, after_body)) => {
                            let close = skip_whitespace(s, after_body);
                            if close >= s.len() {
                                Err(ParseErrorKind::UnexpectedEof)
                            } else if s[close] != '}' || close <= open {
                                // A body that was read ends beyond the opening brace, at
                                // a closing brace or at the end of the text
                                // (`lemma_node_body_end`), so neither condition holds. The
                                // second shows that the entries to come lie further on.
                                Err(ParseErrorKind::InvalidCharacter)
                            } else {
                                entries(
                                    s,
                                    skip_whitespace(s, close + 1),
                                    node.insert(name, ValueView::Node(child)),
                                )
                            }
                        },
                    }
                } else if s[open] == '=' {
                    let (text, after_value) = text_value(s, open + 1);
                    entries(
                        s,
                        skip_whitespace(s, after_value),
                        node.insert(name, ValueView::Text(text)),
                    )
                } else {
                    Err(ParseErrorKind::InvalidCharacter)
                }
            },
        }
    }
}

#[via_fn]
proof fn entries_decreases(s: Seq<char>, i: int, node: NodeView) {
    assert forall|j: int|
        j <= #[trigger] skip_whitespace(s, j) && (0 <= j <= s.len() ==> skip_whitespace(s, j)
            <= s.len()) by {
        lemma_skip_whitespace_bounds(s, j);
    }
    lemma_skip_line_bounds(s, i);
    lemma_key_bounds(s, i);
    if let Ok((_, after_key)) = key(s, i) {
        lemma_text_value_bounds(s, skip_whitespace(s, after_key) + 1);
    }
}

/// The tree that a text holds: the node whose body is the whole text.
///
/// No closing brace is asked for at the end of the text, and one that closes nothing
/// ends the tree where it stands.
pub open spec fn parsed(s: Seq<char>) -> Result<NodeView, ParseErrorKind> {
    match node_body(s, 0) {
        Ok((node, _)) => Ok(node),
        Err(kind) => Err(kind),
    }
}

/// Skipping whitespace moves the cursor forward, within the text, to a character that is
/// no whitespace or to the end.
pub proof fn lemma_skip_whitespace_bounds(s: Seq<char>, i: int)
    ensures
        i <= skip_whitespace(s, i),
        0 <= i <= s.len() ==> skip_whitespace(s, i) <= s.len(),
        0 <= i ==> (skip_whitespace(s, i) >= s.len() || !is_whitespace(
            s[skip_whitespace(s, i)],
        )),
    decreases s.len() - i,
{
    if 0 <= i < s.len() && is_whitespace(s[i]) {
        lemma_skip_whitespace_bounds(s, i + 1);
    }
}

/// Skipping a line moves the cursor forward, within the text, to a line feed or to the
/// end.
pub proof fn lemma_skip_line_bounds(s: Seq<char>, i: int)
    ensures
        i <= skip_line(s, i),
        0 <= i <= s.len() ==> skip_line(s, i) <= s.len(),
        0 <= i < s.len() && s[i] != '\n' ==> i < skip_line(s, i),
        0 <= i ==> (skip_line(s, i) >= s.len() || s[skip_line(s, i)] == '\n'),
    decreases s.len() - i,
{
    if 0 <= i < s.len() && s[i] != '\n' {
        lemma_skip_line_bounds(s, i + 1);
    }
}

/// The scan of an identifier stops at or after its start, within the text, where it
/// cannot go on.
pub proof fn lemma_identifier_end_bounds(s: Seq<char>, i: int)
    ensures
        i <= identifier_end(s, i),
        0 <= i <= s.len() ==> identifier_end(s, i) <= s.len(),
        !in_identifier(s, identifier_end(s, i)),
    decreases s.len() - i,
{
    if in_identifier(s, i) {
        lemma_identifier_end_bounds(s, i + 1);
    }
}

/// The scan of a text value stops at or after its start, within the text, where it
/// cannot go on.
pub proof fn lemma_value_end_bounds(s: Seq<char>, i: int)
    ensures
        i <= value_end(s, i),
        0 <= i <= s.len() ==> value_end(s, i) <= s.len(),
        !in_value(s, value_end(s, i)),
    decreases s.len() - i,
{
    if in_value(s, i) {
        lemma_value_end_bounds(s, i + 1);
    }
}

/// The cursor stands at or after the start of a text value once it is read, within the
/// text.
pub proof fn lemma_text_value_bounds(s: Seq<char>, i: int)
    ensures
        i <= text_value(s, i).1,
        0 <= i <= s.len() ==> text_value(s, i).1 <= s.len(),
{
    lemma_value_end_bounds(s, i);
    lemma_skip_line_bounds(s, value_end(s, i));
}

/// The cursor stands at or after the start of an identifier once it is read, within the
/// text.
pub proof fn lemma_key_bounds(s: Seq<char>, i: int)
    ensures
        key(s, i) matches Ok((_, end)) ==> i <= end && (0 <= i ==> end <= s.len()),
{
    lemma_identifier_end_bounds(s, i);
    lemma_identifier_end_bounds(s, i + 1);
    lemma_skip_line_bounds(s, identifier_end(s, i));
    lemma_skip_line_bounds(s, identifier_end(s, i + 1));
}

/// What `skip_whitespace` returns is the first position that holds no whitespace.
pub proof fn lemma_skip_whitespace_is(s: Seq<char>, i: int, end: int)
    requires
        0 <= i <= end <= s.len(),
        forall|k: int| i <= k < end ==> is_whitespace(s[k]),
        end == s.len() || !is_whitespace(s[end]),
    ensures
        skip_whitespace(s, i) == end,
    decreases end - i,
{
    if i < end {
        lemma_skip_whitespace_is(s, i + 1, end);
    }
}

/// Whitespace before the cursor makes no difference to where skipping whitespace ends.
pub proof fn lemma_skip_whitespace_through(s: Seq<char>, i: int, j: int)
    requires
        0 <= i <= j <= s.len(),
        forall|k: int| i <= k < j ==> is_whitespace(s[k]),
    ensures
        skip_whitespace(s, i) == skip_whitespace(s, j),
    decreases j - i,
{
    if i < j {
        lemma_skip_whitespace_through(s, i + 1, j);
    }
}

/// What `skip_line` returns is the position of the first line feed.
pub proof fn lemma_skip_line_is(s: Seq<char>, i: int, end: int)
    requires
        0 <= i <= end <= s.len(),
        forall|k: int| i <= k < end ==> s[k] != '\n',
        end == s.len() || s[end] == '\n',
    ensures
        skip_line(s, i) == end,
    decreases end - i,
{
    if i < end {
        lemma_skip_line_is(s, i + 1, end);
    }
}

/// What `identifier_end` returns is the first position past which the scan of an
/// identifier does not go.
pub proof fn lemma_identifier_end_is(s: Seq<char>, i: int, end: int)
    requires
        0 <= i <= end <= s.len(),
        forall|k: int| i <= k < end ==> in_identifier(s, k),
        !in_identifier(s, end),
    ensures
        identifier_end(s, i) == end,
    decreases end - i,
{
    if i < end {
        lemma_identifier_end_is(s, i + 1, end);
    }
}

/// What `value_end` returns is the first position past which the scan of a text value
/// does not go.
pub proof fn lemma_value_end_is(s: Seq<char>, i: int, end: int)
    requires
        0 <= i <= end <= s.len(),
        forall|k: int| i <= k < end ==> in_value(s, k),
        !in_value(s, end),
    ensures
        value_end(s, i) == end,
    decreases end - i,
{
    if i < end {
        lemma_value_end_is(s, i + 1, end);
    }
}

/// What `trim` returns is the part of the text between its first and its last character
/// that is no whitespace; of a text that holds only whitespace, nothing.
pub proof fn lemma_trim_is(s: Seq<char>, first: int, last: int)
    requires
        0 <= first <= last <= s.len(),
        forall|k: int| 0 <= k < first ==> is_whitespace(s[k]),
        forall|k: int| last <= k < s.len() ==> is_whitespace(s[k]),
        first == last || (!is_whitespace(s[first]) && !is_whitespace(s[last - 1])),
    ensures
        trim(s) == s.subrange(first, last),
{
    if first == last {
        lemma_trim_start_is(s, s.len() as int);
        assert(s.subrange(s.len() as int, s.len() as int) =~= s.subrange(first, last));
    } else {
        lemma_trim_start_is(s, first);
        lemma_trim_end_is(s.subrange(first, s.len() as int), last - first);
        assert(s.subrange(first, s.len() as int).subrange(0, last - first) =~= s.subrange(
            first,
            last,
        ));
    }
}

/// What `trim_start` returns is the text from its first character on that is no
/// whitespace.
pub proof fn lemma_trim_start_is(s: Seq<char>, first: int)
    requires
        0 <= first <= s.len(),
        forall|k: int| 0 <= k < first ==> is_whitespace(s[k]),
        first == s.len() || !is_whitespace(s[first]),
    ensures
        trim_start(s) == s.subrange(first, s.len() as int),
    decreases first,
{
    if first > 0 {
        lemma_trim_start_is(s.drop_first(), first - 1);
        assert(s.drop_first().subrange(first - 1, s.len() - 1) =~= s.subrange(
            first,
            s.len() as int,
        ));
    } else {
        assert(s.subrange(0, s.len() as int) =~= s);
    }
}

/// What `trim_end` returns is the text up to its last character that is no whitespace.
pub proof fn lemma_trim_end_is(s: Seq<char>, last: int)
    requires
        0 <= last <= s.len(),
        forall|k: int| last <= k < s.len() ==> is_whitespace(s[k]),
        last == 0 || !is_whitespace(s[last - 1]),
    ensures
        trim_end(s) == s.subrange(0, last),
    decreases s.len() - last,
{
    if last < s.len() {
        lemma_trim_end_is(s.drop_last(), last);
        assert(s.drop_last().subrange(0, last) =~= s.subrange(0, last));
    } else {
        assert(s.subrange(0, s.len() as int) =~= s);
    }
}

/// A body that was read ends at or after the position where it starts, at a closing
/// brace or at the end of the text.
pub proof fn lemma_node_body_end(s: Seq<char>, i: int)
    requires
        0 <= i <= s.len(),
    ensures
        node_body(s, i) matches Ok((_, end)) ==> i <= end <= s.len() && (end == s.len() || s[end]
            == '}'),
{
    lemma_skip_whitespace_bounds(s, i);
    lemma_entries_end(s, skip_whitespace(s, i), Map::empty());
}

/// The entries of a body end at or after the position where they start, at a closing
/// brace or at the end of the text.
pub proof fn lemma_entries_end(s: Seq<char>, i: int, node: NodeView)
    requires
        0 <= i <= s.len(),
    ensures
        entries(s, i, node) matches Ok((_, end)) ==> i <= end <= s.len() && (end == s.len()
            || s[end] == '}'),
    decreases s.len() - i,
{
    if i >= s.len() || s[i] == '}' {
    } else if comment_at(s, i) {
        lemma_skip_line_bounds(s, i);
        lemma_skip_whitespace_bounds(s, skip_line(s, i));
        lemma_entries_end(s, skip_whitespace(s, skip_line(s, i)), node);
    } else if let Ok((name, after_key)) = key(s, i) {
        let open = skip_whitespace(s, after_key);
        lemma_key_bounds(s, i);
        lemma_skip_whitespace_bounds(s, after_key);
        if open >= s.len() {
        } else if s[open] == '{' {
            if let Ok((child, after_body)) = node_body(s, open + 1) {
                let close = skip_whitespace(s, after_body);
                if close < s.len() && s[close] == '}' && close > open {
                    lemma_skip_whitespace_bounds(s, close + 1);
                    lemma_entries_end(
                        s,
                        skip_whitespace(s, close + 1),
                        node.insert(name, ValueView::Node(child)),
                    );
                }
            }
        } else if s[open] == '=' {
            let (text, after_value) = text_value(s, open + 1);
            lemma_text_value_bounds(s, open + 1);
            lemma_skip_whitespace_bounds(s, after_value);
            lemma_entries_end(
                s,
                skip_whitespace(s, after_value),
                node.insert(name, ValueView::Text(text)),
            );
        }
    }
}

} // verus!
