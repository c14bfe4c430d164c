//! What holds of every text: facts about the format that follow from its definition.
//!
//! `entries(s, i, node)` is the outcome of reading a body from position `i` on, with `node`
//! holding what the entries before `i` gave. A fact stated of it holds wherever in a text,
//! and however deep in the tree, an entry stands.

use crate::error::ParseErrorKind;
use crate::grammar::{
    comment_at, entries, identifier, identifier_end, in_identifier, in_value, is_whitespace, key,
    lemma_identifier_end_bounds, lemma_identifier_end_is, lemma_key_bounds,
    lemma_node_body_end, lemma_skip_line_bounds, lemma_skip_whitespace_bounds,
    lemma_skip_whitespace_is, lemma_skip_whitespace_through, lemma_text_value_bounds,
    lemma_value_end_bounds, lemma_value_end_is, node_body, parsed, skip_line, skip_whitespace,
    text_value, trim, value_end,
};
use crate::node::{NodeView, ValueView};
use vstd::prelude::*;

verus! {

/// A text that holds nothing, or nothing but whitespace, is a node without children.
pub proof fn theorem_blank_text(s: Seq<char>)
    requires
        forall|i: int| 0 <= i < s.len() ==> is_whitespace(s[i]),
    ensures
        parsed(s) == Ok::<NodeView, ParseErrorKind>(Map::empty()),
{
    lemma_skip_whitespace_is(s, 0, s.len() as int);
}

/// A text holds what its entries give to an empty node, from the first character on that
/// is no whitespace.
pub proof fn theorem_text_is_its_entries(s: Seq<char>, i: int)
    requires
        0 <= i <= s.len(),
        forall|k: int| 0 <= k < i ==> is_whitespace(s[k]),
        i == s.len() || !is_whitespace(s[i]),
    ensures
        parsed(s) == match entries(s, i, Map::empty()) {
            Ok((node, _)) => Ok::<NodeView, ParseErrorKind>(node),
            Err(kind) => Err(kind),
        },
{
    lemma_skip_whitespace_is(s, 0, i);
}

/// A closing brace that closes nothing ends the tree: where the body of the whole text
/// ends before the text does, a closing brace stands there, and the tree is what was
/// read up to it.
pub proof fn theorem_stray_closing_brace(s: Seq<char>, node: NodeView, end: int)
    requires
        node_body(s, 0) == Ok::<(NodeView, int), ParseErrorKind>((node, end)),
        end < s.len(),
    ensures
        0 <= end,
        s[end] == '}',
        parsed(s) == Ok::<NodeView, ParseErrorKind>(node),
{
    lemma_node_body_end(s, 0);
}

/// The outcome of reading a body, with the position counted from `n` places further on.
pub open spec fn moved(outcome: Result<(NodeView, int), ParseErrorKind>, n: int) -> Result<
    (NodeView, int),
    ParseErrorKind,
> {
    match outcome {
        Ok((node, end)) => Ok((node, end - n)),
        Err(kind) => Err(kind),
    }
}

/// A body is read as if the text began where the body begins: what stands before it
/// counts for nothing. So a nested node holds what the text after its opening brace
/// holds as a text of its own.
pub proof fn theorem_body_of_suffix(s: Seq<char>, n: int)
    requires
        0 <= n <= s.len(),
    ensures
        node_body(s.skip(n), 0) == moved(node_body(s, n), n),
        parsed(s.skip(n)) == match node_body(s, n) {
            Ok((node, _)) => Ok::<NodeView, ParseErrorKind>(node),
            Err(kind) => Err(kind),
        },
{
    lemma_skip_whitespace_suffix(s, n, 0);
    lemma_skip_whitespace_bounds(s.skip(n), 0);
    lemma_entries_suffix(s, n, skip_whitespace(s.skip(n), 0), Map::empty());
}

/// Whitespace before the first entry of a text counts for nothing.
pub proof fn theorem_text_after_whitespace(s: Seq<char>, i: int)
    requires
        0 <= i <= s.len(),
        forall|k: int| 0 <= k < i ==> is_whitespace(s[k]),
    ensures
        parsed(s) == parsed(s.skip(i)),
{
    lemma_skip_whitespace_through(s, 0, i);
    theorem_body_of_suffix(s, i);
}

/// A comment before the first entry of a text counts for nothing: the tree is that of
/// the text which follows the comment's line.
pub proof fn theorem_text_after_comment(s: Seq<char>, i: int)
    requires
        0 <= i < s.len(),
        forall|k: int| 0 <= k < i ==> is_whitespace(s[k]),
        comment_at(s, i),
    ensures
        parsed(s) == parsed(s.skip(skip_line(s, i))),
{
    lemma_skip_whitespace_is(s, 0, i);
    lemma_skip_line_bounds(s, i);
    theorem_body_of_suffix(s, skip_line(s, i));
}

/// A comment where an entry could start is passed over, up to the end of its line: the
/// outcome is that of the entries which follow it.
pub proof fn theorem_comment_between_entries(s: Seq<char>, i: int, node: NodeView)
    requires
        comment_at(s, i),
    ensures
        entries(s, i, node) == entries(s, skip_whitespace(s, skip_line(s, i)), node),
{
}

/// A comment ends a text value: the value is what stands before the comment, trimmed,
/// and the rest of the line is passed over.
pub proof fn theorem_comment_ends_value(s: Seq<char>, i: int, comment: int)
    requires
        0 <= i <= comment,
        forall|k: int| i <= k < comment ==> in_value(s, k),
        comment_at(s, comment),
    ensures
        text_value(s, i) == (trim(s.subrange(i, comment)), skip_line(s, comment)),
{
    lemma_value_end_is(s, i, comment);
}

/// A comment ends an identifier: the identifier is what stands before the comment,
/// trimmed, and the rest of the line is passed over.
pub proof fn theorem_comment_ends_identifier(s: Seq<char>, i: int, comment: int)
    requires
        0 <= i <= comment,
        forall|k: int| i <= k < comment ==> in_identifier(s, k),
        comment_at(s, comment),
    ensures
        identifier(s, i) == Ok::<(Seq<char>, int), ParseErrorKind>(
            (trim(s.subrange(i, comment)), skip_line(s, comment)),
        ),
{
    lemma_identifier_end_is(s, i, comment);
}

/// A slash that no second slash follows is a character like any other, in an identifier
/// and in a text value: the scan goes on past it.
pub proof fn theorem_single_slash_is_literal(s: Seq<char>, i: int)
    requires
        0 <= i < s.len(),
        s[i] == '/',
        !comment_at(s, i),
    ensures
        in_identifier(s, i),
        in_value(s, i),
        identifier_end(s, i) == identifier_end(s, i + 1),
        value_end(s, i) == value_end(s, i + 1),
{
}

/// Two slashes in a row end an identifier and a text value where they stand.
pub proof fn theorem_double_slash_ends_token(s: Seq<char>, i: int)
    requires
        comment_at(s, i),
    ensures
        identifier_end(s, i) == i,
        value_end(s, i) == i,
{
}

/// Every character but the two that end a line goes into a text value, and every one of
/// these but the braces and the equals sign goes into an identifier, unless a comment
/// starts with it.
pub proof fn theorem_other_characters_are_legal(s: Seq<char>, i: int)
    requires
        0 <= i < s.len(),
        !comment_at(s, i),
        s[i] != '\n',
        s[i] != '\r',
    ensures
        in_value(s, i),
        value_end(s, i) == value_end(s, i + 1),
        s[i] != '{' && s[i] != '}' && s[i] != '=' ==> in_identifier(s, i) && identifier_end(s, i)
            == identifier_end(s, i + 1),
{
}

/// What the entries of a body add to a node does not depend on what the node holds: an
/// identifier that the node holds already gets the value of the later entry, every
/// other identifier keeps its value, and the entries are refused or accepted as they
/// would be for a node that is empty.
pub proof fn theorem_later_entry_replaces(s: Seq<char>, i: int, node: NodeView)
    ensures
        match entries(s, i, Map::empty()) {
            Ok((added, end)) => entries(s, i, node) == Ok::<(NodeView, int), ParseErrorKind>(
                (node.union_prefer_right(added), end),
            ),
            Err(kind) => entries(s, i, node) == Err::<(NodeView, int), ParseErrorKind>(kind),
        },
    decreases s.len() - i,
{
    let empty = Map::<Seq<char>, ValueView>::empty();
    if i < 0 || i >= s.len() || s[i] == '}' {
        assert(node.union_prefer_right(empty) =~= node);
    } else if comment_at(s, i) {
        lemma_skip_line_bounds(s, i);
        lemma_skip_whitespace_bounds(s, skip_line(s, i));
        theorem_later_entry_replaces(s, skip_whitespace(s, skip_line(s, i)), node);
    } else if let Ok((name, after_key)) = key(s, i) {
        let open = skip_whitespace(s, after_key);
        lemma_key_bounds(s, i);
        lemma_skip_whitespace_bounds(s, after_key);
        if open >= s.len() {
        } else if s[open] == '{' {
            if let Ok((child, after_body)) = node_body(s, open + 1) {
                let close = skip_whitespace(s, after_body);
                if close < s.len() && s[close] == '}' && close > open {
                    let next = skip_whitespace(s, close + 1);
                    let value = ValueView::Node(child);
                    lemma_skip_whitespace_bounds(s, close + 1);
                    lemma_replace_step(s, next, node, name, value);
                    theorem_later_entry_replaces(s, next, node.insert(name, value));
                    theorem_later_entry_replaces(s, next, empty.insert(name, value));
                }
            }
        } else if s[open] == '=' {
            let (text, after_value) = text_value(s, open + 1);
            let next = skip_whitespace(s, after_value);
            let value = ValueView::Text(text);
            lemma_text_value_bounds(s, open + 1);
            lemma_skip_whitespace_bounds(s, after_value);
            lemma_replace_step(s, next, node, name, value);
            theorem_later_entry_replaces(s, next, node.insert(name, value));
            theorem_later_entry_replaces(s, next, empty.insert(name, value));
        }
    }
}

/// A nested node that the text ends in, with no closing brace after its body, is refused
/// as an unexpected end of the text.
pub proof fn theorem_unterminated_node(
    s: Seq<char>,
    i: int,
    node: NodeView,
    name: Seq<char>,
    after_key: int,
    child: NodeView,
    end: int,
)
    requires
        0 <= i < s.len(),
        s[i] != '}',
        !comment_at(s, i),
        key(s, i) == Ok::<(Seq<char>, int), ParseErrorKind>((name, after_key)),
        skip_whitespace(s, after_key) < s.len(),
        s[skip_whitespace(s, after_key)] == '{',
        node_body(s, skip_whitespace(s, after_key) + 1) == Ok::<(NodeView, int), ParseErrorKind>(
            (child, end),
        ),
        end >= s.len(),
    ensures
        entries(s, i, node) == Err::<(NodeView, int), ParseErrorKind>(
            ParseErrorKind::UnexpectedEof,
        ),
{
    lemma_skip_whitespace_bounds(s, end);
}

/// A nested node whose opening brace no closing brace follows is never accepted; where
/// its body holds no error of its own, it is refused as an unexpected end of the text.
pub proof fn theorem_node_without_closing_brace(
    s: Seq<char>,
    i: int,
    node: NodeView,
    name: Seq<char>,
    after_key: int,
)
    requires
        0 <= i < s.len(),
        s[i] != '}',
        !comment_at(s, i),
        key(s, i) == Ok::<(Seq<char>, int), ParseErrorKind>((name, after_key)),
        skip_whitespace(s, after_key) < s.len(),
        s[skip_whitespace(s, after_key)] == '{',
        forall|k: int| skip_whitespace(s, after_key) < k < s.len() ==> s[k] != '}',
    ensures
        entries(s, i, node) is Err,
        node_body(s, skip_whitespace(s, after_key) + 1) is Ok ==> entries(s, i, node) == Err::<
            (NodeView, int),
            ParseErrorKind,
        >(ParseErrorKind::UnexpectedEof),
{
    let open = skip_whitespace(s, after_key);
    lemma_key_bounds(s, i);
    lemma_skip_whitespace_bounds(s, after_key);
    lemma_node_body_end(s, open + 1);
    if let Ok((child, end)) = node_body(s, open + 1) {
        theorem_unterminated_node(s, i, node, name, after_key, child, end);
    }
}

/// Without a closing brace in the text there is no nested node: every child of a tree
/// that was read from such a text is a text value.
pub proof fn theorem_text_without_closing_brace(s: Seq<char>, node: NodeView, name: Seq<char>)
    requires
        forall|k: int| 0 <= k < s.len() ==> s[k] != '}',
        parsed(s) == Ok::<NodeView, ParseErrorKind>(node),
        node.contains_key(name),
    ensures
        node[name] is Text,
{
    lemma_skip_whitespace_bounds(s, 0);
    lemma_entries_without_closing_brace(s, skip_whitespace(s, 0), Map::empty(), name);
}

/// Without a closing brace in the text, the entries of a body give a node only text
/// values.
proof fn lemma_entries_without_closing_brace(
    s: Seq<char>,
    i: int,
    node: NodeView,
    name: Seq<char>,
)
    requires
        0 <= i <= s.len(),
        forall|k: int| 0 <= k < s.len() ==> s[k] != '}',
    ensures
        entries(s, i, node) matches Ok((read, _)) ==> (read.contains_key(name) ==> read[name]
            is Text || (node.contains_key(name) && read[name] == node[name])),
    decreases s.len() - i,
{
    if i >= s.len() {
    } else if comment_at(s, i) {
        lemma_skip_line_bounds(s, i);
        lemma_skip_whitespace_bounds(s, skip_line(s, i));
        lemma_entries_without_closing_brace(s, skip_whitespace(s, skip_line(s, i)), node, name);
    } else if let Ok((key_name, after_key)) = key(s, i) {
        let open = skip_whitespace(s, after_key);
        lemma_key_bounds(s, i);
        lemma_skip_whitespace_bounds(s, after_key);
        if open >= s.len() {
        } else if s[open] == '{' {
            theorem_node_without_closing_brace(s, i, node, key_name, after_key);
        } else if s[open] == '=' {
            let (text, after_value) = text_value(s, open + 1);
            lemma_text_value_bounds(s, open + 1);
            lemma_skip_whitespace_bounds(s, after_value);
            lemma_entries_without_closing_brace(
                s,
                skip_whitespace(s, after_value),
                node.insert(key_name, ValueView::Text(text)),
                name,
            );
        }
    }
}

/// An error in the body of a nested node is the outcome of the body that holds the
/// node: nothing is read after the first error.
pub proof fn theorem_error_in_nested_node(
    s: Seq<char>,
    i: int,
    node: NodeView,
    name: Seq<char>,
    after_key: int,
    kind: ParseErrorKind,
)
    requires
        0 <= i < s.len(),
        s[i] != '}',
        !comment_at(s, i),
        key(s, i) == Ok::<(Seq<char>, int), ParseErrorKind>((name, after_key)),
        skip_whitespace(s, after_key) < s.len(),
        s[skip_whitespace(s, after_key)] == '{',
        node_body(s, skip_whitespace(s, after_key) + 1) == Err::<(NodeView, int), ParseErrorKind>(
            kind,
        ),
    ensures
        entries(s, i, node) == Err::<(NodeView, int), ParseErrorKind>(kind),
{
}

/// A closing brace in an identifier is refused as an invalid character.
pub proof fn theorem_closing_brace_in_identifier(s: Seq<char>, i: int, brace: int)
    requires
        0 <= i <= brace < s.len(),
        forall|k: int| i <= k < brace ==> in_identifier(s, k),
        s[brace] == '}',
    ensures
        identifier(s, i) == Err::<(Seq<char>, int), ParseErrorKind>(
            ParseErrorKind::InvalidCharacter,
        ),
{
    lemma_identifier_end_is(s, i, brace);
}

/// An entry whose identifier holds a closing brace is refused as an invalid character.
/// The identifier begins at `i`, and the brace stands after its first character.
pub proof fn theorem_closing_brace_in_key(s: Seq<char>, i: int, brace: int, node: NodeView)
    requires
        0 <= i < brace < s.len(),
        forall|k: int| i <= k < brace ==> in_identifier(s, k),
        s[brace] == '}',
    ensures
        entries(s, i, node) == Err::<(NodeView, int), ParseErrorKind>(
            ParseErrorKind::InvalidCharacter,
        ),
{
    assert(in_identifier(s, i));
    lemma_identifier_end_is(s, i, brace);
    lemma_identifier_end_is(s, i + 1, brace);
}

/// After an identifier and the whitespace that follows it, a character that is neither
/// `{` nor `=` is refused as an invalid character.
pub proof fn theorem_invalid_character_after_key(
    s: Seq<char>,
    i: int,
    node: NodeView,
    name: Seq<char>,
    after_key: int,
)
    requires
        0 <= i < s.len(),
        s[i] != '}',
        !comment_at(s, i),
        key(s, i) == Ok::<(Seq<char>, int), ParseErrorKind>((name, after_key)),
        skip_whitespace(s, after_key) < s.len(),
        s[skip_whitespace(s, after_key)] != '{',
        s[skip_whitespace(s, after_key)] != '=',
    ensures
        entries(s, i, node) == Err::<(NodeView, int), ParseErrorKind>(
            ParseErrorKind::InvalidCharacter,
        ),
{
}

/// After an identifier and the whitespace that follows it, the end of the text is
/// refused as an unexpected end.
pub proof fn theorem_end_after_key(
    s: Seq<char>,
    i: int,
    node: NodeView,
    name: Seq<char>,
    after_key: int,
)
    requires
        0 <= i < s.len(),
        s[i] != '}',
        !comment_at(s, i),
        key(s, i) == Ok::<(Seq<char>, int), ParseErrorKind>((name, after_key)),
        skip_whitespace(s, after_key) >= s.len(),
    ensures
        entries(s, i, node) == Err::<(NodeView, int), ParseErrorKind>(
            ParseErrorKind::UnexpectedEof,
        ),
{
}

/// To add an entry to a node and then further entries is to add to the node the entry
/// followed by the further ones.
proof fn lemma_replace_step(s: Seq<char>, i: int, node: NodeView, name: Seq<char>, value: ValueView)
    ensures
        entries(s, i, Map::empty()) matches Ok((added, _)) ==> node.insert(
            name,
            value,
        ).union_prefer_right(added) == node.union_prefer_right(
            Map::<Seq<char>, ValueView>::empty().insert(name, value).union_prefer_right(added),
        ),
{
    if let Ok((added, _)) = entries(s, i, Map::empty()) {
        assert(node.insert(name, value).union_prefer_right(added) =~= node.union_prefer_right(
            Map::<Seq<char>, ValueView>::empty().insert(name, value).union_prefer_right(added),
        ));
    }
}

proof fn lemma_skip_whitespace_suffix(s: Seq<char>, n: int, i: int)
    requires
        0 <= n <= s.len(),
        0 <= i,
    ensures
        skip_whitespace(s, n + i) == n + skip_whitespace(s.skip(n), i),
    decreases s.len() - n - i,
{
    if n + i < s.len() && is_whitespace(s[n + i]) {
        lemma_skip_whitespace_suffix(s, n, i + 1);
    }
}

proof fn lemma_skip_line_suffix(s: Seq<char>, n: int, i: int)
    requires
        0 <= n <= s.len(),
        0 <= i,
    ensures
        skip_line(s, n + i) == n + skip_line(s.skip(n), i),
    decreases s.len() - n - i,
{
    if n + i < s.len() && s[n + i] != '\n' {
        lemma_skip_line_suffix(s, n, i + 1);
    }
}

proof fn lemma_identifier_end_suffix(s: Seq<char>, n: int, i: int)
    requires
        0 <= n <= s.len(),
        0 <= i,
    ensures
        identifier_end(s, n + i) == n + identifier_end(s.skip(n), i),
    decreases s.len() - n - i,
{
    if in_identifier(s, n + i) {
        lemma_identifier_end_suffix(s, n, i + 1);
    }
}

proof fn lemma_value_end_suffix(s: Seq<char>, n: int, i: int)
    requires
        0 <= n <= s.len(),
        0 <= i,
    ensures
        value_end(s, n + i) == n + value_end(s.skip(n), i),
    decreases s.len() - n - i,
{
    if in_value(s, n + i) {
        lemma_value_end_suffix(s, n, i + 1);
    }
}

proof fn lemma_identifier_suffix(s: Seq<char>, n: int, i: int)
    requires
        0 <= n <= s.len(),
        0 <= i,
    ensures
        identifier(s, n + i) == match identifier(s.skip(n), i) {
            Ok((name, end)) => Ok::<(Seq<char>, int), ParseErrorKind>((name, n + end)),
            Err(kind) => Err(kind),
        },
{
    let t = s.skip(n);
    let end = identifier_end(t, i);
    lemma_identifier_end_suffix(s, n, i);
    lemma_identifier_end_bounds(t, i);
    lemma_skip_line_suffix(s, n, end);
    if end < t.len() {
        assert(s.subrange(n + i, n + end) =~= t.subrange(i, end));
    }
}

proof fn lemma_key_suffix(s: Seq<char>, n: int, i: int)
    requires
        0 <= n <= s.len(),
        0 <= i,
    ensures
        key(s, n + i) == match key(s.skip(n), i) {
            Ok((name, end)) => Ok::<(Seq<char>, int), ParseErrorKind>((name, n + end)),
            Err(kind) => Err(kind),
        },
{
    lemma_identifier_suffix(s, n, i);
    lemma_identifier_suffix(s, n, i + 1);
}

proof fn lemma_text_value_suffix(s: Seq<char>, n: int, i: int)
    requires
        0 <= n <= s.len(),
        0 <= i <= s.len() - n,
    ensures
        text_value(s, n + i) == (text_value(s.skip(n), i).0, n + text_value(s.skip(n), i).1),
{
    let t = s.skip(n);
    let end = value_end(t, i);
    lemma_value_end_suffix(s, n, i);
    lemma_value_end_bounds(t, i);
    lemma_skip_line_suffix(s, n, end);
    assert(s.subrange(n + i, n + end) =~= t.subrange(i, end));
}

proof fn lemma_entries_suffix(s: Seq<char>, n: int, i: int, node: NodeView)
    requires
        0 <= n <= s.len(),
        0 <= i <= s.len() - n,
    ensures
        entries(s.skip(n), i, node) == moved(entries(s, n + i, node), n),
    decreases s.len() - n - i,
{
    let t = s.skip(n);
    if i >= t.len() || t[i] == '}' {
    } else if comment_at(t, i) {
        lemma_skip_line_suffix(s, n, i);
        lemma_skip_line_bounds(t, i);
        lemma_skip_whitespace_suffix(s, n, skip_line(t, i));
        lemma_skip_whitespace_bounds(t, skip_line(t, i));
        lemma_entries_suffix(s, n, skip_whitespace(t, skip_line(t, i)), node);
    } else {
        lemma_key_suffix(s, n, i);
        if let Ok((name, after_key)) = key(t, i) {
            let open = skip_whitespace(t, after_key);
            lemma_key_bounds(t, i);
            lemma_skip_whitespace_suffix(s, n, after_key);
            lemma_skip_whitespace_bounds(t, after_key);
            if open >= t.len() {
            } else if t[open] == '{' {
                let inner = skip_whitespace(t, open + 1);
                lemma_skip_whitespace_suffix(s, n, open + 1);
                lemma_skip_whitespace_bounds(t, open + 1);
                lemma_entries_suffix(s, n, inner, Map::empty());
                assert(node_body(t, open + 1) == moved(node_body(s, n + open + 1), n));
                if let Ok((child, after_body)) = node_body(t, open + 1) {
                    let close = skip_whitespace(t, after_body);
                    lemma_node_body_end(t, open + 1);
                    lemma_skip_whitespace_suffix(s, n, after_body);
                    if close < t.len() && t[close] == '}' && close > open {
                        let next = skip_whitespace(t, close + 1);
                        lemma_skip_whitespace_suffix(s, n, close + 1);
                        lemma_skip_whitespace_bounds(t, close + 1);
                        lemma_entries_suffix(s, n, next, node.insert(name, ValueView::Node(child)));
                    }
                }
            } else if t[open] == '=' {
                let (text, after_value) = text_value(t, open + 1);
                let next = skip_whitespace(t, after_value);
                lemma_text_value_suffix(s, n, open + 1);
                lemma_text_value_bounds(t, open + 1);
                lemma_skip_whitespace_suffix(s, n, after_value);
                lemma_skip_whitespace_bounds(t, after_value);
                lemma_entries_suffix(s, n, next, node.insert(name, ValueView::Text(text)));
            }
        }
    }
}

} // verus!
