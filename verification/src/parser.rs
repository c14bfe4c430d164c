use crate::error::{ParseError, ParseErrorKind};
use crate::grammar::{
    comment_at, ends_identifier, entries, identifier, identifier_end, is_whitespace, key,
    lemma_key_bounds, lemma_node_body_end, lemma_skip_line_bounds, lemma_skip_whitespace_bounds,
    lemma_text_value_bounds, node_body, parsed, skip_line, skip_whitespace, text_value, trim,
    trim_end, trim_start, value_end,
};
use crate::node::{ConfigNode, ConfigNodeValue, NodeView};
use vstd::prelude::*;
use vstd::string::StringExecFns;

verus! {

/// `String::push` of the standard library: the string afterwards is the string before
/// with the character added at its end.
pub assume_specification[ String::push ](s: &mut String, c: char)
    ensures
        final(s)@ == old(s)@.push(c),
;

/// Parses a string into a [`ConfigNode`] struct
pub struct ConfigNodeParser {
    /// The characters of the text
    text: Vec<char>,
    /// The cursor: the index of the next character
    pos: usize,
}

/// The characters of a string, in order
fn characters(text: &str) -> (chars: Vec<char>)
    ensures
        chars@ == text@,
{
    let mut chars: Vec<char> = Vec::new();
    for c in it: text.chars()
        invariant
            chars@ == it.seq().take(it.index()),
    {
        chars.push(c);
    }
    chars
}

/// Whether the character is ASCII whitespace
fn is_ascii_whitespace(c: char) -> (b: bool)
    ensures
        b == is_whitespace(c),
{
    c == ' ' || c == '\t' || c == '\n' || c == '\x0C' || c == '\r'
}

impl ConfigNodeParser {
    /// The cursor stands in the text or at its end.
    spec fn well_formed(&self) -> bool {
        self.pos <= self.text.len()
    }

    /// Parses a ConfigNode string into a [`ConfigNode`] struct.
    ///
    /// The whole text is read, and the first error ends the reading: there is no partial
    /// result. A nested node is read by a nested call, so the depth of the tree that can
    /// be read is bounded by the stack.
    pub fn parse(text: &str) -> (result: Result<ConfigNode, ParseError>)
        ensures
            match result {
                Ok(node) => parsed(text@) == Ok::<NodeView, ParseErrorKind>(node@),
                Err(error) => parsed(text@) == Err::<NodeView, ParseErrorKind>(error.kind),
            },
    {
        let mut parser = ConfigNodeParser { text: characters(text), pos: 0 };
        parser.parse_confignode()
    }

    /// Parses a node *without* the surrounding curly brackets. The cursor is left at the
    /// closing bracket, or at the end of the text.
    fn parse_confignode(&mut self) -> (result: Result<ConfigNode, ParseError>)
        requires
            old(self).well_formed(),
        ensures
            final(self).well_formed(),
            final(self).text == old(self).text,
            match result {
                Ok(node) => node_body(old(self).text@, old(self).pos as int) == Ok::<
                    (NodeView, int),
                    ParseErrorKind,
                >((node@, final(self).pos as int)),
                Err(error) => node_body(old(self).text@, old(self).pos as int) == Err::<
                    (NodeView, int),
                    ParseErrorKind,
                >(error.kind),
            },
        decreases old(self).text.len() - old(self).pos,
    {
        let ghost s = self.text@;
        let ghost start = self.pos as int;
        let mut children = ConfigNode::new();

        self.skip_whitespace();
        proof {
            lemma_skip_whitespace_bounds(s, start);
        }

        loop
            invariant
                self.well_formed(),
                self.text == old(self).text,
                s == old(self).text@,
                start == old(self).pos,
                start <= self.pos,
                node_body(s, start) == entries(s, self.pos as int, children@),
            decreases self.text.len() - self.pos,
        {
            if self.pos >= self.text.len() || self.text[self.pos] == '}' {
                return Ok(children);
            }
            let ghost entry = self.pos as int;
            if self.comment_at(self.pos) {
                self.skip_line();
                self.skip_whitespace();
                proof {
                    lemma_skip_line_bounds(s, entry);
                    lemma_skip_whitespace_bounds(s, skip_line(s, entry));
                }
                continue ;
            }
            let identifier = self.parse_key()?;
            proof {
                lemma_key_bounds(s, entry);
                lemma_skip_whitespace_bounds(s, self.pos as int);
            }

            self.skip_whitespace();

            if self.pos >= self.text.len() {
                return Err(ParseError { kind: ParseErrorKind::UnexpectedEof });
            }
            let ghost open = self.pos as int;
            let c = self.text[self.pos];
            if c == '{' {
                self.pos += 1;
                let child = self.parse_confignode()?;
                proof {
                    lemma_node_body_end(s, open + 1);
                    lemma_skip_whitespace_bounds(s, self.pos as int);
                }
                self.skip_whitespace();
                if self.pos >= self.text.len() {
                    return Err(ParseError { kind: ParseErrorKind::UnexpectedEof });
                }
                if self.text[self.pos] != '}' {
                    return Err(ParseError { kind: ParseErrorKind::InvalidCharacter });
                }
                self.pos += 1;
                children.insert(identifier, ConfigNodeValue::Node(child));
            } else if c == '=' {
                self.pos += 1;
                let text = self.parse_string()?;
                proof {
                    lemma_text_value_bounds(s, open + 1);
                }
                children.insert(identifier, ConfigNodeValue::Text(text));
            } else {
                return Err(ParseError { kind: ParseErrorKind::InvalidCharacter });
            }

            proof {
                lemma_skip_whitespace_bounds(s, self.pos as int);
            }
            self.skip_whitespace();
        }
    }

    /// Reads the identifier of an entry, which may begin with a slash.
    fn parse_key(&mut self) -> (result: Result<String, ParseError>)
        requires
            old(self).well_formed(),
            old(self).pos < old(self).text.len(),
        ensures
            final(self).well_formed(),
            final(self).text == old(self).text,
            match result {
                Ok(name) => key(old(self).text@, old(self).pos as int) == Ok::<
                    (Seq<char>, int),
                    ParseErrorKind,
                >((name@, final(self).pos as int)),
                Err(error) => key(old(self).text@, old(self).pos as int) == Err::<
                    (Seq<char>, int),
                    ParseErrorKind,
                >(error.kind),
            },
    {
        if self.text[self.pos] == '/' {
            self.pos += 1;
            let rest = self.parse_identifier()?;
            let mut identifier = String::new();
            identifier.push('/');
            identifier.append(rest.as_str());
            assert(identifier@ =~= seq!['/'] + rest@);
            Ok(identifier)
        } else {
            self.parse_identifier()
        }
    }

    /// Reads an identifier up to the character that ends it, which is left in place, or
    /// up to the end of the line if a comment ends it.
    fn parse_identifier(&mut self) -> (result: Result<String, ParseError>)
        requires
            old(self).well_formed(),
        ensures
            final(self).well_formed(),
            final(self).text == old(self).text,
            match result {
                Ok(name) => identifier(old(self).text@, old(self).pos as int) == Ok::<
                    (Seq<char>, int),
                    ParseErrorKind,
                >((name@, final(self).pos as int)),
                Err(error) => identifier(old(self).text@, old(self).pos as int) == Err::<
                    (Seq<char>, int),
                    ParseErrorKind,
                >(error.kind),
            },
    {
        let ghost s = self.text@;
        let start = self.pos;
        let mut end = start;
        while end < self.text.len() && !is_identifier_end(self.text[end]) && self.text[end] != '}'
            && !self.comment_at(end)
            invariant
                self.text@ == s,
                start <= end <= self.text.len(),
                identifier_end(s, start as int) == identifier_end(s, end as int),
            decreases self.text.len() - end,
        {
            end += 1;
        }
        if end >= self.text.len() {
            return Err(ParseError { kind: ParseErrorKind::UnexpectedEof });
        }
        if self.text[end] == '}' {
            return Err(ParseError { kind: ParseErrorKind::InvalidCharacter });
        }
        let name = self.trimmed(start, end);
        self.pos = end;
        if self.comment_at(end) {
            self.skip_line();
        }
        Ok(name)
    }

    /// Reads a text value up to the end of the line, which is left in place, or up to the
    /// end of the text.
    fn parse_string(&mut self) -> (result: Result<String, ParseError>)
        requires
            old(self).well_formed(),
        ensures
            final(self).well_formed(),
            final(self).text == old(self).text,
            result matches Ok(text) && text_value(old(self).text@, old(self).pos as int) == (
                text@,
                final(self).pos as int,
            ),
    {
        let ghost s = self.text@;
        let start = self.pos;
        let mut end = start;
        while end < self.text.len() && self.text[end] != '\n' && self.text[end] != '\r'
            && !self.comment_at(end)
            invariant
                self.text@ == s,
                start <= end <= self.text.len(),
                value_end(s, start as int) == value_end(s, end as int),
            decreases self.text.len() - end,
        {
            end += 1;
        }
        let text = self.trimmed(start, end);
        self.pos = end;
        if self.comment_at(end) {
            self.skip_line();
        }
        Ok(text)
    }

    /// Moves the cursor to the next line feed, or to the end of the text.
    fn skip_line(&mut self)
        requires
            old(self).well_formed(),
        ensures
            final(self).well_formed(),
            final(self).text == old(self).text,
            final(self).pos == skip_line(old(self).text@, old(self).pos as int),
    {
        let ghost s = self.text@;
        let ghost start = self.pos as int;
        while self.pos < self.text.len() && self.text[self.pos] != '\n'
            invariant
                self.well_formed(),
                self.text == old(self).text,
                self.text@ == s,
                skip_line(s, start) == skip_line(s, self.pos as int),
            decreases self.text.len() - self.pos,
        {
            self.pos += 1;
        }
    }

    /// Moves the cursor to the next character that is no whitespace, or to the end of the
    /// text.
    fn skip_whitespace(&mut self)
        requires
            old(self).well_formed(),
        ensures
            final(self).well_formed(),
            final(self).text == old(self).text,
            final(self).pos == skip_whitespace(old(self).text@, old(self).pos as int),
    {
        let ghost s = self.text@;
        let ghost start = self.pos as int;
        while self.pos < self.text.len() && is_ascii_whitespace(self.text[self.pos])
            invariant
                self.well_formed(),
                self.text == old(self).text,
                self.text@ == s,
                skip_whitespace(s, start) == skip_whitespace(s, self.pos as int),
            decreases self.text.len() - self.pos,
        {
            self.pos += 1;
        }
    }

    /// Whether a comment starts at the given position
    fn comment_at(&self, i: usize) -> (b: bool)
        requires
            i <= self.text.len(),
        ensures
            b == comment_at(self.text@, i as int),
    {
        i < self.text.len() && self.text[i] == '/' && i + 1 < self.text.len() && self.text[i + 1]
            == '/'
    }

    /// The text between the two positions, without leading and trailing whitespace
    fn trimmed(&self, from: usize, to: usize) -> (text: String)
        requires
            from <= to <= self.text.len(),
        ensures
            text@ == trim(self.text@.subrange(from as int, to as int)),
    {
        let ghost s = self.text@;
        let mut first = from;
        while first < to && is_ascii_whitespace(self.text[first])
            invariant
                self.text@ == s,
                from <= first <= to <= s.len(),
                trim_start(s.subrange(from as int, to as int)) == trim_start(
                    s.subrange(first as int, to as int),
                ),
            decreases to - first,
        {
            assert(s.subrange(first as int, to as int).drop_first() =~= s.subrange(
                first + 1,
                to as int,
            ));
            first += 1;
        }
        let mut last = to;
        while last > first && is_ascii_whitespace(self.text[last - 1])
            invariant
                self.text@ == s,
                first <= last <= to <= s.len(),
                trim_end(s.subrange(first as int, to as int)) == trim_end(
                    s.subrange(first as int, last as int),
                ),
            decreases last - first,
        {
            assert(s.subrange(first as int, last as int).drop_last() =~= s.subrange(
                first as int,
                last - 1,
            ));
            last -= 1;
        }
        let mut text = String::new();
        let mut i = first;
        while i < last
            invariant
                self.text@ == s,
                first <= i <= last <= s.len(),
                text@ == s.subrange(first as int, i as int),
            decreases last - i,
        {
            assert(s.subrange(first as int, i as int).push(s[i as int]) =~= s.subrange(
                first as int,
                i + 1,
            ));
            text.push(self.text[i]);
            i += 1;
        }
        text
    }
}

/// Whether the character ends an identifier
fn is_identifier_end(c: char) -> (b: bool)
    ensures
        b == ends_identifier(c),
{
    c == '{' || c == '=' || c == '\n' || c == '\r'
}

} // verus!
