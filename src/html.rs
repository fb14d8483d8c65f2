use crate::chars::{chars_of, lemma_run_end_bounds, name_char, run_end, string_from_chars, white_space};
use crate::dom::{self, views, AttrMap, Node};
use crate::grammar::{
    at_close, attr, attr_value, attrs, document, element, expect, html_name, lemma_attr, lemma_attrs,
    name_char_pred, name_end, node, nodes, other_than, text_end, white_space_pred, ws_end,
    ParseError,
};
use vstd::prelude::*;
use vstd::slice::slice_subrange;

verus! {

/// A cursor over the characters of one document.
pub struct Parser {
    pos: usize,
    input: Vec<char>,
}

impl Parser {
    spec fn wf(&self) -> bool {
        self.pos <= self.input.len()
    }

    fn next_char(&self) -> (r: char)
        requires
            self.pos < self.input.len(),
        ensures
            r == self.input@[self.pos as int],
    {
        self.input[self.pos]
    }

    /// Whether the input continues with `s` at the cursor.
    fn starts_with(&self, s: &str) -> (r: bool)
        requires
            self.wf(),
        ensures
            r == (self.pos + s@.len() <= self.input.len() && self.input@.subrange(
                self.pos as int,
                self.pos + s@.len(),
            ) == s@),
    {
        let t = chars_of(s);
        if t.len() > self.input.len() - self.pos {
            return false;
        }
        let mut k: usize = 0;
        while k < t.len()
            invariant
                self.wf(),
                t@ == s@,
                self.pos + t.len() <= self.input.len(),
                0 <= k <= t.len(),
                forall|m: int| 0 <= m < k ==> self.input@[self.pos + m] == t@[m],
            decreases t.len() - k,
        {
            if self.input[self.pos + k] != t[k] {
                assert(self.input@.subrange(self.pos as int, self.pos + s@.len())[k as int]
                    != s@[k as int]);
                return false;
            }
            k = k + 1;
        }
        assert(self.input@.subrange(self.pos as int, self.pos + s@.len()) =~= s@);
        true
    }

    /// Whether the cursor is at the end of the input.
    fn eof(&self) -> (r: bool)
        ensures
            r == (self.pos >= self.input.len()),
    {
        self.pos >= self.input.len()
    }

    fn consume_char(&mut self) -> (r: char)
        requires
            old(self).pos < old(self).input.len(),
        ensures
            r == old(self).input@[old(self).pos as int],
            final(self).pos == old(self).pos + 1,
            final(self).input == old(self).input,
    {
        let c = self.input[self.pos];
        self.pos = self.pos + 1;
        c
    }

    /// Consumes the character `c`, which must come next.
    fn expect_char(&mut self, c: char) -> (r: Result<(), ParseError>)
        requires
            old(self).wf(),
        ensures
            final(self).wf(),
            final(self).input == old(self).input,
            match r {
                Ok(_) => expect(old(self).input@, old(self).pos as int, c) == Ok::<int, ParseError>(
                    final(self).pos as int,
                ),
                Err(e) => expect(old(self).input@, old(self).pos as int, c) == Err::<int, ParseError>(e),
            },
    {
        if self.eof() {
            return Err(ParseError::UnexpectedEndOfInput);
        }
        if self.consume_char() != c {
            return Err(ParseError::UnexpectedCharacter);
        }
        Ok(())
    }

    /// Consumes the longest run of characters that pass `test`, and gives it.
    fn consume_while<F: Fn(char) -> bool>(&mut self, test: F, Ghost(p): Ghost<spec_fn(char) -> bool>) -> (r: String)
        requires
            old(self).wf(),
            forall|c: char| #[trigger] test.requires((c,)),
            forall|c: char, b: bool| test.ensures((c,), b) ==> b == p(c),
        ensures
            final(self).wf(),
            final(self).input == old(self).input,
            final(self).pos == run_end(old(self).input@, old(self).pos as int, p),
            final(self).pos >= old(self).pos,
            r@ == old(self).input@.subrange(old(self).pos as int, final(self).pos as int),
    {
        let start = self.pos;
        while !self.eof() && test(self.next_char())
            invariant
                self.wf(),
                self.input == old(self).input,
                start <= self.pos,
                start == old(self).pos,
                forall|c: char| #[trigger] test.requires((c,)),
                forall|c: char, b: bool| test.ensures((c,), b) ==> b == p(c),
                run_end(self.input@, start as int, p) == run_end(self.input@, self.pos as int, p),
            decreases self.input.len() - self.pos,
        {
            self.pos = self.pos + 1;
        }
        string_from_chars(slice_subrange(self.input.as_slice(), start, self.pos))
    }

    fn consume_whitespace(&mut self)
        requires
            old(self).wf(),
        ensures
            final(self).wf(),
            final(self).input == old(self).input,
            final(self).pos == ws_end(old(self).input@, old(self).pos as int),
    {
        self.consume_while(white_space, Ghost(white_space_pred()));
    }

    fn parse_tag_name(&mut self) -> (r: String)
        requires
            old(self).wf(),
        ensures
            final(self).wf(),
            final(self).input == old(self).input,
            final(self).pos == name_end(old(self).input@, old(self).pos as int),
            final(self).pos >= old(self).pos,
            r@ == old(self).input@.subrange(old(self).pos as int, final(self).pos as int),
    {
        self.consume_while(name_char, Ghost(name_char_pred()))
    }

    /// A value in quotes: `"..."` or `'...'`.
    fn parse_attr_value(&mut self) -> (r: Result<String, ParseError>)
        requires
            old(self).wf(),
        ensures
            final(self).wf(),
            final(self).input == old(self).input,
            match r {
                Ok(v) => attr_value(old(self).input@, old(self).pos as int) == Ok::<
                    (Seq<char>, int),
                    ParseError,
                >((v@, final(self).pos as int)),
                Err(e) => attr_value(old(self).input@, old(self).pos as int) == Err::<
                    (Seq<char>, int),
                    ParseError,
                >(e),
            },
    {
        if self.eof() {
            return Err(ParseError::UnexpectedEndOfInput);
        }
        let open_quote = self.consume_char();
        if open_quote != '"' && open_quote != '\'' {
            return Err(ParseError::UnexpectedCharacter);
        }
        let not_quote = move |c: char| -> (b: bool) ensures b == (c != open_quote) { c != open_quote };
        let value = self.consume_while(not_quote, Ghost(other_than(open_quote)));
        proof {
            lemma_run_end_bounds(self.input@, old(self).pos + 1, other_than(open_quote));
        }
        match self.expect_char(open_quote) {
            Ok(_) => Ok(value),
            Err(e) => Err(e),
        }
    }

    /// `name=value`.
    fn parse_attr(&mut self) -> (r: Result<(String, String), ParseError>)
        requires
            old(self).wf(),
        ensures
            final(self).wf(),
            final(self).input == old(self).input,
            match r {
                Ok((n, v)) => attr(old(self).input@, old(self).pos as int) == Ok::<
                    (Seq<char>, Seq<char>, int),
                    ParseError,
                >((n@, v@, final(self).pos as int)),
                Err(e) => attr(old(self).input@, old(self).pos as int) == Err::<
                    (Seq<char>, Seq<char>, int),
                    ParseError,
                >(e),
            },
    {
        let name = self.parse_tag_name();
        match self.expect_char('=') {
            Ok(_) => {},
            Err(e) => {
                return Err(e);
            },
        }
        match self.parse_attr_value() {
            Ok(value) => Ok((name, value)),
            Err(e) => Err(e),
        }
    }

    /// Attributes up to the `>` that ends the tag, which stays unconsumed.
    fn parse_attributes(&mut self) -> (r: Result<AttrMap, ParseError>)
        requires
            old(self).wf(),
        ensures
            final(self).wf(),
            final(self).input == old(self).input,
            match r {
                Ok(m) => attrs(old(self).input@, old(self).pos as int, Map::empty())
                    == Ok::<(Map<Seq<char>, Seq<char>>, int), ParseError>(
                    (m@, final(self).pos as int),
                ),
                Err(e) => attrs(old(self).input@, old(self).pos as int, Map::empty()) == Err::<
                    (Map<Seq<char>, Seq<char>>, int),
                    ParseError,
                >(e),
            },
    {
        let ghost s = self.input@;
        let ghost i0 = self.pos as int;
        let mut attributes = AttrMap::new();
        loop
            invariant
                self.wf(),
                self.input == old(self).input,
                s == self.input@,
                i0 == old(self).pos,
                attrs(s, i0, Map::empty()) == attrs(s, self.pos as int, attributes@),
            decreases s.len() - self.pos,
        {
            let ghost p0 = self.pos as int;
            self.consume_whitespace();
            proof {
                lemma_run_end_bounds(s, p0, white_space_pred());
            }
            if self.eof() {
                return Err(ParseError::UnexpectedEndOfInput);
            }
            if self.next_char() == '>' {
                return Ok(attributes);
            }
            proof {
                lemma_attr(s, self.pos as int);
            }
            match self.parse_attr() {
                Ok((name, value)) => {
                    attributes.insert(name, value);
                },
                Err(e) => {
                    return Err(e);
                },
            }
        }
    }

    /// Text up to the next `<`.
    fn parse_text(&mut self) -> (r: Node)
        requires
            old(self).wf(),
        ensures
            final(self).wf(),
            final(self).input == old(self).input,
            r.wf(),
            r@ == dom::Tree::Text(old(self).input@.subrange(old(self).pos as int, final(self).pos as int)),
            final(self).pos == text_end(old(self).input@, old(self).pos as int),
    {
        let not_open = |c: char| -> (b: bool) ensures b == (c != '<') { c != '<' };
        dom::text(self.consume_while(not_open, Ghost(other_than('<'))))
    }

    /// One node, at a character that is there.
    fn parse_node(&mut self) -> (r: Result<Node, ParseError>)
        requires
            old(self).pos < old(self).input.len(),
        ensures
            final(self).wf(),
            final(self).input == old(self).input,
            match r {
                Ok(n) => n.wf() && final(self).pos > old(self).pos && node(
                    old(self).input@,
                    old(self).pos as int,
                ) == Ok::<(dom::Tree, int), ParseError>((n@, final(self).pos as int)),
                Err(e) => node(old(self).input@, old(self).pos as int) == Err::<
                    (dom::Tree, int),
                    ParseError,
                >(e),
            },
        decreases old(self).input.len() - old(self).pos, 1int,
    {
        if self.next_char() == '<' {
            self.parse_element()
        } else {
            proof {
                lemma_run_end_bounds(self.input@, self.pos as int, other_than('<'));
            }
            Ok(self.parse_text())
        }
    }

    /// An element with its children and its closing tag.
    fn parse_element(&mut self) -> (r: Result<Node, ParseError>)
        requires
            old(self).wf(),
        ensures
            final(self).wf(),
            final(self).input == old(self).input,
            match r {
                Ok(n) => n.wf() && final(self).pos > old(self).pos && element(
                    old(self).input@,
                    old(self).pos as int,
                ) == Ok::<(dom::Tree, int), ParseError>((n@, final(self).pos as int)),
                Err(e) => element(old(self).input@, old(self).pos as int) == Err::<
                    (dom::Tree, int),
                    ParseError,
                >(e),
            },
        decreases old(self).input.len() - old(self).pos, 0int,
    {
        let ghost s = self.input@;
        let ghost i = self.pos as int;
        // Opening tag.
        match self.expect_char('<') {
            Ok(_) => {},
            Err(e) => {
                return Err(e);
            },
        }
        let ghost i1 = self.pos as int;
        let name_start = self.pos;
        let tag_name = self.parse_tag_name();
        if self.pos == name_start {
            return Err(ParseError::EmptyTagName);
        }
        let ghost n = self.pos as int;
        proof {
            lemma_run_end_bounds(s, i1, name_char_pred());
            lemma_attrs(s, n, Map::empty());
        }
        let attributes = match self.parse_attributes() {
            Ok(a) => a,
            Err(e) => {
                return Err(e);
            },
        };
        match self.expect_char('>') {
            Ok(_) => {},
            Err(e) => {
                return Err(e);
            },
        }
        let children = match self.parse_nodes() {
            Ok(c) => c,
            Err(e) => {
                return Err(e);
            },
        };
        // Closing tag.
        match self.expect_char('<') {
            Ok(_) => {},
            Err(e) => {
                return Err(e);
            },
        }
        match self.expect_char('/') {
            Ok(_) => {},
            Err(e) => {
                return Err(e);
            },
        }
        let closing = self.parse_tag_name();
        if !(closing == tag_name) {
            return Err(ParseError::TagMismatch);
        }
        match self.expect_char('>') {
            Ok(_) => {},
            Err(e) => {
                return Err(e);
            },
        }
        let ghost i7 = self.pos as int;
        let r = dom::elem(tag_name, attributes, children);
        assert(element(s, i) == Ok::<(dom::Tree, int), ParseError>((r@, i7)));
        Ok(r)
    }

    /// Nodes, each after the white space before it, up to the end of the input
    /// or a `</`.
    fn parse_nodes(&mut self) -> (r: Result<Vec<Node>, ParseError>)
        requires
            old(self).wf(),
        ensures
            final(self).wf(),
            final(self).input == old(self).input,
            match r {
                Ok(v) => final(self).pos >= old(self).pos && (forall|k: int| 0 <= k < v.len() ==> (#[trigger] v[k]).wf()) && nodes(
                    old(self).input@,
                    old(self).pos as int,
                ) == Ok::<(Seq<dom::Tree>, int), ParseError>((views(v@), final(self).pos as int)),
                Err(e) => nodes(old(self).input@, old(self).pos as int) == Err::<
                    (Seq<dom::Tree>, int),
                    ParseError,
                >(e),
            },
        decreases old(self).input.len() - old(self).pos, 2int,
    {
        let ghost s = self.input@;
        let ghost i0 = self.pos as int;
        let mut out: Vec<Node> = Vec::new();
        assert(views(out@) + Seq::<dom::Tree>::empty() =~= Seq::<dom::Tree>::empty());
        loop
            invariant
                self.wf(),
                self.input == old(self).input,
                s == self.input@,
                i0 == old(self).pos,
                i0 <= self.pos,
                forall|k: int| 0 <= k < out.len() ==> (#[trigger] out[k]).wf(),
                nodes(s, i0) == match nodes(s, self.pos as int) {
                    Ok((ts, m)) => Ok::<(Seq<dom::Tree>, int), ParseError>((views(out@) + ts, m)),
                    Err(e) => Err::<(Seq<dom::Tree>, int), ParseError>(e),
                },
            decreases s.len() - self.pos,
        {
            let ghost p0 = self.pos as int;
            self.consume_whitespace();
            proof {
                lemma_run_end_bounds(s, p0, white_space_pred());
                reveal_strlit("</");
                let w = "</"@;
                assert(w.len() == 2 && w[0] == '<' && w[1] == '/');
                let j = self.pos as int;
                if at_close(s, j) {
                    assert(s.subrange(j, j + 2) =~= w);
                }
                if j + 2 <= s.len() && s.subrange(j, j + 2) == w {
                    assert(s[j] == s.subrange(j, j + 2)[0]);
                    assert(s[j + 1] == s.subrange(j, j + 2)[1]);
                }
            }
            if self.eof() || self.starts_with("</") {
                assert(views(out@) + Seq::<dom::Tree>::empty() =~= views(out@));
                return Ok(out);
            }
            let ghost j = self.pos as int;
            let n = match self.parse_node() {
                Ok(n) => n,
                Err(e) => {
                    return Err(e);
                },
            };
            let ghost before = views(out@);
            out.push(n);
            proof {
                assert(views(out@) =~= before.push(n@));
                match nodes(s, self.pos as int) {
                    Ok((ts, m)) => {
                        assert(views(out@) + ts =~= before + (seq![n@] + ts));
                    },
                    Err(e) => {},
                }
            }
        }
    }
}

/// Parses a whole document. Where it has exactly one node at the top, that
/// node is the root; otherwise an `html` element without attributes holds
/// all of them.
pub fn parse(source: String) -> (r: Result<Node, ParseError>)
    ensures
        match r {
            Ok(n) => n.wf() && document(source@) == Ok::<dom::Tree, ParseError>(n@),
            Err(e) => document(source@) == Err::<dom::Tree, ParseError>(e),
        },
{
    let input = chars_of(source.as_str());
    let mut parser = Parser { pos: 0, input };
    let mut nodes = match parser.parse_nodes() {
        Ok(v) => v,
        Err(e) => {
            return Err(e);
        },
    };
    if nodes.len() == 1 {
        Ok(nodes.remove(0))
    } else {
        proof {
            reveal_strlit("html");
        }
        let name = "html".to_owned();
        assert(name@ =~= html_name());
        Ok(dom::elem(name, AttrMap::new(), nodes))
    }
}

} // verus!
