//! The markup grammar as spec functions over the characters of the input.
//! Each function reads from a position and gives what it recognised together
//! with the position just past it, or the error that stops the whole parse.
use crate::chars::{is_name_char, is_white_space, lemma_run_end_bounds, run_end};
use crate::dom::Tree;
use vstd::prelude::*;

verus! {

/// Why a document could not be parsed.
#[derive(Debug, Clone, Copy, PartialEq, Eq, Structural)]
pub enum ParseError {
    /// The input ended where a character was still required.
    UnexpectedEndOfInput,
    /// A required character (`<`, `>`, `/`, `=` or a quote) was not there.
    UnexpectedCharacter,
    /// A closing tag named another element than the one it closes.
    TagMismatch,
    /// An opening tag had no name.
    EmptyTagName,
}

pub open spec fn white_space_pred() -> spec_fn(char) -> bool {
    |c: char| is_white_space(c)
}

pub open spec fn name_char_pred() -> spec_fn(char) -> bool {
    |c: char| is_name_char(c)
}

/// Every character but `q`.
pub open spec fn other_than(q: char) -> spec_fn(char) -> bool {
    |c: char| c != q
}

pub open spec fn ws_end(s: Seq<char>, i: int) -> int {
    run_end(s, i, white_space_pred())
}

pub open spec fn name_end(s: Seq<char>, i: int) -> int {
    run_end(s, i, name_char_pred())
}

pub open spec fn text_end(s: Seq<char>, i: int) -> int {
    run_end(s, i, other_than('<'))
}

/// The character `c` at `i`.
pub open spec fn expect(s: Seq<char>, i: int, c: char) -> Result<int, ParseError> {
    if i >= s.len() {
        Err(ParseError::UnexpectedEndOfInput)
    } else if s[i] != c {
        Err(ParseError::UnexpectedCharacter)
    } else {
        Ok(i + 1)
    }
}

/// Whether `s` continues at `i` with `</`.
pub open spec fn at_close(s: Seq<char>, i: int) -> bool {
    0 <= i && i + 1 < s.len() && s[i] == '<' && s[i + 1] == '/'
}

/// A value in single or double quotes, closed by the quote that opened it.
pub open spec fn attr_value(s: Seq<char>, i: int) -> Result<(Seq<char>, int), ParseError> {
    if i >= s.len() {
        Err(ParseError::UnexpectedEndOfInput)
    } else if s[i] != '"' && s[i] != '\'' {
        Err(ParseError::UnexpectedCharacter)
    } else {
        let q = s[i];
        let j = run_end(s, i + 1, other_than(q));
        if j >= s.len() {
            Err(ParseError::UnexpectedEndOfInput)
        } else {
            Ok((s.subrange(i + 1, j), j + 1))
        }
    }
}

/// `name=value`.
pub open spec fn attr(s: Seq<char>, i: int) -> Result<(Seq<char>, Seq<char>, int), ParseError> {
    let j = name_end(s, i);
    match expect(s, j, '=') {
        Err(e) => Err(e),
        Ok(k) => match attr_value(s, k) {
            Err(e) => Err(e),
            Ok((v, m)) => Ok((s.subrange(i, j), v, m)),
        },
    }
}

pub proof fn lemma_attr(s: Seq<char>, i: int)
    requires
        0 <= i <= s.len(),
    ensures
        attr(s, i) is Ok ==> i < attr(s, i)->Ok_0.2 <= s.len(),
        attr(s, i) is Ok ==> attr(s, i)->Ok_0.0 == s.subrange(i, name_end(s, i)),
{
    lemma_run_end_bounds(s, i, name_char_pred());
    let j = name_end(s, i);
    if j < s.len() && s[j] == '=' && j + 1 < s.len() {
        let q = s[j + 1];
        lemma_run_end_bounds(s, j + 2, other_than(q));
    }
}

/// Attributes separated by white space, up to the `>` that ends the tag
/// (not consumed); each one is inserted into `acc` in turn.
pub open spec fn attrs(s: Seq<char>, i: int, acc: Map<Seq<char>, Seq<char>>) -> Result<
    (Map<Seq<char>, Seq<char>>, int),
    ParseError,
>
    decreases s.len() - i,
    when 0 <= i <= s.len()
    via attrs_decreases
{
    let j = ws_end(s, i);
    if j >= s.len() {
        Err(ParseError::UnexpectedEndOfInput)
    } else if s[j] == '>' {
        Ok((acc, j))
    } else {
        match attr(s, j) {
            Err(e) => Err(e),
            Ok((n, v, k)) => attrs(s, k, acc.insert(n, v)),
        }
    }
}

#[via_fn]
proof fn attrs_decreases(s: Seq<char>, i: int, acc: Map<Seq<char>, Seq<char>>) {
    lemma_run_end_bounds(s, i, white_space_pred());
    let j = ws_end(s, i);
    if j < s.len() && s[j] != '>' {
        lemma_attr(s, j);
    }
}

pub proof fn lemma_attrs(s: Seq<char>, i: int, acc: Map<Seq<char>, Seq<char>>)
    requires
        0 <= i <= s.len(),
    ensures
        attrs(s, i, acc) is Ok ==> {
            let e = attrs(s, i, acc)->Ok_0.1;
            i <= e < s.len() && s[e] == '>'
        },
    decreases s.len() - i,
{
    lemma_run_end_bounds(s, i, white_space_pred());
    let j = ws_end(s, i);
    if j < s.len() && s[j] != '>' {
        lemma_attr(s, j);
        if let Ok((n, v, k)) = attr(s, j) {
            lemma_attrs(s, k, acc.insert(n, v));
        }
    }
}

/// The name that a document gets as its root where it does not have
/// exactly one node at the top.
pub open spec fn html_name() -> Seq<char> {
    seq!['h', 't', 'm', 'l']
}

/// An element: opening tag with its attributes, children, and a closing tag
/// that repeats the name.
pub open spec fn element(s: Seq<char>, i: int) -> Result<(Tree, int), ParseError>
    decreases s.len() - i, 0int,
    when 0 <= i <= s.len()
    via element_decreases
{
    match expect(s, i, '<') {
        Err(e) => Err(e),
        Ok(i1) => {
            let n = name_end(s, i1);
            let tag = s.subrange(i1, n);
            if n == i1 {
                Err(ParseError::EmptyTagName)
            } else {
                match attrs(s, n, Map::empty()) {
                    Err(e) => Err(e),
                    Ok((a, i2)) => match expect(s, i2, '>') {
                        Err(e) => Err(e),
                        Ok(i3) => match nodes(s, i3) {
                            Err(e) => Err(e),
                            Ok((children, i4)) => match expect(s, i4, '<') {
                                Err(e) => Err(e),
                                Ok(i5) => match expect(s, i5, '/') {
                                    Err(e) => Err(e),
                                    Ok(i6) => {
                                        let n2 = name_end(s, i6);
                                        if s.subrange(i6, n2) != tag {
                                            Err(ParseError::TagMismatch)
                                        } else {
                                            match expect(s, n2, '>') {
                                                Err(e) => Err(e),
                                                Ok(i7) => Ok((Tree::Element(tag, a, children), i7)),
                                            }
                                        }
                                    },
                                },
                            },
                        },
                    },
                }
            }
        },
    }
}

#[via_fn]
proof fn element_decreases(s: Seq<char>, i: int) {
    if i < s.len() {
        lemma_run_end_bounds(s, i + 1, name_char_pred());
        lemma_attrs(s, name_end(s, i + 1), Map::empty());
    }
}

/// One node: an element where the input continues with `<`, else text up to
/// the next `<`.
pub open spec fn node(s: Seq<char>, i: int) -> Result<(Tree, int), ParseError>
    decreases s.len() - i, 1int,
    when 0 <= i <= s.len()
{
    if i < s.len() && s[i] == '<' {
        element(s, i)
    } else {
        Ok((Tree::Text(s.subrange(i, text_end(s, i))), text_end(s, i)))
    }
}

/// Nodes up to the end of the input or to a `</`, with the white space
/// before each of them skipped. The test on the position only keeps the
/// definition well founded: a node always consumes input.
pub open spec fn nodes(s: Seq<char>, i: int) -> Result<(Seq<Tree>, int), ParseError>
    decreases s.len() - i, 2int,
    when 0 <= i <= s.len()
    via nodes_decreases
{
    let j = ws_end(s, i);
    if j >= s.len() || at_close(s, j) {
        Ok((Seq::empty(), j))
    } else {
        match node(s, j) {
            Err(e) => Err(e),
            Ok((t, k)) => if j < k <= s.len() {
                match nodes(s, k) {
                    Err(e) => Err(e),
                    Ok((ts, m)) => Ok((seq![t] + ts, m)),
                }
            } else {
                Ok((seq![t], k))
            },
        }
    }
}

#[via_fn]
proof fn nodes_decreases(s: Seq<char>, i: int) {
    lemma_run_end_bounds(s, i, white_space_pred());
}

/// An element that parses ends after its start, within the input.
pub proof fn lemma_element_end(s: Seq<char>, i: int)
    requires
        0 <= i <= s.len(),
    ensures
        element(s, i) matches Ok((_, k)) ==> i < k <= s.len(),
    decreases s.len() - i, 0int,
{
    if i < s.len() && s[i] == '<' {
        lemma_run_end_bounds(s, i + 1, name_char_pred());
        let n = name_end(s, i + 1);
        lemma_attrs(s, n, Map::empty());
        if let Ok((_, i2)) = attrs(s, n, Map::empty()) {
            lemma_nodes_end(s, i2 + 1);
            if let Ok((_, i4)) = nodes(s, i2 + 1) {
                if i4 + 1 < s.len() {
                    lemma_run_end_bounds(s, i4 + 2, name_char_pred());
                }
            }
        }
    }
}

/// A node list that parses ends at or after its start, within the input.
pub proof fn lemma_nodes_end(s: Seq<char>, i: int)
    requires
        0 <= i <= s.len(),
    ensures
        nodes(s, i) matches Ok((_, k)) ==> i <= k <= s.len(),
    decreases s.len() - i, 1int,
{
    lemma_run_end_bounds(s, i, white_space_pred());
    let j = ws_end(s, i);
    if j < s.len() && !at_close(s, j) {
        if s[j] == '<' {
            lemma_element_end(s, j);
        } else {
            lemma_run_end_bounds(s, j, other_than('<'));
        }
        if let Ok((_, k)) = node(s, j) {
            if j < k <= s.len() {
                lemma_nodes_end(s, k);
            }
        }
    }
}

/// The tree of a whole document: its single top-level node, or an `html`
/// element without attributes around all of them.
pub open spec fn document(s: Seq<char>) -> Result<Tree, ParseError> {
    match nodes(s, 0) {
        Err(e) => Err(e),
        Ok((ts, _)) => if ts.len() == 1 {
            Ok(ts[0])
        } else {
            Ok(Tree::Element(html_name(), Map::empty(), ts))
        },
    }
}

} // verus!
