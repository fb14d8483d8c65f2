//! Properties of whole documents that follow from the grammar.
use crate::chars::{is_name_char, is_white_space, lemma_run_end_bounds, run_end};
use crate::dom::{Node, Tree};
use crate::grammar::{
    at_close, attrs, document, element, expect, lemma_attrs, lemma_nodes_end, name_char_pred, node, nodes, other_than, white_space_pred,
    ws_end, ParseError,
};
use vstd::prelude::*;

verus! {

/// A tag name: one or more ASCII letters or digits.
pub open spec fn is_tag_name(t: Seq<char>) -> bool {
    t.len() > 0 && forall|k: int| 0 <= k < t.len() ==> is_name_char(#[trigger] t[k])
}

/// `<t></t>`.
pub open spec fn empty_element_text(t: Seq<char>) -> Seq<char> {
    seq!['<'] + t + seq!['>', '<', '/'] + t + seq!['>']
}

proof fn lemma_run_end_exact(s: Seq<char>, i: int, j: int, p: spec_fn(char) -> bool)
    requires
        0 <= i <= j <= s.len(),
        forall|k: int| i <= k < j ==> p(#[trigger] s[k]),
        j == s.len() || !p(s[j]),
    ensures
        run_end(s, i, p) == j,
    decreases j - i,
{
    if i < j {
        lemma_run_end_exact(s, i + 1, j, p);
    }
}

/// Parsing is a function of the text: two trees that `parse` may return for
/// the same text are the same tree.
pub proof fn parse_is_deterministic(a: String, b: String, ta: Node, tb: Node)
    requires
        a@ == b@,
        document(a@) == Ok::<Tree, ParseError>(ta@),
        document(b@) == Ok::<Tree, ParseError>(tb@),
    ensures
        ta@ == tb@,
{
}

/// An element whose closing tag repeats its opening tag's name parses, and
/// the root is that element, with its name.
pub proof fn matching_tags_parse(t: Seq<char>)
    requires
        is_tag_name(t),
    ensures
        document(empty_element_text(t)) == Ok::<Tree, ParseError>(
            Tree::Element(t, Map::empty(), Seq::empty()),
        ),
{
    let s = empty_element_text(t);
    let n = t.len() as int;
    assert(s.len() == 2 * n + 5);
    assert(s[0] == '<');
    assert forall|k: int| 1 <= k < 1 + n implies #[trigger] s[k] == t[k - 1] by {}
    assert(s[1 + n] == '>');
    assert(s[2 + n] == '<');
    assert(s[3 + n] == '/');
    assert forall|k: int| 4 + n <= k < 4 + 2 * n implies #[trigger] s[k] == t[k - 4 - n] by {}
    assert(s[4 + 2 * n] == '>');
    // Positions of the parse.
    lemma_run_end_exact(s, 0, 0, white_space_pred());
    assert(!at_close(s, 0));
    lemma_run_end_exact(s, 1, 1 + n, name_char_pred());
    assert(s.subrange(1, 1 + n) =~= t);
    lemma_run_end_exact(s, 1 + n, 1 + n, white_space_pred());
    assert(attrs(s, 1 + n, Map::empty()) == Ok::<(Map<Seq<char>, Seq<char>>, int), ParseError>(
        (Map::empty(), 1 + n),
    ));
    lemma_run_end_exact(s, 2 + n, 2 + n, white_space_pred());
    assert(at_close(s, 2 + n));
    assert(nodes(s, 2 + n) == Ok::<(Seq<Tree>, int), ParseError>((Seq::empty(), 2 + n)));
    lemma_run_end_exact(s, 4 + n, 4 + 2 * n, name_char_pred());
    assert(s.subrange(4 + n, 4 + 2 * n) =~= t);
    let e = Tree::Element(t, Map::empty(), Seq::empty());
    assert(element(s, 0) == Ok::<(Tree, int), ParseError>((e, 5 + 2 * n)));
    assert(node(s, 0) == Ok::<(Tree, int), ParseError>((e, 5 + 2 * n)));
    lemma_run_end_exact(s, 5 + 2 * n, 5 + 2 * n, white_space_pred());
    assert(nodes(s, 5 + 2 * n) == Ok::<(Seq<Tree>, int), ParseError>(
        (Seq::empty(), 5 + 2 * n),
    ));
    assert(seq![e] + Seq::<Tree>::empty() =~= seq![e]);
    assert(nodes(s, 0) == Ok::<(Seq<Tree>, int), ParseError>((seq![e], 5 + 2 * n)));
}

/// `<t1></t2` followed by `tail`.
pub open spec fn mismatched_text(t1: Seq<char>, t2: Seq<char>, tail: Seq<char>) -> Seq<char> {
    seq!['<'] + t1 + seq!['>', '<', '/'] + t2 + tail
}

/// An element whose closing tag names another element fails to parse, with
/// `TagMismatch`. The closing name is the whole run of letters and digits
/// after `</`, so `tail` does not start with one.
pub proof fn mismatched_tags_fail(t1: Seq<char>, t2: Seq<char>, tail: Seq<char>)
    requires
        is_tag_name(t1),
        forall|k: int| 0 <= k < t2.len() ==> is_name_char(#[trigger] t2[k]),
        tail.len() > 0 ==> !is_name_char(tail[0]),
        t1 != t2,
    ensures
        document(mismatched_text(t1, t2, tail)) == Err::<Tree, ParseError>(ParseError::TagMismatch),
{
    let s = mismatched_text(t1, t2, tail);
    let n = t1.len() as int;
    let m = t2.len() as int;
    assert(s.len() == n + m + 4 + tail.len());
    assert(s[0] == '<');
    assert forall|k: int| 1 <= k < 1 + n implies #[trigger] s[k] == t1[k - 1] by {}
    assert(s[1 + n] == '>');
    assert(s[2 + n] == '<');
    assert(s[3 + n] == '/');
    assert forall|k: int| 4 + n <= k < 4 + n + m implies #[trigger] s[k] == t2[k - 4 - n] by {}
    if tail.len() > 0 {
        assert(s[4 + n + m] == tail[0]);
    }
    lemma_run_end_exact(s, 0, 0, white_space_pred());
    assert(!at_close(s, 0));
    lemma_run_end_exact(s, 1, 1 + n, name_char_pred());
    assert(s.subrange(1, 1 + n) =~= t1);
    lemma_run_end_exact(s, 1 + n, 1 + n, white_space_pred());
    assert(attrs(s, 1 + n, Map::empty()) == Ok::<(Map<Seq<char>, Seq<char>>, int), ParseError>(
        (Map::empty(), 1 + n),
    ));
    lemma_run_end_exact(s, 2 + n, 2 + n, white_space_pred());
    assert(at_close(s, 2 + n));
    assert(nodes(s, 2 + n) == Ok::<(Seq<Tree>, int), ParseError>((Seq::empty(), 2 + n)));
    lemma_run_end_exact(s, 4 + n, 4 + n + m, name_char_pred());
    assert(s.subrange(4 + n, 4 + n + m) =~= t2);
    assert(element(s, 0) == Err::<(Tree, int), ParseError>(ParseError::TagMismatch));
    assert(node(s, 0) == Err::<(Tree, int), ParseError>(ParseError::TagMismatch));
}

/// Every element that the parser reads from position `i` has its name right
/// after the `<` there, and ends with `</`, the same name and `>`.
pub proof fn element_names_match(s: Seq<char>, i: int)
    requires
        0 <= i <= s.len(),
    ensures
        element(s, i) matches Ok((Tree::Element(tag, _, _), k)) ==> {
            &&& i + 1 + tag.len() <= s.len()
            &&& s.subrange(i, i + 1 + tag.len()) == seq!['<'] + tag
            &&& 0 <= k - tag.len() - 3
            &&& k <= s.len()
            &&& s.subrange(k - tag.len() - 3, k) == seq!['<', '/'] + tag + seq!['>']
        },
{
    if let Ok((Tree::Element(tag, _, _), k)) = element(s, i) {
        let i1 = i + 1;
        lemma_run_end_bounds(s, i1, name_char_pred());
        let n = run_end(s, i1, name_char_pred());
        assert(s.subrange(i, i + 1 + tag.len()) =~= seq!['<'] + tag) by {
            assert(tag == s.subrange(i1, n));
        }
        lemma_attrs(s, n, Map::empty());
        let i2 = attrs(s, n, Map::empty())->Ok_0.1;
        let i4 = nodes(s, i2 + 1)->Ok_0.1;
        lemma_nodes_end(s, i2 + 1);
        assert(expect(s, i4, '<') == Ok::<int, ParseError>(i4 + 1));
        assert(expect(s, i4 + 1, '/') == Ok::<int, ParseError>(i4 + 2));
        let i6 = i4 + 2;
        lemma_run_end_bounds(s, i6, name_char_pred());
        let n2 = run_end(s, i6, name_char_pred());
        assert(s.subrange(i6, n2) == tag);
        assert(k == n2 + 1);
        assert(s.subrange(i4, k) =~= seq!['<', '/'] + tag + seq!['>']) by {
            assert(s[i4] == '<');
            assert(s[i4 + 1] == '/');
            assert(s[k - 1] == '>');
        }
    }
}

/// No text node of a node list is empty or starts with white space: white
/// space before a node, between elements say, is skipped and never becomes
/// a node of its own.
pub proof fn no_blank_text_nodes(s: Seq<char>, i: int)
    requires
        0 <= i <= s.len(),
    ensures
        nodes(s, i) matches Ok((ts, _)) ==> forall|k: int|
            0 <= k < ts.len() ==> (#[trigger] ts[k] matches Tree::Text(c) ==> c.len() > 0
                && !is_white_space(c[0])),
    decreases s.len() - i,
{
    lemma_run_end_bounds(s, i, white_space_pred());
    let j = ws_end(s, i);
    if j < s.len() && !at_close(s, j) {
        if s[j] != '<' {
            lemma_run_end_bounds(s, j, other_than('<'));
        }
        if let Ok((t, k)) = node(s, j) {
            if j < k <= s.len() {
                no_blank_text_nodes(s, k);
                if let Ok((ts, m)) = nodes(s, k) {
                    let all = seq![t] + ts;
                    assert forall|x: int| 0 <= x < all.len() implies (#[trigger] all[x] matches Tree::Text(
                        c,
                    ) ==> c.len() > 0 && !is_white_space(c[0])) by {
                        if x > 0 {
                            assert(all[x] == ts[x - 1]);
                        }
                    }
                }
            }
        }
    }
}

} // verus!
