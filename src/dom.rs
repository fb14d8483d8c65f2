use crate::chars::{chars_of, string_from_chars};
use vstd::prelude::*;
use vstd::slice::slice_subrange;

verus! {

/// The mathematical shape of a node: a text leaf, or an element with its tag
/// name, its attributes and its children in order.
pub enum Tree {
    Text(Seq<char>),
    Element(Seq<char>, Map<Seq<char>, Seq<char>>, Seq<Tree>),
}

/// The map that a list of name/value pairs describes when each pair is
/// inserted in turn, so that a later pair overrides an earlier one.
pub open spec fn pairs_map(p: Seq<(Seq<char>, Seq<char>)>) -> Map<Seq<char>, Seq<char>>
    decreases p.len(),
{
    if p.len() == 0 {
        Map::empty()
    } else {
        pairs_map(p.drop_last()).insert(p.last().0, p.last().1)
    }
}

pub open spec fn keys_distinct(p: Seq<(Seq<char>, Seq<char>)>) -> bool {
    forall|i: int, j: int| 0 <= i < j < p.len() ==> #[trigger] p[i].0 != #[trigger] p[j].0
}

proof fn lemma_pairs_map(p: Seq<(Seq<char>, Seq<char>)>)
    requires
        keys_distinct(p),
    ensures
        forall|k: Seq<char>| #[trigger]
            pairs_map(p).contains_key(k) ==> exists|i: int| 0 <= i < p.len() && p[i].0 == k,
        forall|i: int|
            0 <= i < p.len() ==> pairs_map(p).contains_key(#[trigger] p[i].0) && pairs_map(p)[p[i].0]
                == p[i].1,
    decreases p.len(),
{
    if p.len() > 0 {
        let q = p.drop_last();
        assert(keys_distinct(q));
        lemma_pairs_map(q);
        assert forall|k: Seq<char>| #[trigger] pairs_map(p).contains_key(k) implies exists|i: int|
            0 <= i < p.len() && p[i].0 == k by {
            if k == p.last().0 {
                assert(p[p.len() - 1].0 == k);
            } else {
                assert(pairs_map(q).contains_key(k));
                let i = choose|i: int| 0 <= i < q.len() && q[i].0 == k;
                assert(p[i].0 == k);
            }
        }
        assert forall|i: int| 0 <= i < p.len() implies pairs_map(p).contains_key(#[trigger] p[i].0)
            && pairs_map(p)[p[i].0] == p[i].1 by {
            if i < q.len() {
                assert(q[i] == p[i]);
                assert(p[i].0 != p[p.len() - 1].0);
            }
        }
    }
}

/// The views of name/value pairs of strings.
pub open spec fn pairs_of(es: Seq<(String, String)>) -> Seq<(Seq<char>, Seq<char>)> {
    es.map_values(|e: (String, String)| (e.0@, e.1@))
}

/// An attribute map: names to values, each name at most once.
#[derive(Debug)]
pub struct AttrMap {
    entries: Vec<(String, String)>,
}

impl AttrMap {
    pub closed spec fn view(&self) -> Map<Seq<char>, Seq<char>> {
        pairs_map(pairs_of(self.entries@))
    }

    #[verifier::type_invariant]
    closed spec fn names_unique(self) -> bool {
        keys_distinct(pairs_of(self.entries@))
    }

    /// An empty map.
    pub fn new() -> (r: AttrMap)
        ensures
            r@ == Map::<Seq<char>, Seq<char>>::empty(),
    {
        let entries: Vec<(String, String)> = Vec::new();
        assert(pairs_of(entries@) =~= Seq::empty());
        AttrMap { entries }
    }

    /// Sets `name` to `value`, replacing the value it had.
    pub fn insert(&mut self, name: String, value: String)
        ensures
            final(self)@ == old(self)@.insert(name@, value@),
    {
        let mut taken = AttrMap::new();
        std::mem::swap(self, &mut taken);
        proof {
            use_type_invariant(&taken);
        }
        let mut entries = taken.entries;
        let ghost p = pairs_of(entries@);
        assert(old(self)@ == pairs_map(p));
        let n = entries.len();
        let mut i: usize = 0;
        while i < n
            invariant
                n == entries.len(),
                p == pairs_of(entries@),
                old(self)@ == pairs_map(p),
                keys_distinct(p),
                0 <= i <= n,
                forall|j: int| 0 <= j < i ==> #[trigger] p[j].0 != name@,
            decreases n - i,
        {
            if entries[i].0 == name {
                assert(p[i as int].0 == name@);
                proof {
                    lemma_pairs_map(p);
                }
                let ghost q = p.update(i as int, (name@, value@));
                entries.set(i, (name, value));
                assert(pairs_of(entries@) =~= q);
                assert(keys_distinct(q)) by {
                    assert forall|a: int, b: int| 0 <= a < b < q.len() implies #[trigger] q[a].0
                        != #[trigger] q[b].0 by {
                        assert(p[a].0 != p[b].0);
                    }
                }
                proof {
                    lemma_pairs_map(q);
                }
                assert(pairs_map(q) =~= old(self)@.insert(name@, value@)) by {
                    assert forall|k: Seq<char>| #[trigger]
                        pairs_map(q).contains_key(k) <==> old(self)@.insert(name@, value@).contains_key(
                            k,
                        ) by {
                        if pairs_map(q).contains_key(k) {
                            let j = choose|j: int| 0 <= j < q.len() && q[j].0 == k;
                            assert(p[j].0 == k);
                        }
                        if old(self)@.contains_key(k) {
                            let j = choose|j: int| 0 <= j < p.len() && p[j].0 == k;
                            assert(q[j].0 == k);
                        }
                    }
                    assert forall|k: Seq<char>| #[trigger]
                        pairs_map(q).contains_key(k) implies pairs_map(q)[k] == old(self)@.insert(
                            name@,
                            value@,
                        )[k] by {
                        let j = choose|j: int| 0 <= j < q.len() && q[j].0 == k;
                        if j != i {
                            assert(p[j] == q[j]);
                        }
                    }
                }
                *self = AttrMap { entries };
                return ;
            }
            i = i + 1;
        }
        entries.push((name, value));
        assert(pairs_of(entries@) =~= p.push((name@, value@)));
        assert(pairs_of(entries@).drop_last() =~= p);
        *self = AttrMap { entries };
    }

    /// The value of `name`, if the map has it.
    pub fn get(&self, name: &str) -> (r: Option<&String>)
        ensures
            match r {
                Some(v) => self@.contains_key(name@) && self@[name@] == v@,
                None => !self@.contains_key(name@),
            },
    {
        proof {
            use_type_invariant(self);
        }
        let ghost p = pairs_of(self.entries@);
        let key = name.to_owned();
        let n = self.entries.len();
        let mut i: usize = 0;
        while i < n
            invariant
                n == self.entries.len(),
                key@ == name@,
                p == pairs_of(self.entries@),
                keys_distinct(p),
                0 <= i <= n,
                forall|j: int| 0 <= j < i ==> #[trigger] p[j].0 != name@,
            decreases n - i,
        {
            if self.entries[i].0 == key {
                assert(p[i as int] == (self.entries@[i as int].0@, self.entries@[
                    i as int].1@));
                assert(p[i as int].0 == name@);
                proof {
                    lemma_pairs_map(p);
                    let ii = i as int;
                    assert(pairs_map(p).contains_key(p[ii].0));
                }
                return Some(&self.entries[i].1);
            }
            i = i + 1;
        }
        proof {
            lemma_pairs_map(p);
        }
        None
    }

    /// The number of names in the map.
    pub fn len(&self) -> (r: usize)
        ensures
            r == self@.len(),
    {
        proof {
            use_type_invariant(self);
            lemma_pairs_len(pairs_of(self.entries@));
        }
        self.entries.len()
    }
}

proof fn lemma_pairs_len(p: Seq<(Seq<char>, Seq<char>)>)
    requires
        keys_distinct(p),
    ensures
        pairs_map(p).dom().finite(),
        pairs_map(p).len() == p.len(),
    decreases p.len(),
{
    if p.len() > 0 {
        let q = p.drop_last();
        assert(keys_distinct(q));
        lemma_pairs_len(q);
        lemma_pairs_map(q);
        assert(!pairs_map(q).contains_key(p.last().0)) by {
            if pairs_map(q).contains_key(p.last().0) {
                let i = choose|i: int| 0 <= i < q.len() && q[i].0 == p.last().0;
                assert(p[i].0 == p[p.len() - 1].0);
            }
        }
    }
}

/// A node of the document tree.
#[derive(Debug)]
pub struct Node {
    pub children: Vec<Node>,
    pub node_type: NodeType,
}

/// What a node is: a run of text, or an element.
#[derive(Debug)]
pub enum NodeType {
    Text(String),
    Element(ElementData),
}

/// The tag name and the attributes of an element.
#[derive(Debug)]
pub struct ElementData {
    pub tag_name: String,
    pub attributes: AttrMap,
}

impl Node {
    pub open spec fn view(&self) -> Tree
        decreases self,
    {
        match &self.node_type {
            NodeType::Text(t) => Tree::Text(t@),
            NodeType::Element(e) => Tree::Element(
                e.tag_name@,
                e.attributes@,
                Seq::new(
                    self.children.len() as nat,
                    |i: int|
                        if 0 <= i < self.children.len() {
                            self.children[i].view()
                        } else {
                            Tree::Text(Seq::empty())
                        },
                ),
            ),
        }
    }

    /// Text leaves have no children.
    pub open spec fn wf(&self) -> bool
        decreases self,
    {
        match &self.node_type {
            NodeType::Text(_) => self.children.len() == 0,
            NodeType::Element(_) => forall|i: int|
                0 <= i < self.children.len() ==> (#[trigger] self.children[i]).wf(),
        }
    }
}

/// The trees of a sequence of nodes.
pub open spec fn views(nodes: Seq<Node>) -> Seq<Tree> {
    nodes.map_values(|n: Node| n@)
}

/// A text node holding `data`.
pub fn text(data: String) -> (r: Node)
    ensures
        r@ == Tree::Text(data@),
        r.wf(),
{
    Node { children: Vec::new(), node_type: NodeType::Text(data) }
}

/// An element node with the given tag name, attributes and children.
pub fn elem(tag_name: String, attributes: AttrMap, children: Vec<Node>) -> (r: Node)
    ensures
        r@ == Tree::Element(tag_name@, attributes@, views(children@)),
        r.wf() <==> forall|i: int|
            0 <= i < children.len() ==> (#[trigger] children[i]).wf(),
{
    let r = Node {
        children,
        node_type: NodeType::Element(ElementData { tag_name, attributes }),
    };
    assert(r@ == Tree::Element(tag_name@, attributes@, views(children@))) by {
        if let Tree::Element(_, _, cs) = r@ {
            assert(cs =~= views(children@));
        }
    }
    r
}

/// The pieces of `s` between single spaces, in order, as splitting at each
/// space gives them: one more piece than `s` has spaces, empty ones included.
pub open spec fn split_spaces(s: Seq<char>) -> Seq<Seq<char>>
    decreases s.len(),
{
    if s.len() == 0 {
        seq![Seq::empty()]
    } else {
        let init = split_spaces(s.drop_last());
        if s.last() == ' ' {
            init.push(Seq::empty())
        } else {
            init.update(init.len() - 1, init.last().push(s.last()))
        }
    }
}

pub open spec fn id_name() -> Seq<char> {
    seq!['i', 'd']
}

pub open spec fn class_name() -> Seq<char> {
    seq!['c', 'l', 'a', 's', 's']
}

/// The class names that an attribute map gives: the pieces of its `class`
/// value, or none where it has no `class`.
pub open spec fn class_set(attrs: Map<Seq<char>, Seq<char>>) -> Set<Seq<char>> {
    if attrs.contains_key(class_name()) {
        split_spaces(attrs[class_name()]).to_set()
    } else {
        Set::empty()
    }
}

pub open spec fn string_views(v: Seq<String>) -> Seq<Seq<char>> {
    v.map_values(|s: String| s@)
}

/// Adds `s` to `out` unless a string equal to it is there already.
fn add_unique(out: &mut Vec<String>, s: String)
    requires
        string_views(old(out)@).no_duplicates(),
    ensures
        string_views(final(out)@).no_duplicates(),
        string_views(final(out)@).to_set() == string_views(old(out)@).to_set().insert(s@),
{
    let n = out.len();
    let mut i: usize = 0;
    while i < n
        invariant
            n == out.len(),
            out@ == old(out)@,
            string_views(out@).no_duplicates(),
            0 <= i <= n,
            forall|j: int| 0 <= j < i ==> out@[j]@ != s@,
        decreases n - i,
    {
        if out[i] == s {
            assert(string_views(out@)[i as int] == s@);
            assert(string_views(out@).to_set() =~= string_views(out@).to_set().insert(s@));
            return ;
        }
        i = i + 1;
    }
    let ghost before = string_views(out@);
    out.push(s);
    assert(string_views(out@) =~= before.push(s@));
    proof {
        before.lemma_push_to_set_commute(s@);
    }
}

impl ElementData {
    /// The value of the `id` attribute, if there is one.
    pub fn id(&self) -> (r: Option<&String>)
        ensures
            match r {
                Some(v) => self.attributes@.contains_key(id_name()) && self.attributes@[id_name()]
                    == v@,
                None => !self.attributes@.contains_key(id_name()),
            },
    {
        proof {
            reveal_strlit("id");
            assert("id"@ =~= id_name());
        }
        self.attributes.get("id")
    }

    /// The class names of the element, each once: the pieces of the `class`
    /// attribute between single spaces, or none where there is no `class`.
    pub fn classes(&self) -> (r: Vec<String>)
        ensures
            string_views(r@).no_duplicates(),
            string_views(r@).to_set() == class_set(self.attributes@),
    {
        proof {
            reveal_strlit("class");
            assert("class"@ =~= class_name());
        }
        let value = match self.attributes.get("class") {
            Some(v) => v,
            None => {
                let r: Vec<String> = Vec::new();
                assert(string_views(r@).to_set() =~= Set::empty());
                return r;
            },
        };
        let cs = chars_of(value.as_str());
        let mut out: Vec<String> = Vec::new();
        let ghost mut emitted: Seq<Seq<char>> = Seq::empty();
        let mut start: usize = 0;
        let mut k: usize = 0;
        assert(cs@.subrange(0, 0) =~= Seq::<char>::empty());
        assert(string_views(out@) =~= Seq::<Seq<char>>::empty());
        assert(split_spaces(cs@.subrange(0, 0)) =~= emitted.push(cs@.subrange(0, 0)));
        while k < cs.len()
            invariant
                0 <= start <= k <= cs.len(),
                split_spaces(cs@.subrange(0, k as int)) == emitted.push(
                    cs@.subrange(start as int, k as int),
                ),
                string_views(out@).no_duplicates(),
                string_views(out@).to_set() == emitted.to_set(),
            decreases cs.len() - k,
        {
            let ghost prefix = cs@.subrange(0, k as int + 1);
            assert(prefix.drop_last() =~= cs@.subrange(0, k as int));
            if cs[k] == ' ' {
                let piece = string_from_chars(slice_subrange(cs.as_slice(), start, k));
                let ghost old_emitted = emitted;
                add_unique(&mut out, piece);
                proof {
                    emitted = emitted.push(piece@);
                    old_emitted.lemma_push_to_set_commute(piece@);
                    assert(cs@.subrange(k as int + 1, k as int + 1) =~= Seq::<char>::empty());
                    assert(split_spaces(prefix) =~= emitted.push(Seq::empty()));
                }
                start = k + 1;
            } else {
                proof {
                    assert(cs@.subrange(start as int, k as int + 1) =~= cs@.subrange(
                        start as int,
                        k as int,
                    ).push(cs@[k as int]));
                    assert(split_spaces(prefix) =~= emitted.push(
                        cs@.subrange(start as int, k as int + 1),
                    ));
                }
            }
            k = k + 1;
        }
        let piece = string_from_chars(slice_subrange(cs.as_slice(), start, k));
        add_unique(&mut out, piece);
        proof {
            assert(cs@.subrange(0, k as int) =~= value@);
            let all = emitted.push(piece@);
            emitted.lemma_push_to_set_commute(piece@);
        }
        out
    }
}

} // verus!
