//! The node graph: tagged node variants held in an arena, addressed by index,
//! with forward child lists and non-owning parent back-references.
use vstd::prelude::*;
use vstd::string::*;

verus! {

/// A qualified name: optional prefix, namespace and local name.
#[derive(Clone, Debug)]
pub struct QualName {
    pub prefix: Option<String>,
    pub ns: String,
    pub local: String,
}

/// One attribute of an element, in the order the builder presented it.
#[derive(Clone, Debug)]
pub struct Attribute {
    pub name: QualName,
    pub value: String,
}

/// The payload of a node.
#[derive(Debug)]
pub enum NodeData {
    Document,
    Element { name: QualName, attrs: Vec<Attribute> },
    Text { contents: String },
    Comment { contents: String },
    Doctype { name: String, public_id: String, system_id: String },
}

/// A node of the arena. `parent` is an observational back-reference: it may
/// be stale after a removal, and only `children` lists carry structure.
#[derive(Debug)]
pub struct Node {
    pub data: NodeData,
    pub parent: Option<usize>,
    pub children: Vec<usize>,
}

/// The arena of nodes; `root` is the index of the single Document node.
#[derive(Debug)]
pub struct Document {
    pub nodes: Vec<Node>,
    pub root: usize,
}

impl Document {
    pub open spec fn valid(&self, i: int) -> bool {
        0 <= i < self.nodes@.len()
    }

    pub open spec fn kids(&self, i: int) -> Seq<usize> {
        self.nodes@[i].children@
    }

    pub open spec fn parent_of(&self, i: int) -> Option<usize> {
        self.nodes@[i].parent
    }

    /// Node `c` occurs in the child list of some node.
    pub open spec fn attached(&self, c: int) -> bool {
        exists|p: int, j: int|
            self.valid(p) && 0 <= j < self.kids(p).len() && #[trigger] self.nodes@[p].children@[j]
                == c
    }

    /// Well-formedness: every child index is in range, every child's parent
    /// back-reference names the node whose list holds it (so a node sits in at
    /// most one list), no list repeats a node, and the root is never a child.
    pub open spec fn wf(&self) -> bool {
        &&& self.valid(self.root as int)
        &&& self.nodes@[self.root as int].data is Document
        &&& forall|i: int, j: int|
            #![trigger self.nodes@[i].children@[j]]
            self.valid(i) && 0 <= j < self.kids(i).len() ==> {
                let c = self.nodes@[i].children@[j];
                &&& self.valid(c as int)
                &&& self.parent_of(c as int) == Some(i as usize)
                &&& c != self.root
            }
        &&& forall|i: int, j: int, k: int|
            self.valid(i) && 0 <= j < k < self.kids(i).len() ==> #[trigger] self.nodes@[i].children@[j]
                != #[trigger] self.nodes@[i].children@[k]
        &&& forall|i: int|
            self.valid(i) && (#[trigger] self.parent_of(i)) is Some ==> self.valid(
                self.parent_of(i)->0 as int,
            )
    }

    /// All nodes other than `a` and `b` are left as they were.
    pub open spec fn same_except(&self, old: &Document, a: int, b: int) -> bool {
        &&& self.root == old.root
        &&& self.nodes@.len() == old.nodes@.len()
        &&& forall|i: int| old.valid(i) && i != a && i != b ==> #[trigger] self.nodes@[i] == old.nodes@[i]
    }

    /// Text of the Text nodes at and below `n`, depth first, looking at most
    /// `fuel` levels down.
    pub open spec fn text_of(&self, n: int, fuel: nat) -> Seq<char>
        decreases fuel, 0nat,
    {
        if fuel == 0 || !self.valid(n) {
            seq![]
        } else {
            match self.nodes@[n].data {
                NodeData::Text { contents } => contents@,
                _ => self.texts_of(self.kids(n), (fuel - 1) as nat),
            }
        }
    }

    pub open spec fn texts_of(&self, cs: Seq<usize>, fuel: nat) -> Seq<char>
        decreases fuel, cs.len(),
    {
        if cs.len() == 0 {
            seq![]
        } else {
            self.texts_of(cs.drop_last(), fuel) + self.text_of(cs.last() as int, fuel)
        }
    }

    /// The text content of node `n`, looking as deep as the arena has nodes.
    /// As long as no node has been placed below itself, no path down from `n`
    /// is that long, so the bound never cuts the subtree short.
    pub open spec fn text_content(&self, n: int) -> Seq<char> {
        self.text_of(n, self.nodes@.len())
    }

    /// Pre-order list of the nodes at and below `n`, at most `fuel` levels down.
    pub open spec fn preorder(&self, n: int, fuel: nat) -> Seq<usize>
        decreases fuel, 0nat,
    {
        if fuel == 0 || !self.valid(n) {
            seq![]
        } else {
            seq![n as usize] + self.preorder_list(self.kids(n), (fuel - 1) as nat)
        }
    }

    pub open spec fn preorder_list(&self, cs: Seq<usize>, fuel: nat) -> Seq<usize>
        decreases fuel, cs.len(),
    {
        if cs.len() == 0 {
            seq![]
        } else {
            self.preorder_list(cs.drop_last(), fuel) + self.preorder(cs.last() as int, fuel)
        }
    }

    /// Node `n` is an element whose local name equals `tag` up to ASCII case.
    pub open spec fn name_matches(&self, n: int, tag: Seq<char>) -> bool {
        &&& self.nodes@[n].data is Element
        &&& eq_ignore_ascii_case_spec(self.nodes@[n].data->Element_name.local@, tag)
    }

    /// Pre-order list of the elements at and below `n` named `tag` (ASCII
    /// case folded), at most `fuel` levels down.
    pub open spec fn elems_of(&self, n: int, tag: Seq<char>, fuel: nat) -> Seq<usize>
        decreases fuel, 0nat,
    {
        if fuel == 0 || !self.valid(n) {
            seq![]
        } else {
            (if self.name_matches(n, tag) {
                seq![n as usize]
            } else {
                seq![]
            }) + self.elems_list(self.kids(n), tag, (fuel - 1) as nat)
        }
    }

    pub open spec fn elems_list(&self, cs: Seq<usize>, tag: Seq<char>, fuel: nat) -> Seq<usize>
        decreases fuel, cs.len(),
    {
        if cs.len() == 0 {
            seq![]
        } else {
            self.elems_list(cs.drop_last(), tag, fuel) + self.elems_of(cs.last() as int, tag, fuel)
        }
    }
}

/// ASCII case folding of one character, as a code point.
pub open spec fn ascii_fold(c: char) -> u32 {
    if 65 <= (c as u32) <= 90 {
        ((c as u32) + 32) as u32
    } else {
        c as u32
    }
}

/// Two strings are equal once ASCII letters are folded to lower case.
pub open spec fn eq_ignore_ascii_case_spec(a: Seq<char>, b: Seq<char>) -> bool {
    &&& a.len() == b.len()
    &&& forall|i: int| 0 <= i < a.len() ==> ascii_fold(#[trigger] a[i]) == ascii_fold(b[i])
}

/// Compares two strings, folding ASCII letters to lower case.
pub fn eq_ignore_ascii_case(a: &str, b: &str) -> (r: bool)
    ensures
        r == eq_ignore_ascii_case_spec(a@, b@),
{
    let n = a.unicode_len();
    if n != b.unicode_len() {
        return false;
    }
    let mut i: usize = 0;
    while i < n
        invariant
            n == a@.len(),
            n == b@.len(),
            i <= n,
            forall|k: int| 0 <= k < i ==> ascii_fold(#[trigger] a@[k]) == ascii_fold(b@[k]),
        decreases n - i,
    {
        let x = a.get_char(i) as u32;
        let y = b.get_char(i) as u32;
        let fx: u32 = if 65 <= x && x <= 90 { x + 32 } else { x };
        let fy: u32 = if 65 <= y && y <= 90 { y + 32 } else { y };
        if fx != fy {
            return false;
        }
        i += 1;
    }
    true
}

/// `new` is `old` with `c` placed just before the first `reference`, or at the
/// end when `reference` does not occur.
pub open spec fn inserted_before(new: Seq<usize>, old: Seq<usize>, c: usize, reference: usize) -> bool {
    if old.contains(reference) {
        exists|k: int| 0 <= k < old.len() && old[k] == reference && new == old.insert(k, c)
    } else {
        new == old.push(c)
    }
}

/// Index of the first occurrence of `x` in `v`.
pub(crate) fn position_of(v: &Vec<usize>, x: usize) -> (r: Option<usize>)
    ensures
        match r {
            Some(i) => i < v@.len() && v@[i as int] == x && forall|k: int| 0 <= k < i ==> v@[k] != x,
            None => !v@.contains(x),
        },
{
    let mut i: usize = 0;
    while i < v.len()
        invariant
            i <= v@.len(),
            forall|k: int| 0 <= k < i ==> v@[k] != x,
        decreases v@.len() - i,
    {
        if v[i] == x {
            return Some(i);
        }
        i += 1;
    }
    None
}

impl Document {
    /// A document holding only its root.
    pub fn new() -> (d: Document)
        ensures
            d.wf(),
            d.nodes@.len() == 1,
            d.root == 0,
            d.kids(0) == Seq::<usize>::empty(),
            d.parent_of(0) is None,
    {
        let root = Node { data: NodeData::Document, parent: None, children: Vec::new() };
        let mut nodes: Vec<Node> = Vec::new();
        nodes.push(root);
        Document { nodes, root: 0 }
    }

    /// Whether node `c` currently sits in some node's child list. Under
    /// well-formedness this is a look at `c`'s back-reference alone.
    pub fn is_attached(&self, c: usize) -> (r: bool)
        requires
            self.wf(),
            self.valid(c as int),
        ensures
            r == self.attached(c as int),
    {
        match self.nodes[c].parent {
            None => {
                proof {
                    if self.attached(c as int) {
                        let (p, j) = choose|p: int, j: int|
                            self.valid(p) && 0 <= j < self.kids(p).len()
                                && #[trigger] self.nodes@[p].children@[j] == c;
                        assert(self.nodes@[p].children@[j] == c);
                    }
                }
                false
            },
            Some(p) => {
                assert(self.parent_of(c as int) == Some(p));
                let found = position_of(&self.nodes[p].children, c);
                proof {
                    if self.attached(c as int) {
                        let (q, j) = choose|q: int, j: int|
                            self.valid(q) && 0 <= j < self.kids(q).len()
                                && #[trigger] self.nodes@[q].children@[j] == c;
                        assert(self.nodes@[q].children@[j] == c);
                        assert(self.nodes.len() == self.nodes@.len());
                        assert(q == p);
                        assert(self.kids(p as int).contains(c));
                    }
                    if let Some(j) = found {
                        assert(self.nodes@[p as int].children@[j as int] == c);
                    }
                }
                found.is_some()
            },
        }
    }

    /// All elements of the document whose local name equals `tag_name` up to
    /// ASCII case, in document order.
    pub fn get_elements_by_tag_name(&self, tag_name: &str) -> (r: Vec<usize>)
        requires
            self.wf(),
        ensures
            r@ == self.elems_of(self.root as int, tag_name@, self.nodes@.len()),
    {
        let mut results: Vec<usize> = Vec::new();
        self.collect_elements_by_tag_name(self.root, tag_name, &mut results, self.nodes.len());
        results
    }

    fn collect_elements_by_tag_name(
        &self,
        node: usize,
        tag_name: &str,
        results: &mut Vec<usize>,
        fuel: usize,
    )
        requires
            self.wf(),
            self.valid(node as int),
        ensures
            final(results)@ == old(results)@ + self.elems_of(node as int, tag_name@, fuel as nat),
        decreases fuel,
    {
        if fuel == 0 {
            return;
        }
        if let Some(name) = self.nodes[node].element_name() {
            if eq_ignore_ascii_case(name, tag_name) {
                results.push(node);
            }
        }
        let ghost mid = results@;
        let mut i: usize = 0;
        while i < self.nodes[node].children.len()
            invariant
                self.wf(),
                self.valid(node as int),
                fuel > 0,
                i <= self.kids(node as int).len(),
                results@ == mid + self.elems_list(
                    self.kids(node as int).take(i as int),
                    tag_name@,
                    (fuel - 1) as nat,
                ),
            decreases self.kids(node as int).len() - i,
        {
            let c = self.nodes[node].children[i];
            assert(self.nodes@[node as int].children@[i as int] == c);
            self.collect_elements_by_tag_name(c, tag_name, results, fuel - 1);
            assert(self.kids(node as int).take(i + 1).drop_last() == self.kids(node as int).take(
                i as int,
            ));
            i += 1;
        }
        assert(self.kids(node as int).take(i as int) == self.kids(node as int));
    }
}

impl Node {
    /// Allocates a detached node holding `data` and returns its index.
    pub fn new(doc: &mut Document, data: NodeData) -> (id: usize)
        requires
            old(doc).wf(),
            old(doc).nodes@.len() < usize::MAX,
        ensures
            final(doc).wf(),
            id == old(doc).nodes@.len(),
            final(doc).nodes@.len() == old(doc).nodes@.len() + 1,
            final(doc).root == old(doc).root,
            forall|i: int| old(doc).valid(i) ==> #[trigger] final(doc).nodes@[i] == old(doc).nodes@[i],
            final(doc).nodes@[id as int].data == data,
            final(doc).parent_of(id as int) is None,
            final(doc).kids(id as int) == Seq::<usize>::empty(),
            !final(doc).attached(id as int),
    {
        let id = doc.nodes.len();
        doc.nodes.push(Node { data, parent: None, children: Vec::new() });
        proof {
            let o = old(doc);
            assert forall|i: int, j: int|
                doc.valid(i) && 0 <= j < doc.kids(i).len() implies {
                    let c = #[trigger] doc.nodes@[i].children@[j];
                    &&& doc.valid(c as int)
                    &&& doc.parent_of(c as int) == Some(i as usize)
                    &&& c != doc.root
                } by {
                assert(i < id);
                assert(o.nodes@[i].children@[j] == doc.nodes@[i].children@[j]);
            }
            assert forall|i: int, j: int, k: int|
                doc.valid(i) && 0 <= j < k < doc.kids(i).len() implies #[trigger] doc.nodes@[i].children@[j]
                    != #[trigger] doc.nodes@[i].children@[k] by {
                assert(o.nodes@[i].children@[j] == doc.nodes@[i].children@[j]);
                assert(o.nodes@[i].children@[k] == doc.nodes@[i].children@[k]);
            }
            assert forall|i: int|
                doc.valid(i) && (#[trigger] doc.parent_of(i)) is Some implies doc.valid(
                    doc.parent_of(i)->0 as int,
                ) by {
                assert(doc.parent_of(i) == o.parent_of(i));
            }
            if doc.attached(id as int) {
                let (p, j) = choose|p: int, j: int|
                    doc.valid(p) && 0 <= j < doc.kids(p).len() && #[trigger] doc.nodes@[p].children@[j]
                        == id;
                assert(o.nodes@[p].children@[j] == doc.nodes@[p].children@[j]);
            }
        }
        id
    }

    /// Appends `child` at the end of `parent`'s children and points its
    /// back-reference at `parent`.
    pub fn append_child(doc: &mut Document, parent: usize, child: usize)
        requires
            old(doc).wf(),
            old(doc).valid(parent as int),
            old(doc).valid(child as int),
            !old(doc).attached(child as int),
            child != old(doc).root,
        ensures
            final(doc).wf(),
            final(doc).same_except(old(doc), parent as int, child as int),
            final(doc).kids(parent as int) == old(doc).kids(parent as int).push(child),
            final(doc).nodes@[parent as int].data == old(doc).nodes@[parent as int].data,
            final(doc).parent_of(child as int) == Some(parent),
            final(doc).nodes@[child as int].data == old(doc).nodes@[child as int].data,
            child != parent ==> final(doc).kids(child as int) == old(doc).kids(child as int),
            child != parent ==> final(doc).parent_of(parent as int) == old(doc).parent_of(parent as int),
    {
        doc.nodes[child].parent = Some(parent);
        doc.nodes[parent].children.push(child);
        proof {
            let o = old(doc);
            assert forall|i: int, j: int|
                doc.valid(i) && 0 <= j < doc.kids(i).len() implies {
                    let c = #[trigger] doc.nodes@[i].children@[j];
                    &&& doc.valid(c as int)
                    &&& doc.parent_of(c as int) == Some(i as usize)
                    &&& c != doc.root
                } by {
                if i == parent && j == o.kids(i).len() {
                } else {
                    assert(o.nodes@[i].children@[j] == doc.nodes@[i].children@[j]);
                    let c = doc.nodes@[i].children@[j];
                    if c == child {
                        assert(o.attached(child as int));
                    }
                }
            }
            assert forall|i: int, j: int, k: int|
                doc.valid(i) && 0 <= j < k < doc.kids(i).len() implies #[trigger] doc.nodes@[i].children@[j]
                    != #[trigger] doc.nodes@[i].children@[k] by {
                if i == parent && k == o.kids(i).len() {
                    assert(o.nodes@[i].children@[j] == doc.nodes@[i].children@[j]);
                } else {
                    assert(o.nodes@[i].children@[j] == doc.nodes@[i].children@[j]);
                    assert(o.nodes@[i].children@[k] == doc.nodes@[i].children@[k]);
                }
            }
            assert forall|i: int|
                doc.valid(i) && (#[trigger] doc.parent_of(i)) is Some implies doc.valid(
                    doc.parent_of(i)->0 as int,
                ) by {
                if i != child {
                    assert(doc.parent_of(i) == o.parent_of(i));
                }
            }
            assert(doc.nodes@[doc.root as int].data is Document);
        }
    }

    /// The local tag name, for an element.
    pub fn element_name(&self) -> (r: Option<&str>)
        ensures
            r is Some <==> self.data is Element,
            r is Some ==> r->0@ == self.data->Element_name.local@,
    {
        match &self.data {
            NodeData::Element { name, .. } => Some(name.local.as_str()),
            _ => None,
        }
    }

    /// The character data, for a Text node.
    pub fn text_content(&self) -> (r: Option<&str>)
        ensures
            r is Some <==> self.data is Text,
            r is Some ==> r->0@ == self.data->Text_contents@,
    {
        match &self.data {
            NodeData::Text { contents } => Some(contents.as_str()),
            _ => None,
        }
    }

    /// Inserts `child` just before `reference` among `parent`'s children, or
    /// at the end when `reference` is not one of them.
    pub fn insert_before(doc: &mut Document, parent: usize, child: usize, reference: usize)
        requires
            old(doc).wf(),
            old(doc).valid(parent as int),
            old(doc).valid(child as int),
            !old(doc).attached(child as int),
            child != old(doc).root,
        ensures
            final(doc).wf(),
            final(doc).same_except(old(doc), parent as int, child as int),
            inserted_before(final(doc).kids(parent as int), old(doc).kids(parent as int), child, reference),
            final(doc).nodes@[parent as int].data == old(doc).nodes@[parent as int].data,
            final(doc).parent_of(child as int) == Some(parent),
            final(doc).nodes@[child as int].data == old(doc).nodes@[child as int].data,
            child != parent ==> final(doc).kids(child as int) == old(doc).kids(child as int),
            child != parent ==> final(doc).parent_of(parent as int) == old(doc).parent_of(parent as int),
    {
        let found = position_of(&doc.nodes[parent].children, reference);
        match found {
            None => {
                Node::append_child(doc, parent, child);
            },
            Some(pos) => {
                doc.nodes[child].parent = Some(parent);
                doc.nodes[parent].children.insert(pos, child);
                proof {
                    let o = old(doc);
                    let ok = o.kids(parent as int);
                    let nk = doc.kids(parent as int);
                    assert(nk == ok.insert(pos as int, child));
                    assert forall|j: int| 0 <= j < nk.len() implies #[trigger] nk[j] == (if j
                        < pos {
                        ok[j]
                    } else if j == pos {
                        child
                    } else {
                        ok[j - 1]
                    }) by {}
                    assert forall|i: int, j: int|
                        doc.valid(i) && 0 <= j < doc.kids(i).len() implies {
                            let c = #[trigger] doc.nodes@[i].children@[j];
                            &&& doc.valid(c as int)
                            &&& doc.parent_of(c as int) == Some(i as usize)
                            &&& c != doc.root
                        } by {
                        if i == parent {
                            if j != pos {
                                let jj = if j < pos { j } else { j - 1 };
                                assert(o.nodes@[i].children@[jj] == nk[j]);
                                if nk[j] == child {
                                    assert(o.attached(child as int));
                                }
                            }
                        } else {
                            assert(o.nodes@[i].children@[j] == doc.nodes@[i].children@[j]);
                            let c = doc.nodes@[i].children@[j];
                            if c == child {
                                assert(o.attached(child as int));
                            }
                        }
                    }
                    assert forall|i: int, j: int, k: int|
                        doc.valid(i) && 0 <= j < k < doc.kids(i).len() implies #[trigger] doc.nodes@[i].children@[j]
                            != #[trigger] doc.nodes@[i].children@[k] by {
                        if i == parent {
                            let jj = if j < pos { j } else { j - 1 };
                            let kk = if k < pos { k } else { k - 1 };
                            if j == pos {
                                assert(o.nodes@[i].children@[kk] == nk[k]);
                                if nk[k] == child {
                                    assert(o.attached(child as int));
                                }
                            } else if k == pos {
                                assert(o.nodes@[i].children@[jj] == nk[j]);
                                if nk[j] == child {
                                    assert(o.attached(child as int));
                                }
                            } else {
                                assert(o.nodes@[i].children@[jj] == nk[j]);
                                assert(o.nodes@[i].children@[kk] == nk[k]);
                            }
                        } else {
                            assert(o.nodes@[i].children@[j] == doc.nodes@[i].children@[j]);
                            assert(o.nodes@[i].children@[k] == doc.nodes@[i].children@[k]);
                        }
                    }
                    assert forall|i: int|
                        doc.valid(i) && (#[trigger] doc.parent_of(i)) is Some implies doc.valid(
                            doc.parent_of(i)->0 as int,
                        ) by {
                        if i != child {
                            assert(doc.parent_of(i) == o.parent_of(i));
                        }
                    }
                    assert(doc.nodes@[doc.root as int].data is Document);
                }
            },
        }
    }

    /// Removes `child` from `parent`'s children; `child`'s back-reference is
    /// left as it was.
    pub fn remove_child(doc: &mut Document, parent: usize, child: usize)
        requires
            old(doc).wf(),
            old(doc).valid(parent as int),
        ensures
            final(doc).wf(),
            final(doc).same_except(old(doc), parent as int, parent as int),
            final(doc).nodes@[parent as int].data == old(doc).nodes@[parent as int].data,
            final(doc).parent_of(parent as int) == old(doc).parent_of(parent as int),
            old(doc).kids(parent as int).contains(child) ==> exists|k: int|
                0 <= k < old(doc).kids(parent as int).len()
                    && old(doc).kids(parent as int)[k] == child
                    && final(doc).kids(parent as int) == old(doc).kids(parent as int).remove(k),
            !old(doc).kids(parent as int).contains(child) ==> final(doc).kids(parent as int)
                == old(doc).kids(parent as int),
            !final(doc).kids(parent as int).contains(child),
    {
        let found = position_of(&doc.nodes[parent].children, child);
        if let Some(pos) = found {
            doc.nodes[parent].children.remove(pos);
            proof {
                let o = old(doc);
                let ok = o.kids(parent as int);
                let nk = doc.kids(parent as int);
                assert(nk == ok.remove(pos as int));
                assert forall|j: int| 0 <= j < nk.len() implies #[trigger] nk[j] == (if j < pos {
                    ok[j]
                } else {
                    ok[j + 1]
                }) by {}
                assert forall|i: int, j: int|
                    doc.valid(i) && 0 <= j < doc.kids(i).len() implies {
                        let c = #[trigger] doc.nodes@[i].children@[j];
                        &&& doc.valid(c as int)
                        &&& doc.parent_of(c as int) == Some(i as usize)
                        &&& c != doc.root
                    } by {
                    if i == parent {
                        let jj = if j < pos { j } else { j + 1 };
                        assert(o.nodes@[i].children@[jj] == nk[j]);
                    } else {
                        assert(o.nodes@[i].children@[j] == doc.nodes@[i].children@[j]);
                    }
                    let c = doc.nodes@[i].children@[j];
                    assert(doc.parent_of(c as int) == o.parent_of(c as int));
                }
                assert forall|i: int, j: int, k: int|
                    doc.valid(i) && 0 <= j < k < doc.kids(i).len() implies #[trigger] doc.nodes@[i].children@[j]
                        != #[trigger] doc.nodes@[i].children@[k] by {
                    if i == parent {
                        let jj = if j < pos { j } else { j + 1 };
                        let kk = if k < pos { k } else { k + 1 };
                        assert(o.nodes@[i].children@[jj] == nk[j]);
                        assert(o.nodes@[i].children@[kk] == nk[k]);
                    } else {
                        assert(o.nodes@[i].children@[j] == doc.nodes@[i].children@[j]);
                        assert(o.nodes@[i].children@[k] == doc.nodes@[i].children@[k]);
                    }
                }
                assert forall|i: int|
                    doc.valid(i) && (#[trigger] doc.parent_of(i)) is Some implies doc.valid(
                        doc.parent_of(i)->0 as int,
                    ) by {
                    assert(doc.parent_of(i) == o.parent_of(i));
                }
                if nk.contains(child) {
                    let j = choose|j: int| 0 <= j < nk.len() && nk[j] == child;
                    let jj = if j < pos { j } else { j + 1 };
                    assert(o.nodes@[parent as int].children@[jj] == child);
                    assert(o.nodes@[parent as int].children@[pos as int] == child);
                }
            }
        }
    }

    /// The concatenated character data of the Text nodes at and below `node`,
    /// in document order.
    pub fn get_text_content(doc: &Document, node: usize) -> (r: String)
        requires
            doc.wf(),
            doc.valid(node as int),
        ensures
            r@ == doc.text_content(node as int),
    {
        let mut text = String::new();
        Node::collect_text(doc, node, doc.nodes.len(), &mut text);
        text
    }

    fn collect_text(doc: &Document, node: usize, fuel: usize, buffer: &mut String)
        requires
            doc.wf(),
            doc.valid(node as int),
        ensures
            final(buffer)@ == old(buffer)@ + doc.text_of(node as int, fuel as nat),
        decreases fuel,
    {
        if fuel == 0 {
            assert(old(buffer)@ + doc.text_of(node as int, 0) == old(buffer)@);
            return;
        }
        match &doc.nodes[node].data {
            NodeData::Text { contents } => {
                buffer.append(contents.as_str());
            },
            _ => {
                let ghost start = buffer@;
                let mut i: usize = 0;
                while i < doc.nodes[node].children.len()
                    invariant
                        doc.wf(),
                        doc.valid(node as int),
                        fuel > 0,
                        i <= doc.kids(node as int).len(),
                        buffer@ == start + doc.texts_of(
                            doc.kids(node as int).take(i as int),
                            (fuel - 1) as nat,
                        ),
                    decreases doc.kids(node as int).len() - i,
                {
                    let c = doc.nodes[node].children[i];
                    assert(doc.nodes@[node as int].children@[i as int] == c);
                    Node::collect_text(doc, c, fuel - 1, buffer);
                    assert(doc.kids(node as int).take(i + 1).drop_last() == doc.kids(
                        node as int,
                    ).take(i as int));
                    i += 1;
                }
                assert(doc.kids(node as int).take(i as int) == doc.kids(node as int));
            },
        }
    }

    /// The nodes at and below `node` in depth-first pre-order: each node
    /// before its children, children left to right.
    pub fn walk(doc: &Document, node: usize) -> (r: Vec<usize>)
        requires
            doc.wf(),
            doc.valid(node as int),
        ensures
            r@ == doc.preorder(node as int, doc.nodes@.len()),
    {
        let mut out: Vec<usize> = Vec::new();
        Node::walk_into(doc, node, doc.nodes.len(), &mut out);
        out
    }

    fn walk_into(doc: &Document, node: usize, fuel: usize, out: &mut Vec<usize>)
        requires
            doc.wf(),
            doc.valid(node as int),
        ensures
            final(out)@ == old(out)@ + doc.preorder(node as int, fuel as nat),
        decreases fuel,
    {
        if fuel == 0 {
            assert(old(out)@ + doc.preorder(node as int, 0) == old(out)@);
            return;
        }
        out.push(node);
        let ghost start = out@;
        let mut i: usize = 0;
        while i < doc.nodes[node].children.len()
            invariant
                doc.wf(),
                doc.valid(node as int),
                fuel > 0,
                i <= doc.kids(node as int).len(),
                out@ == start + doc.preorder_list(doc.kids(node as int).take(i as int), (fuel - 1) as nat),
            decreases doc.kids(node as int).len() - i,
        {
            let c = doc.nodes[node].children[i];
            assert(doc.nodes@[node as int].children@[i as int] == c);
            Node::walk_into(doc, c, fuel - 1, out);
            assert(doc.kids(node as int).take(i + 1).drop_last() == doc.kids(node as int).take(
                i as int,
            ));
            i += 1;
        }
        assert(doc.kids(node as int).take(i as int) == doc.kids(node as int));
    }
}

/// In a well-formed document a child's back-reference names the node whose
/// child list holds it, and that list is the only place the child occurs. Every
/// mutation here preserves well-formedness, so this holds after any sequence of
/// appends and insertions.
pub proof fn lemma_parent_link_round_trip(doc: Document, p: int, j: int)
    requires
        doc.wf(),
        doc.valid(p),
        0 <= j < doc.kids(p).len(),
    ensures
        doc.parent_of(doc.kids(p)[j] as int) == Some(p as usize),
        forall|q: int, k: int|
            doc.valid(q) && 0 <= k < doc.kids(q).len() && #[trigger] doc.nodes@[q].children@[k]
                == doc.kids(p)[j] ==> q == p && k == j,
{
    assert(doc.nodes@[p].children@[j] == doc.kids(p)[j]);
    assert forall|q: int, k: int|
        doc.valid(q) && 0 <= k < doc.kids(q).len() && #[trigger] doc.nodes@[q].children@[k]
            == doc.kids(p)[j] implies q == p && k == j by {
        assert(doc.nodes.len() == doc.nodes@.len());
        assert(q == p);
        if k < j {
            assert(doc.nodes@[p].children@[k] != doc.nodes@[p].children@[j]);
        } else if j < k {
            assert(doc.nodes@[p].children@[j] != doc.nodes@[p].children@[k]);
        }
    }
}

/// A character with Unicode's White_Space property.
pub open spec fn is_white_space(c: char) -> bool {
    let u = c as u32;
    ||| 0x9 <= u <= 0xD
    ||| u == 0x20
    ||| u == 0x85
    ||| u == 0xA0
    ||| u == 0x1680
    ||| 0x2000 <= u <= 0x200A
    ||| u == 0x2028
    ||| u == 0x2029
    ||| u == 0x202F
    ||| u == 0x205F
    ||| u == 0x3000
}

/// `s` without its leading white space.
pub open spec fn trim_start(s: Seq<char>) -> Seq<char>
    decreases s.len(),
{
    if s.len() > 0 && is_white_space(s[0]) {
        trim_start(s.drop_first())
    } else {
        s
    }
}

/// `s` without its trailing white space.
pub open spec fn trim_end(s: Seq<char>) -> Seq<char>
    decreases s.len(),
{
    if s.len() > 0 && is_white_space(s.last()) {
        trim_end(s.drop_last())
    } else {
        s
    }
}

/// `s` without leading and trailing white space.
pub open spec fn trimmed(s: Seq<char>) -> Seq<char> {
    trim_end(trim_start(s))
}

/// The text that `{:?}` writes for the string `s`: quoted and escaped.
pub uninterp spec fn debug_quoted(s: Seq<char>) -> Seq<char>;

/// Relies on `str::trim`: the slice without leading and trailing white space,
/// white space being the characters with Unicode's White_Space property.
#[verifier::external_body]
fn trim_str(s: &str) -> (r: &str)
    ensures
        r@ == trimmed(s@),
{
    s.trim()
}

/// Relies on the `Debug` formatting of `str`: the quoted, escaped form, which
/// depends on the characters alone.
#[verifier::external_body]
fn debug_str(s: &str) -> (r: String)
    ensures
        r@ == debug_quoted(s@),
{
    format!("{:?}", s)
}

/// Two spaces per level of depth.
pub open spec fn indent(depth: nat) -> Seq<char>
    decreases depth,
{
    if depth == 0 {
        seq![]
    } else {
        indent((depth - 1) as nat) + seq![' ', ' ']
    }
}

/// `label` indented by `depth` levels.
pub fn indented(depth: usize, label: &str) -> (r: String)
    ensures
        r@ == indent(depth as nat) + label@,
{
    let mut line = String::new();
    let mut i: usize = 0;
    while i < depth
        invariant
            i <= depth,
            line@ == indent(i as nat),
        decreases depth - i,
    {
        proof {
            reveal_strlit("  ");
        }
        line.append("  ");
        i += 1;
    }
    line.append(label);
    line
}

impl Document {
    /// The dump line of node `n` without its indentation; Text that is empty
    /// once trimmed has none.
    pub open spec fn label_of(&self, n: int) -> Option<Seq<char>> {
        match self.nodes@[n].data {
            NodeData::Document => Some("Document"@),
            NodeData::Element { name, .. } => Some("Element: "@ + name.local@),
            NodeData::Text { contents } => if trimmed(contents@).len() == 0 {
                None
            } else {
                Some("Text: "@ + debug_quoted(trimmed(contents@)))
            },
            NodeData::Comment { .. } => Some("Comment"@),
            NodeData::Doctype { name, .. } => Some("Doctype: "@ + name@),
        }
    }

    /// The dump lines of the nodes at and below `n`, in pre-order, `n` at
    /// `depth`, at most `fuel` levels down.
    pub open spec fn lines_of(&self, n: int, depth: nat, fuel: nat) -> Seq<Seq<char>>
        decreases fuel, 0nat,
    {
        if fuel == 0 || !self.valid(n) {
            seq![]
        } else {
            (match self.label_of(n) {
                Some(l) => seq![indent(depth) + l],
                None => seq![],
            }) + self.lines_list(self.kids(n), depth + 1, (fuel - 1) as nat)
        }
    }

    pub open spec fn lines_list(&self, cs: Seq<usize>, depth: nat, fuel: nat) -> Seq<Seq<char>>
        decreases fuel, cs.len(),
    {
        if cs.len() == 0 {
            seq![]
        } else {
            self.lines_list(cs.drop_last(), depth, fuel) + self.lines_of(cs.last() as int, depth, fuel)
        }
    }

    /// The indented dump of the whole tree, one entry per line: `Document`,
    /// `Element: <local name>`, `Text: <quoted trimmed text>` (left out when
    /// the trimmed text is empty), `Comment`, `Doctype: <name>`.
    pub fn print_tree(&self) -> (lines: Vec<String>)
        requires
            self.wf(),
        ensures
            lines@.map_values(|l: String| l@) == self.lines_of(self.root as int, 0, self.nodes@.len()),
    {
        let mut lines: Vec<String> = Vec::new();
        assert(self.nodes.len() == self.nodes@.len());
        self.print_node(self.root, 0, self.nodes.len(), &mut lines);
        assert(lines@.map_values(|l: String| l@) =~= Seq::<Seq<char>>::empty() + self.lines_of(
            self.root as int,
            0,
            self.nodes@.len(),
        ));
        lines
    }

    fn print_node(&self, node: usize, depth: usize, fuel: usize, out: &mut Vec<String>)
        requires
            self.wf(),
            self.valid(node as int),
            depth + fuel <= usize::MAX,
        ensures
            final(out)@.map_values(|l: String| l@) == old(out)@.map_values(|l: String| l@)
                + self.lines_of(node as int, depth as nat, fuel as nat),
        decreases fuel,
    {
        if fuel == 0 {
            assert(old(out)@.map_values(|l: String| l@) + self.lines_of(node as int, depth as nat, 0)
                =~= old(out)@.map_values(|l: String| l@));
            return;
        }
        let line: Option<String> = match &self.nodes[node].data {
            NodeData::Document => Some(indented(depth, "Document")),
            NodeData::Element { name, .. } => {
                let mut label = String::new();
                label.append("Element: ");
                label.append(name.local.as_str());
                Some(indented(depth, label.as_str()))
            },
            NodeData::Text { contents } => {
                let trimmed = trim_str(contents.as_str());
                if trimmed.unicode_len() == 0 {
                    None
                } else {
                    let mut label = String::new();
                    label.append("Text: ");
                    let quoted = debug_str(trimmed);
                    label.append(quoted.as_str());
                    Some(indented(depth, label.as_str()))
                }
            },
            NodeData::Comment { .. } => Some(indented(depth, "Comment")),
            NodeData::Doctype { name, .. } => {
                let mut label = String::new();
                label.append("Doctype: ");
                label.append(name.as_str());
                Some(indented(depth, label.as_str()))
            },
        };
        let ghost before = out@.map_values(|l: String| l@);
        match line {
            Some(l) => {
                out.push(l);
            },
            None => {},
        }
        let ghost own: Seq<Seq<char>> = match self.label_of(node as int) {
            Some(l) => seq![indent(depth as nat) + l],
            None => seq![],
        };
        assert(out@.map_values(|l: String| l@) =~= before + own);
        let ghost start = out@.map_values(|l: String| l@);
        let mut i: usize = 0;
        while i < self.nodes[node].children.len()
            invariant
                self.wf(),
                self.valid(node as int),
                fuel > 0,
                depth + fuel <= usize::MAX,
                i <= self.kids(node as int).len(),
                out@.map_values(|l: String| l@) == start + self.lines_list(
                    self.kids(node as int).take(i as int),
                    (depth + 1) as nat,
                    (fuel - 1) as nat,
                ),
            decreases self.kids(node as int).len() - i,
        {
            let c = self.nodes[node].children[i];
            assert(self.nodes@[node as int].children@[i as int] == c);
            self.print_node(c, depth + 1, fuel - 1, out);
            assert(self.kids(node as int).take(i + 1).drop_last() == self.kids(node as int).take(
                i as int,
            ));
            i += 1;
        }
        assert(self.kids(node as int).take(i as int) == self.kids(node as int));
    }
}

} // verus!
