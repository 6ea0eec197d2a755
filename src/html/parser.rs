//! The construction sink: receives tree-construction commands from an HTML5
//! tree builder and applies them to a document under construction.
use vstd::prelude::*;
use vstd::string::*;

use crate::dom::{inserted_before, lemma_parent_link_round_trip, position_of, Attribute, Document, Node, NodeData, QualName};

verus! {

/// The document-wide quirks classification decided by the tree builder.
#[derive(Clone, Copy, Debug, PartialEq, Eq, Structural)]
pub enum QuirksMode {
    Quirks,
    LimitedQuirks,
    NoQuirks,
}

/// A handle to a node: its index in the document's arena. Two handles denote
/// the same node exactly when the indices are equal.
#[derive(Clone, Copy, Debug, PartialEq, Eq, Structural)]
pub struct Handle(pub usize);

/// What the builder asks to insert: an existing node, or character data.
#[derive(Debug)]
pub enum NodeOrText {
    AppendNode(Handle),
    AppendText(String),
}

/// The sink: the document being built and the recorded quirks mode.
#[derive(Debug)]
pub struct DomSink {
    pub document: Document,
    pub quirks_mode: QuirksMode,
}

/// `p`'s last child is a Text node.
pub open spec fn last_is_text(d: &Document, p: int) -> bool {
    d.kids(p).len() > 0 && d.nodes@[d.kids(p).last() as int].data is Text
}

/// After appending text `t` to `p` in `old`, `new` has one fresh Text node at
/// index `old.nodes@.len()` as `p`'s last child. When `p` ended in a Text node,
/// the fresh node replaces it and holds its contents followed by `t`;
/// otherwise it is added and holds `t`. No other node changes.
pub open spec fn text_appended(new: &Document, old: &Document, p: int, t: Seq<char>) -> bool {
    let id = old.nodes@.len() as int;
    &&& new.root == old.root
    &&& new.nodes@.len() == old.nodes@.len() + 1
    &&& forall|i: int| old.valid(i) && i != p ==> #[trigger] new.nodes@[i] == old.nodes@[i]
    &&& new.nodes@[p].data == old.nodes@[p].data
    &&& new.parent_of(p) == old.parent_of(p)
    &&& new.nodes@[id].data is Text
    &&& new.parent_of(id) == Some(p as usize)
    &&& new.kids(id) == Seq::<usize>::empty()
    &&& if last_is_text(old, p) {
        &&& new.kids(p) == old.kids(p).drop_last().push(id as usize)
        &&& new.nodes@[id].data->Text_contents@ == old.nodes@[old.kids(p).last() as int].data->Text_contents@
            + t
    } else {
        &&& new.kids(p) == old.kids(p).push(id as usize)
        &&& new.nodes@[id].data->Text_contents@ == t
    }
}

/// Text `t` placed before `s` among `p`'s children, as `append` places text.
/// When `s` is at index `k` of `p`'s list, a fresh Text node at index
/// `old.nodes@.len()` either takes the place of a Text node at `k - 1`,
/// holding its contents followed by `t`, or is inserted at `k` holding `t`.
/// When `s` is not in the list, the text is appended as by `append`.
pub open spec fn text_inserted_before(new: &Document, old: &Document, p: int, s: usize, t: Seq<char>) -> bool {
    let id = old.nodes@.len() as int;
    let ok = old.kids(p);
    if ok.contains(s) {
        &&& new.root == old.root
        &&& new.nodes@.len() == old.nodes@.len() + 1
        &&& forall|i: int| old.valid(i) && i != p ==> #[trigger] new.nodes@[i] == old.nodes@[i]
        &&& new.nodes@[p].data == old.nodes@[p].data
        &&& new.parent_of(p) == old.parent_of(p)
        &&& new.nodes@[id].data is Text
        &&& new.parent_of(id) == Some(p as usize)
        &&& new.kids(id) == Seq::<usize>::empty()
        &&& exists|k: int|
            0 <= k < ok.len() && #[trigger] ok[k] == s && if k > 0 && old.nodes@[ok[k - 1] as int].data is Text {
                &&& new.kids(p) == ok.update(k - 1, id as usize)
                &&& new.nodes@[id].data->Text_contents@ == old.nodes@[ok[k - 1] as int].data->Text_contents@
                    + t
            } else {
                &&& new.kids(p) == ok.insert(k, id as usize)
                &&& new.nodes@[id].data->Text_contents@ == t
            }
    } else {
        text_appended(new, old, p, t)
    }
}

/// After appending existing node `c` to `p`, `c` is `p`'s last child and
/// points back at `p`; only `p` and `c` change, and only in those links.
pub open spec fn node_appended(new: &Document, old: &Document, p: int, c: int) -> bool {
    &&& new.same_except(old, p, c)
    &&& new.kids(p) == old.kids(p).push(c as usize)
    &&& new.nodes@[p].data == old.nodes@[p].data
    &&& new.parent_of(c) == Some(p as usize)
    &&& new.nodes@[c].data == old.nodes@[c].data
    &&& c != p ==> new.kids(c) == old.kids(c)
    &&& c != p ==> new.parent_of(p) == old.parent_of(p)
}

impl DomSink {
    pub open spec fn wf(&self) -> bool {
        self.document.wf()
    }

    /// The builder may hand `child` to an append: a node must be a detached
    /// non-root node of this document; text needs room for one more node.
    pub open spec fn insertable(&self, child: NodeOrText) -> bool {
        match child {
            NodeOrText::AppendNode(h) => {
                &&& self.document.valid(h.0 as int)
                &&& !self.document.attached(h.0 as int)
                &&& h.0 != self.document.root
            },
            NodeOrText::AppendText(_) => self.document.nodes@.len() < usize::MAX,
        }
    }

    /// The effect of appending `child` to `p`.
    pub open spec fn appended(new: &Document, old: &Document, p: int, child: NodeOrText) -> bool {
        match child {
            NodeOrText::AppendNode(h) => node_appended(new, old, p, h.0 as int),
            NodeOrText::AppendText(t) => text_appended(new, old, p, t@),
        }
    }

    /// A sink holding a fresh document.
    pub fn new() -> (s: DomSink)
        ensures
            s.wf(),
            s.document.nodes@.len() == 1,
            s.document.root == 0,
            s.document.kids(0) == Seq::<usize>::empty(),
            s.document.parent_of(0) is None,
            s.document.nodes@[0].data is Document,
            s.quirks_mode == QuirksMode::NoQuirks,
    {
        DomSink { document: Document::new(), quirks_mode: QuirksMode::NoQuirks }
    }

    /// Ends construction and hands back the document.
    pub fn finish(self) -> (d: Document)
        ensures
            d == self.document,
    {
        self.document
    }

    /// Recoverable builder diagnostics are accepted and dropped.
    pub fn parse_error(&self, _msg: &str) {
    }

    /// The handle of the root.
    pub fn get_document(&self) -> (h: Handle)
        ensures
            h.0 == self.document.root,
    {
        Handle(self.document.root)
    }

    /// The qualified name of an element.
    pub fn elem_name(&self, target: &Handle) -> (r: &QualName)
        requires
            self.document.valid(target.0 as int),
            self.document.nodes@[target.0 as int].data is Element,
        ensures
            *r == self.document.nodes@[target.0 as int].data->Element_name,
    {
        match &self.document.nodes[target.0].data {
            NodeData::Element { name, .. } => name,
            _ => vstd::pervasive::unreached(),
        }
    }

    /// Allocates a detached element.
    pub fn create_element(&mut self, name: QualName, attrs: Vec<Attribute>) -> (h: Handle)
        requires
            old(self).wf(),
            old(self).document.nodes@.len() < usize::MAX,
        ensures
            final(self).wf(),
            h.0 == old(self).document.nodes@.len(),
            final(self).document.nodes@.len() == old(self).document.nodes@.len() + 1,
            final(self).document.root == old(self).document.root,
            forall|i: int| #![trigger final(self).document.nodes@[i]]
                old(self).document.valid(i) ==> final(self).document.nodes@[i]
                    == old(self).document.nodes@[i],
            final(self).document.nodes@[h.0 as int].data == (NodeData::Element { name, attrs }),
            final(self).document.parent_of(h.0 as int) is None,
            final(self).document.kids(h.0 as int) == Seq::<usize>::empty(),
            !final(self).document.attached(h.0 as int),
            final(self).quirks_mode == old(self).quirks_mode,
    {
        Handle(Node::new(&mut self.document, NodeData::Element { name, attrs }))
    }

    /// Allocates a detached comment.
    pub fn create_comment(&mut self, text: String) -> (h: Handle)
        requires
            old(self).wf(),
            old(self).document.nodes@.len() < usize::MAX,
        ensures
            final(self).wf(),
            h.0 == old(self).document.nodes@.len(),
            final(self).document.nodes@.len() == old(self).document.nodes@.len() + 1,
            final(self).document.root == old(self).document.root,
            forall|i: int| #![trigger final(self).document.nodes@[i]]
                old(self).document.valid(i) ==> final(self).document.nodes@[i]
                    == old(self).document.nodes@[i],
            final(self).document.nodes@[h.0 as int].data is Comment,
            final(self).document.nodes@[h.0 as int].data->Comment_contents@ == text@,
            final(self).document.parent_of(h.0 as int) is None,
            final(self).document.kids(h.0 as int) == Seq::<usize>::empty(),
            !final(self).document.attached(h.0 as int),
            final(self).quirks_mode == old(self).quirks_mode,
    {
        Handle(Node::new(&mut self.document, NodeData::Comment { contents: text }))
    }

    /// A processing instruction becomes an empty comment: its target and data
    /// are not kept.
    pub fn create_pi(&mut self, _target: String, _data: String) -> (h: Handle)
        requires
            old(self).wf(),
            old(self).document.nodes@.len() < usize::MAX,
        ensures
            final(self).wf(),
            h.0 == old(self).document.nodes@.len(),
            final(self).document.nodes@.len() == old(self).document.nodes@.len() + 1,
            final(self).document.root == old(self).document.root,
            forall|i: int| #![trigger final(self).document.nodes@[i]]
                old(self).document.valid(i) ==> final(self).document.nodes@[i]
                    == old(self).document.nodes@[i],
            final(self).document.nodes@[h.0 as int].data is Comment,
            final(self).document.nodes@[h.0 as int].data->Comment_contents@ == Seq::<char>::empty(),
            final(self).document.parent_of(h.0 as int) is None,
            final(self).document.kids(h.0 as int) == Seq::<usize>::empty(),
            !final(self).document.attached(h.0 as int),
            final(self).quirks_mode == old(self).quirks_mode,
    {
        Handle(Node::new(&mut self.document, NodeData::Comment { contents: String::new() }))
    }

    /// Appends a node, or text, to `parent`. Text that follows a Text last
    /// child replaces that child by a fresh node holding both, in order.
    pub fn append(&mut self, parent: &Handle, child: NodeOrText)
        requires
            old(self).wf(),
            old(self).document.valid(parent.0 as int),
            old(self).insertable(child),
        ensures
            final(self).wf(),
            DomSink::appended(&final(self).document, &old(self).document, parent.0 as int, child),
            final(self).quirks_mode == old(self).quirks_mode,
    {
        let p = parent.0;
        match child {
            NodeOrText::AppendNode(node) => {
                Node::append_child(&mut self.document, p, node.0);
            },
            NodeOrText::AppendText(text) => {
                let ghost o = self.document;
                let n = self.document.nodes[p].children.len();
                if n > 0 {
                    let last = self.document.nodes[p].children[n - 1];
                    assert(self.document.nodes@[p as int].children@[n - 1] == last);
                    let merged: Option<String> = match &self.document.nodes[last].data {
                        NodeData::Text { contents } => {
                            let mut joined = contents.clone();
                            joined.append(text.as_str());
                            Some(joined)
                        },
                        _ => None,
                    };
                    if let Some(joined) = merged {
                        Node::remove_child(&mut self.document, p, last);
                        proof {
                            let ok = o.kids(p as int);
                            let k = choose|k: int|
                                0 <= k < ok.len() && ok[k] == last && self.document.kids(p as int)
                                    == ok.remove(k);
                            if k != n - 1 {
                                assert(o.nodes@[p as int].children@[k] == o.nodes@[p
                                    as int].children@[n - 1]);
                            }
                            assert(ok.remove(n - 1) == ok.drop_last());
                        }
                        let id = Node::new(&mut self.document, NodeData::Text { contents: joined });
                        Node::append_child(&mut self.document, p, id);
                        return;
                    }
                }
                let id = Node::new(&mut self.document, NodeData::Text { contents: text });
                Node::append_child(&mut self.document, p, id);
            },
        }
    }
    /// Same as `append` to `element`: foster parenting is not modelled.
    pub fn append_based_on_parent_node(
        &mut self,
        element: &Handle,
        _prev_element: &Handle,
        child: NodeOrText,
    )
        requires
            old(self).wf(),
            old(self).document.valid(element.0 as int),
            old(self).insertable(child),
        ensures
            final(self).wf(),
            DomSink::appended(&final(self).document, &old(self).document, element.0 as int, child),
            final(self).quirks_mode == old(self).quirks_mode,
    {
        self.append(element, child);
    }

    /// Appends a Doctype node with the three given strings to the root.
    pub fn append_doctype_to_document(
        &mut self,
        name: String,
        public_id: String,
        system_id: String,
    )
        requires
            old(self).wf(),
            old(self).document.nodes@.len() < usize::MAX,
        ensures
            final(self).wf(),
            ({
                let (o, d, r) = (old(self).document, final(self).document, old(self).document.root as int);
                let id = o.nodes@.len() as int;
                &&& d.root == o.root
                &&& d.nodes@.len() == o.nodes@.len() + 1
                &&& forall|i: int| o.valid(i) && i != r ==> #[trigger] d.nodes@[i] == o.nodes@[i]
                &&& d.nodes@[r].data == o.nodes@[r].data
                &&& d.parent_of(r) == o.parent_of(r)
                &&& d.kids(r) == o.kids(r).push(id as usize)
                &&& d.nodes@[id].data is Doctype
                &&& d.nodes@[id].data->Doctype_name@ == name@
                &&& d.nodes@[id].data->Doctype_public_id@ == public_id@
                &&& d.nodes@[id].data->Doctype_system_id@ == system_id@
                &&& d.parent_of(id) == Some(r as usize)
                &&& d.kids(id) == Seq::<usize>::empty()
            }),
            final(self).quirks_mode == old(self).quirks_mode,
    {
        let root = self.document.root;
        let id = Node::new(&mut self.document, NodeData::Doctype { name, public_id, system_id });
        Node::append_child(&mut self.document, root, id);
    }

    /// No separate template contents are kept: the handle itself.
    pub fn get_template_contents(&self, target: &Handle) -> (h: Handle)
        ensures
            h == *target,
    {
        *target
    }

    /// Identity of handles.
    pub fn same_node(&self, x: &Handle, y: &Handle) -> (r: bool)
        ensures
            r == (x.0 == y.0),
    {
        x.0 == y.0
    }

    /// Records the quirks mode; the tree is not touched.
    pub fn set_quirks_mode(&mut self, mode: QuirksMode)
        ensures
            final(self).quirks_mode == mode,
            final(self).document == old(self).document,
    {
        self.quirks_mode = mode;
    }

    /// Inserts a node, or text, just before `sibling` in the child list of the
    /// node its back-reference names. Text is handled as `append` handles it,
    /// anchored at `sibling`: when the child just before `sibling` is a Text
    /// node, a fresh Text node holding its contents followed by the text takes
    /// its place. When `sibling` is no longer in that list, the node or text
    /// goes to the end of it, as `append` would put it.
    pub fn append_before_sibling(&mut self, sibling: &Handle, new_node: NodeOrText)
        requires
            old(self).wf(),
            old(self).document.valid(sibling.0 as int),
            old(self).document.parent_of(sibling.0 as int) is Some,
            old(self).insertable(new_node),
        ensures
            final(self).wf(),
            final(self).quirks_mode == old(self).quirks_mode,
            ({
                let (o, d) = (old(self).document, final(self).document);
                let p = o.parent_of(sibling.0 as int)->0 as int;
                match new_node {
                    NodeOrText::AppendNode(h) => {
                        let c = h.0 as int;
                        &&& d.same_except(&o, p, c)
                        &&& inserted_before(d.kids(p), o.kids(p), c as usize, sibling.0)
                        &&& d.nodes@[p].data == o.nodes@[p].data
                        &&& d.parent_of(c) == Some(p as usize)
                        &&& d.nodes@[c].data == o.nodes@[c].data
                        &&& c != p ==> d.kids(c) == o.kids(c)
                        &&& c != p ==> d.parent_of(p) == o.parent_of(p)
                    },
                    NodeOrText::AppendText(t) => text_inserted_before(&d, &o, p, sibling.0, t@),
                }
            }),
    {
        let parent = match self.document.nodes[sibling.0].parent {
            Some(p) => p,
            None => vstd::pervasive::unreached(),
        };
        assert(self.document.parent_of(sibling.0 as int) == Some(parent));
        match new_node {
            NodeOrText::AppendNode(node) => {
                Node::insert_before(&mut self.document, parent, node.0, sibling.0);
            },
            NodeOrText::AppendText(text) => {
                let ghost o = self.document;
                let found = position_of(&self.document.nodes[parent].children, sibling.0);
                match found {
                    None => {
                        self.append(&Handle(parent), NodeOrText::AppendText(text));
                    },
                    Some(pos) => {
                        let merged: Option<(usize, String)> = if pos > 0 {
                            let prev = self.document.nodes[parent].children[pos - 1];
                            match &self.document.nodes[prev].data {
                                NodeData::Text { contents } => {
                                    let mut joined = contents.clone();
                                    joined.append(text.as_str());
                                    Some((prev, joined))
                                },
                                _ => None,
                            }
                        } else {
                            None
                        };
                        match merged {
                            Some((prev, joined)) => {
                                let ghost ok = o.kids(parent as int);
                                assert(ok[pos - 1] == prev);
                                Node::remove_child(&mut self.document, parent, prev);
                                let ghost k1 = self.document.kids(parent as int);
                                proof {
                                    let k = choose|k: int|
                                        0 <= k < ok.len() && ok[k] == prev && k1 == ok.remove(k);
                                    if k != pos - 1 {
                                        assert(o.nodes@[parent as int].children@[k]
                                            == o.nodes@[parent as int].children@[pos - 1]);
                                    }
                                    assert(k1 == ok.remove(pos - 1));
                                    assert(k1[pos - 1] == sibling.0);
                                    assert(k1.contains(sibling.0));
                                }
                                let id = Node::new(
                                    &mut self.document,
                                    NodeData::Text { contents: joined },
                                );
                                Node::insert_before(&mut self.document, parent, id, sibling.0);
                                proof {
                                    let d = self.document;
                                    let k2 = choose|k2: int|
                                        0 <= k2 < k1.len() && k1[k2] == sibling.0 && d.kids(
                                            parent as int,
                                        ) == k1.insert(k2, id as usize);
                                    if k2 != pos - 1 {
                                        assert(k1[k2] == ok[if k2 < pos - 1 { k2 } else { k2 + 1 }]);
                                        assert(o.nodes@[parent as int].children@[if k2 < pos - 1 {
                                            k2
                                        } else {
                                            k2 + 1
                                        }] == o.nodes@[parent as int].children@[pos as int]);
                                    }
                                    assert(d.kids(parent as int) =~= ok.update(pos - 1, id as usize));
                                }
                            },
                            None => {
                                let id = Node::new(
                                    &mut self.document,
                                    NodeData::Text { contents: text },
                                );
                                Node::insert_before(&mut self.document, parent, id, sibling.0);
                                proof {
                                    let ok = o.kids(parent as int);
                                    let d = self.document;
                                    assert(ok[pos as int] == sibling.0);
                                    let k2 = choose|k2: int|
                                        0 <= k2 < ok.len() && ok[k2] == sibling.0 && d.kids(
                                            parent as int,
                                        ) == ok.insert(k2, id as usize);
                                    if k2 != pos {
                                        assert(o.nodes@[parent as int].children@[k2]
                                            == o.nodes@[parent as int].children@[pos as int]);
                                    }
                                }
                            },
                        }
                    },
                }
            },
        }
    }

    /// Attribute merging is not modelled: nothing changes.
    pub fn add_attrs_if_missing(&mut self, _target: &Handle, _attrs: Vec<Attribute>)
        ensures
            final(self).document == old(self).document,
            final(self).quirks_mode == old(self).quirks_mode,
    {
    }

    /// Detaches `target` from the list that holds it, if any; its
    /// back-reference is left as it was.
    pub fn remove_from_parent(&mut self, target: &Handle)
        requires
            old(self).wf(),
            old(self).document.valid(target.0 as int),
        ensures
            final(self).wf(),
            final(self).quirks_mode == old(self).quirks_mode,
            !final(self).document.attached(target.0 as int),
            ({
                let (o, d) = (old(self).document, final(self).document);
                match o.parent_of(target.0 as int) {
                    None => d == o,
                    Some(p) => {
                        &&& d.same_except(&o, p as int, p as int)
                        &&& d.nodes@[p as int].data == o.nodes@[p as int].data
                        &&& d.parent_of(p as int) == o.parent_of(p as int)
                        &&& o.kids(p as int).contains(target.0) ==> exists|k: int|
                            0 <= k < o.kids(p as int).len() && o.kids(p as int)[k] == target.0
                                && d.kids(p as int) == o.kids(p as int).remove(k)
                        &&& !o.kids(p as int).contains(target.0) ==> d.kids(p as int) == o.kids(
                            p as int,
                        )
                    },
                }
            }),
    {
        let t = target.0;
        match self.document.nodes[t].parent {
            Some(p) => {
                assert(self.document.parent_of(t as int) == Some(p));
                Node::remove_child(&mut self.document, p, t);
                proof {
                    let d = self.document;
                    let o = old(self).document;
                    if d.attached(t as int) {
                        let (q, j) = choose|q: int, j: int|
                            d.valid(q) && 0 <= j < d.kids(q).len() && #[trigger] d.nodes@[q].children@[j]
                                == t;
                        assert(d.nodes@[q].children@[j] == t);
                        assert(d.parent_of(t as int) == Some(q as usize));
                        assert(d.nodes.len() == d.nodes@.len());
                        assert(q != p);
                        assert(o.nodes@[q] == d.nodes@[q]);
                        assert(o.nodes@[q].children@[j] == t);
                    }
                }
            },
            None => {
                proof {
                    let d = self.document;
                    if d.attached(t as int) {
                        let (q, j) = choose|q: int, j: int|
                            d.valid(q) && 0 <= j < d.kids(q).len() && #[trigger] d.nodes@[q].children@[j]
                                == t;
                        assert(d.nodes@[q].children@[j] == t);
                    }
                }
            },
        }
    }
    /// Moves every child of `node`, in order, to the end of `new_parent`'s
    /// children, and leaves `node` with none.
    pub fn reparent_children(&mut self, node: &Handle, new_parent: &Handle)
        requires
            old(self).wf(),
            old(self).document.valid(node.0 as int),
            old(self).document.valid(new_parent.0 as int),
        ensures
            final(self).wf(),
            final(self).quirks_mode == old(self).quirks_mode,
            ({
                let (o, d, n, np) = (
                    old(self).document,
                    final(self).document,
                    node.0 as int,
                    new_parent.0 as int,
                );
                let moved = o.kids(n);
                &&& d.root == o.root
                &&& d.nodes@.len() == o.nodes@.len()
                &&& n != np ==> d.kids(n) == Seq::<usize>::empty()
                &&& d.kids(np) == (if n == np {
                    Seq::<usize>::empty()
                } else {
                    o.kids(np)
                }) + moved
                &&& forall|k: int| 0 <= k < moved.len() ==> d.parent_of(#[trigger] moved[k] as int) == Some(np as usize)
                &&& forall|i: int| #![trigger d.nodes@[i]]
                    o.valid(i) ==> d.nodes@[i].data == o.nodes@[i].data
                &&& forall|i: int| #![trigger d.nodes@[i]]
                    o.valid(i) && i != n && i != np && !moved.contains(i as usize) ==> d.nodes@[i]
                        == o.nodes@[i]
                &&& forall|i: int| #![trigger d.kids(i)]
                    o.valid(i) && i != n && i != np ==> d.kids(i) == o.kids(i)
            }),
    {
        let n = node.0;
        let np = new_parent.0;
        let ghost o = self.document;
        let mut moved: Vec<usize> = Vec::new();
        std::mem::swap(&mut moved, &mut self.document.nodes[n].children);
        proof {
            let d = self.document;
            assert(moved@ == o.kids(n as int));
            assert forall|i: int, j: int|
                d.valid(i) && 0 <= j < d.kids(i).len() implies {
                    let c = #[trigger] d.nodes@[i].children@[j];
                    &&& d.valid(c as int)
                    &&& d.parent_of(c as int) == Some(i as usize)
                    &&& c != d.root
                } by {
                assert(i != n);
                assert(o.nodes@[i].children@[j] == d.nodes@[i].children@[j]);
                let c = d.nodes@[i].children@[j];
                assert(d.parent_of(c as int) == o.parent_of(c as int));
            }
            assert forall|i: int, j: int, k: int|
                d.valid(i) && 0 <= j < k < d.kids(i).len() implies #[trigger] d.nodes@[i].children@[j]
                    != #[trigger] d.nodes@[i].children@[k] by {
                assert(o.nodes@[i].children@[j] == d.nodes@[i].children@[j]);
                assert(o.nodes@[i].children@[k] == d.nodes@[i].children@[k]);
            }
            assert forall|i: int|
                d.valid(i) && (#[trigger] d.parent_of(i)) is Some implies d.valid(
                    d.parent_of(i)->0 as int,
                ) by {
                assert(d.parent_of(i) == o.parent_of(i));
            }
            assert forall|k: int| 0 <= k < moved@.len() implies !d.attached(#[trigger] moved@[k] as int) by {
                assert(o.nodes@[n as int].children@[k] == moved@[k]);
                if d.attached(moved@[k] as int) {
                    let (q, j) = choose|q: int, j: int|
                        d.valid(q) && 0 <= j < d.kids(q).len() && #[trigger] d.nodes@[q].children@[j]
                            == moved@[k];
                    assert(d.nodes@[q].children@[j] == moved@[k]);
                    assert(o.nodes@[q].children@[j] == moved@[k]);
                    assert(d.nodes.len() == d.nodes@.len());
                }
            }
        }
        let ghost base = self.document.kids(np as int);
        let ghost start = self.document;
        let mut i: usize = 0;
        while i < moved.len()
            invariant
                self.wf(),
                self.quirks_mode == old(self).quirks_mode,
                o.wf(),
                o.valid(n as int),
                o.valid(np as int),
                moved@ == o.kids(n as int),
                base == (if n == np {
                    Seq::<usize>::empty()
                } else {
                    o.kids(np as int)
                }),
                i <= moved@.len(),
                self.document.root == o.root,
                self.document.nodes@.len() == o.nodes@.len(),
                n != np ==> self.document.kids(n as int) == Seq::<usize>::empty(),
                self.document.kids(np as int) == base + moved@.take(i as int),
                forall|k: int| i <= k < moved@.len() ==> !self.document.attached(#[trigger] moved@[k] as int),
                forall|k: int| 0 <= k < i ==> self.document.parent_of(#[trigger] moved@[k] as int) == Some(np),
                forall|j: int| #![trigger self.document.nodes@[j]]
                    o.valid(j) ==> self.document.nodes@[j].data == o.nodes@[j].data,
                forall|j: int| #![trigger self.document.nodes@[j]]
                    o.valid(j) && j != n && j != np && !moved@.contains(j as usize) ==> self.document.nodes@[j]
                        == o.nodes@[j],
                forall|j: int| #![trigger self.document.kids(j)]
                    o.valid(j) && j != n && j != np ==> self.document.kids(j) == o.kids(j),
            decreases moved@.len() - i,
        {
            let c = moved[i];
            let ghost prev = self.document;
            proof {
                assert(o.nodes@[n as int].children@[i as int] == c);
            }
            Node::append_child(&mut self.document, np, c);
            proof {
                let d = self.document;
                assert(d.kids(np as int) == base + moved@.take(i + 1)) by {
                    assert(moved@.take(i + 1) == moved@.take(i as int).push(c));
                }
                assert forall|k: int| i + 1 <= k < moved@.len() implies !d.attached(
                    #[trigger] moved@[k] as int,
                ) by {
                    assert(o.nodes@[n as int].children@[k] == moved@[k]);
                    assert(o.nodes@[n as int].children@[i as int] != o.nodes@[n as int].children@[k]);
                    if d.attached(moved@[k] as int) {
                        let (q, j) = choose|q: int, j: int|
                            d.valid(q) && 0 <= j < d.kids(q).len() && #[trigger] d.nodes@[q].children@[j]
                                == moved@[k];
                        assert(d.nodes@[q].children@[j] == moved@[k]);
                        if q == np {
                            if j < prev.kids(q).len() {
                                assert(prev.nodes@[q].children@[j] == moved@[k]);
                            }
                        } else if q == c {
                            assert(prev.nodes@[q].children@[j] == moved@[k]);
                        } else {
                            assert(prev.nodes@[q] == d.nodes@[q]);
                            assert(prev.nodes@[q].children@[j] == moved@[k]);
                        }
                        assert(prev.attached(moved@[k] as int));
                    }
                }
                assert forall|k: int| 0 <= k < i + 1 implies d.parent_of(#[trigger] moved@[k] as int)
                    == Some(np) by {
                    if k < i {
                        assert(prev.parent_of(moved@[k] as int) == Some(np));
                        assert(o.nodes@[n as int].children@[k] == moved@[k]);
                        assert(o.nodes@[n as int].children@[i as int] != o.nodes@[n as int].children@[k]);
                        if moved@[k] != np {
                            assert(d.nodes@[moved@[k] as int] == prev.nodes@[moved@[k] as int]);
                        }
                    }
                }
                assert forall|j: int| #![trigger d.nodes@[j]]
                    o.valid(j) && j != n && j != np && !moved@.contains(j as usize) implies d.nodes@[j]
                        == o.nodes@[j] by {
                    assert(moved@[i as int] == c);
                    assert(prev.nodes@[j] == o.nodes@[j]);
                }
                assert forall|j: int| #![trigger d.kids(j)]
                    o.valid(j) && j != n && j != np implies d.kids(j) == o.kids(j) by {
                    assert(prev.kids(j) == o.kids(j));
                    if j == c {
                    } else {
                        assert(prev.nodes@[j] == d.nodes@[j]);
                    }
                }
                assert forall|j: int| #![trigger d.nodes@[j]]
                    o.valid(j) implies d.nodes@[j].data == o.nodes@[j].data by {
                    assert(prev.nodes@[j].data == o.nodes@[j].data);
                }
            }
            i += 1;
        }
        proof {
            assert(moved@.take(i as int) == moved@);
        }
    }
}

/// Two text appends to the same parent, with nothing appended between them,
/// leave one Text node as the parent's last child, holding the text that was
/// already last there (if any) followed by both fragments in order.
pub proof fn lemma_text_appends_coalesce(
    s0: Document,
    s1: Document,
    s2: Document,
    p: int,
    a: Seq<char>,
    b: Seq<char>,
)
    requires
        s0.wf(),
        s0.valid(p),
        text_appended(&s1, &s0, p, a),
        text_appended(&s2, &s1, p, b),
    ensures
        ({
            let last = s2.kids(p).last() as int;
            let (keep, before) = if last_is_text(&s0, p) {
                (s0.kids(p).drop_last(), s0.nodes@[s0.kids(p).last() as int].data->Text_contents@)
            } else {
                (s0.kids(p), Seq::<char>::empty())
            };
            &&& s2.kids(p) == keep.push(last as usize)
            &&& s2.nodes@[last].data is Text
            &&& s2.nodes@[last].data->Text_contents@ == before + a + b
        }),
{
    let id1 = s0.nodes@.len() as int;
    assert(s1.nodes.len() == s1.nodes@.len());
    assert(s1.kids(p).last() == id1);
    assert(last_is_text(&s1, p));
    assert(s1.kids(p).drop_last() == (if last_is_text(&s0, p) {
        s0.kids(p).drop_last()
    } else {
        s0.kids(p)
    }));
    if last_is_text(&s0, p) {
        assert(s0.nodes@[s0.kids(p).last() as int].data->Text_contents@ + a + b
            == s0.nodes@[s0.kids(p).last() as int].data->Text_contents@ + (a + b));
    } else {
        assert(Seq::<char>::empty() + a + b == a + b);
    }
}

/// Detaching a node and then appending it under another node leaves exactly
/// one child list holding it, the new parent's, at its end; the old parent's
/// list no longer holds it.
pub proof fn lemma_reparent_single_owner(s0: Document, s1: Document, s2: Document, t: int, q: int)
    requires
        s0.wf(),
        s0.valid(t),
        s1.wf(),
        s1.valid(q),
        s1.valid(t),
        !s1.attached(t),
        s1.nodes@[t].parent == s0.nodes@[t].parent,
        s2.wf(),
        node_appended(&s2, &s1, q, t),
    ensures
        s2.parent_of(t) == Some(q as usize),
        s2.kids(q).last() == t,
        forall|p: int, j: int|
            s2.valid(p) && 0 <= j < s2.kids(p).len() && #[trigger] s2.nodes@[p].children@[j] == t
                ==> p == q && j == s2.kids(q).len() - 1,
        s0.parent_of(t) is Some && s0.parent_of(t)->0 != q ==> !s2.kids(
            s0.parent_of(t)->0 as int,
        ).contains(t as usize),
{
    let last = s2.kids(q).len() - 1;
    assert(s2.nodes.len() == s2.nodes@.len());
    assert(s2.nodes@[q].children@[last] == t);
    lemma_parent_link_round_trip(s2, q, last);
    if s0.parent_of(t) is Some && s0.parent_of(t)->0 != q {
        let p0 = s0.parent_of(t)->0 as int;
        assert(s0.valid(p0));
        if s2.kids(p0).contains(t as usize) {
            let j = choose|j: int| 0 <= j < s2.kids(p0).len() && s2.kids(p0)[j] == t;
            assert(s2.nodes@[p0].children@[j] == t);
        }
    }
}

} // verus!
