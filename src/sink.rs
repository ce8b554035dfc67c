//! Tree construction from parser events: node creation, coalescing text
//! insertion, quirks-mode upgrades, template contents and child moves.
use vstd::prelude::*;
use crate::tree::{
    is_ancestor, lemma_data_change, detach_v, insert_check, insert_v, is_document, pos_in, valid, wf, Attribute, NodeData, NodeV,
    QuirksMode, Tree, TreeError,
};

verus! {

/// The strictness rank of a quirks mode.
pub open spec fn rank(m: QuirksMode) -> nat {
    match m {
        QuirksMode::NoQuirks => 0,
        QuirksMode::LimitedQuirks => 1,
        QuirksMode::Quirks => 2,
    }
}

/// The stricter of two modes.
pub open spec fn stricter(a: QuirksMode, b: QuirksMode) -> QuirksMode {
    if rank(a) >= rank(b) {
        a
    } else {
        b
    }
}

/// The last child of `p`, where it is a text node.
pub open spec fn last_text_child(v: Seq<NodeV>, p: int) -> Option<usize> {
    let kids = v[p].children;
    if kids.len() > 0 && v[kids.last() as int].data is Text {
        Some(kids.last())
    } else {
        None
    }
}

/// Some child of `node` is `np` or one of its ancestors.
pub open spec fn reparent_cycle(v: Seq<NodeV>, node: int, np: int) -> bool {
    exists|k: int|
        0 <= k < v[node].children.len() && (v[node].children[k] == np as usize || is_ancestor(
            v,
            #[trigger] v[node].children[k] as int,
            np,
        ))
}

/// The arena after every child of `node` is moved, in order, to the end of
/// `np`'s children.
pub open spec fn reparent_v(v: Seq<NodeV>, node: int, np: int) -> Seq<NodeV> {
    let moved = v[node].children;
    Seq::new(
        v.len(),
        |i: int|
            if i == node {
                NodeV { children: seq![], ..v[i] }
            } else if i == np {
                NodeV { children: v[np].children + moved, ..v[i] }
            } else if moved.contains(i as usize) {
                NodeV { parent: Some(np as usize), ..v[i] }
            } else {
                v[i]
            },
    )
}

proof fn lemma_reparent_wf(v: Seq<NodeV>, node: int, np: int)
    requires
        wf(v),
        valid(v, node),
        valid(v, np),
        node != np,
        !v[node].children.contains(np as usize),
    ensures
        wf(reparent_v(v, node, np)),
{
    let w = reparent_v(v, node, np);
    let moved = v[node].children;
    assert forall|i: int, k: int|
        valid(w, i) && 0 <= k < w[i].children.len() implies {
            let c = #[trigger] w[i].children[k];
            valid(w, c as int) && w[c as int].parent == Some(i as usize)
        } by {
        if i == np {
            if k < v[np].children.len() {
                let c = v[np].children[k];
                assert(w[i].children[k] == c);
                assert(v[c as int].parent == Some(np as usize));
                if moved.contains(c) {
                    let j = choose|j: int| 0 <= j < moved.len() && moved[j] == c;
                    assert(v[moved[j] as int].parent == Some(node as usize));
                }
            } else {
                let c = moved[k - v[np].children.len()];
                assert(w[i].children[k] == c);
                assert(moved.contains(c));
                assert(v[c as int].parent == Some(node as usize));
                assert(v[node].parent != Some(node as usize));
            }
        } else if i != node {
            let c = v[i].children[k];
            assert(w[i].children[k] == c);
            assert(v[c as int].parent == Some(i as usize));
            if moved.contains(c) {
                let j = choose|j: int| 0 <= j < moved.len() && moved[j] == c;
                assert(v[moved[j] as int].parent == Some(node as usize));
            }
        }
    }
    assert forall|i: int|
        #![trigger w[i].parent]
        valid(w, i) && w[i].parent is Some implies {
            let q = w[i].parent->0;
            valid(w, q as int) && w[q as int].children.contains(i as usize)
        } by {
        if i != node && i != np && moved.contains(i as usize) {
            let j = choose|j: int| 0 <= j < moved.len() && moved[j] == i as usize;
            assert(w[np].children[v[np].children.len() + j] == i as usize);
        } else if i == np && moved.contains(i as usize) {
        } else {
            let q = v[i].parent->0;
            assert(w[i].parent == v[i].parent);
            if q as int == node {
                let j = choose|j: int| 0 <= j < moved.len() && moved[j] == i as usize;
                assert(moved.contains(i as usize));
                if i == node {
                    assert(v[i].parent != Some(i as usize));
                }
            } else if q as int == np {
                let j = choose|j: int| 0 <= j < v[np].children.len() && v[np].children[j] == i as usize;
                assert(w[np].children[j] == i as usize);
            } else {
                assert(w[q as int].children == v[q as int].children || moved.contains(q));
                if moved.contains(q) {
                    assert(w[q as int].children == v[q as int].children);
                }
            }
        }
    }
    assert forall|i: int| #![trigger w[i].children] valid(w, i) implies w[i].children.no_duplicates() by {
        assert(v[i].children.no_duplicates());
        if i == np {
            let a = v[np].children;
            assert(moved.no_duplicates());
            assert forall|x: int, y: int|
                0 <= x < w[i].children.len() && 0 <= y < w[i].children.len() && x != y implies w[i].children[x]
                    != w[i].children[y] by {
                if x < a.len() && y >= a.len() {
                    assert(v[a[x] as int].parent == Some(np as usize));
                    assert(v[moved[y - a.len()] as int].parent == Some(node as usize));
                } else if y < a.len() && x >= a.len() {
                    assert(v[a[y] as int].parent == Some(np as usize));
                    assert(v[moved[x - a.len()] as int].parent == Some(node as usize));
                }
            }
        }
    }
    assert forall|i: int| #![trigger w[i].parent] valid(w, i) implies w[i].parent != Some(i as usize) by {
        if i != node && i != np && moved.contains(i as usize) {
        } else {
            assert(v[i].parent != Some(i as usize));
            if i == np && moved.contains(i as usize) {
            }
        }
    }
    assert forall|i: int|
        #![trigger w[i].data]
        valid(w, i) && is_document(w[i].data) implies w[i].parent is None by {
        assert(w[i].data == v[i].data);
        if moved.contains(i as usize) && i != node && i != np {
            let j = choose|j: int| 0 <= j < moved.len() && moved[j] == i as usize;
            assert(v[moved[j] as int].parent == Some(node as usize));
        }
    }
    assert forall|i: int|
        #![trigger w[i].data]
        valid(w, i) && w[i].data is Element && w[i].data->Element_template_contents is Some
            implies valid(w, w[i].data->Element_template_contents->0 as int) by {
        assert(w[i].data == v[i].data);
    }
}

/// The sibling just before `s`, where it is a text node.
pub open spec fn prev_text_sibling(v: Seq<NodeV>, s: int) -> Option<usize> {
    match v[s].parent {
        None => None,
        Some(p) => {
            let kids = v[p as int].children;
            let k = pos_in(kids, s as usize);
            if k > 0 && v[kids[k - 1] as int].data is Text {
                Some(kids[k - 1])
            } else {
                None
            }
        },
    }
}

fn copy_chars(a: &Vec<char>, b: &Vec<char>) -> (r: Vec<char>)
    ensures
        r@ == a@ + b@,
{
    let mut r: Vec<char> = Vec::new();
    let mut i: usize = 0;
    while i < a.len()
        invariant
            i <= a@.len(),
            r@ == a@.subrange(0, i as int),
        decreases a@.len() - i,
    {
        r.push(a[i]);
        i = i + 1;
        assert(r@ =~= a@.subrange(0, i as int));
    }
    let mut j: usize = 0;
    while j < b.len()
        invariant
            j <= b@.len(),
            r@ == a@ + b@.subrange(0, j as int),
        decreases b@.len() - j,
    {
        r.push(b[j]);
        j = j + 1;
        assert(r@ =~= a@ + b@.subrange(0, j as int));
    }
    assert(a@ =~= a@.subrange(0, i as int));
    assert(b@ =~= b@.subrange(0, j as int));
    r
}

impl Tree {
    /// Creates a parentless element; a `template` element gets an empty
    /// document node as its contents.
    pub fn create_element(&mut self, name: Vec<char>, attrs: Vec<Attribute>, template: bool) -> (r: usize)
        requires
            wf(old(self)@),
        ensures
            wf(final(self)@),
            valid(final(self)@, r as int),
            final(self)@[r as int].parent is None,
            final(self)@[r as int].children.len() == 0,
            final(self)@[r as int].data is Element,
            final(self)@[r as int].data->Element_name == name,
            final(self)@[r as int].data->Element_attrs == attrs,
            !template ==> r == old(self)@.len() && final(self)@[r as int].data->Element_template_contents is None
                && final(self)@.drop_last() == old(self)@,
            template ==> ({
                let d = final(self)@[r as int].data->Element_template_contents;
                &&& r == old(self)@.len() + 1
                &&& d == Some(old(self)@.len() as usize)
                &&& final(self)@.len() == old(self)@.len() + 2
                &&& final(self)@.subrange(0, old(self)@.len() as int) == old(self)@
                &&& final(self)@[old(self)@.len() as int] == (NodeV {
                    data: NodeData::Document { quirks_mode: QuirksMode::NoQuirks },
                    parent: None,
                    children: seq![],
                })
            }),
    {
        if template {
            let d = self.create(NodeData::Document { quirks_mode: QuirksMode::NoQuirks });
            let r = self.create(NodeData::Element { name, attrs, template_contents: Some(d) });
            assert(self@.subrange(0, old(self)@.len() as int) =~= old(self)@);
            r
        } else {
            let r = self.create(NodeData::Element { name, attrs, template_contents: None });
            assert(self@.drop_last() =~= old(self)@);
            r
        }
    }

    /// The template contents of element `n`, if it has any.
    pub fn template_contents(&self, n: usize) -> (r: Option<usize>)
        requires
            valid(self@, n as int),
        ensures
            r == (match self@[n as int].data {
                NodeData::Element { template_contents, .. } => template_contents,
                _ => None,
            }),
    {
        match &self.nodes[n].data {
            NodeData::Element { template_contents, .. } => *template_contents,
            _ => None,
        }
    }

    /// Appends `text` under `p`: onto its last child where that is a text
    /// node, else as a new text node at the end.
    pub fn append_text(&mut self, p: usize, text: &Vec<char>)
        requires
            wf(old(self)@),
            valid(old(self)@, p as int),
        ensures
            wf(final(self)@),
            match last_text_child(old(self)@, p as int) {
                Some(t) => {
                    &&& final(self)@.len() == old(self)@.len()
                    &&& forall|i: int| 0 <= i < old(self)@.len() && i != t ==> final(self)@[i] == old(self)@[i]
                    &&& final(self)@[t as int].parent == old(self)@[t as int].parent
                    &&& final(self)@[t as int].children == old(self)@[t as int].children
                    &&& final(self)@[t as int].data is Text
                    &&& final(self)@[t as int].data->Text_contents@ == old(self)@[t as int].data->Text_contents@ + text@
                },
                None => {
                    let m = old(self)@.len() as int;
                    &&& final(self)@.len() == m + 1
                    &&& final(self)@[m].data is Text
                    &&& final(self)@[m].data->Text_contents@ == text@
                    &&& final(self)@ == insert_v(
                        old(self)@.push(NodeV { data: final(self)@[m].data, parent: None, children: seq![] }),
                        p as int,
                        old(self)@[p as int].children.len() as int,
                        m,
                    )
                },
            },
    {
        let k = self.nodes[p].children.len();
        if k > 0 {
            let last = self.nodes[p].children[k - 1];
            if let NodeData::Text { contents } = &self.nodes[last].data {
                let joined = copy_chars(contents, text);
                let ghost v = self@;
                self.nodes[last].data = NodeData::Text { contents: joined };
                assert forall|i: int| 0 <= i < v.len() && i != last implies self@[i] == v[i] by {}
                proof {
            lemma_data_change(v, self@, last as int);
        }
                return;
            }
        }
        let mut chars: Vec<char> = Vec::new();
        let mut j: usize = 0;
        while j < text.len()
            invariant
                j <= text@.len(),
                chars@ == text@.subrange(0, j as int),
            decreases text@.len() - j,
        {
            chars.push(text[j]);
            j = j + 1;
            assert(chars@ =~= text@.subrange(0, j as int));
        }
        assert(chars@ =~= text@);
        let m = self.create(NodeData::Text { contents: chars });
        self.insert_at(p, k, m);
    }

    /// Inserts `text` just before `s`: onto the preceding sibling where that
    /// is a text node, else as a new text node. `s` must have a parent.
    pub fn insert_text_before(&mut self, s: usize, text: &Vec<char>) -> (r: Result<(), TreeError>)
        requires
            wf(old(self)@),
            valid(old(self)@, s as int),
        ensures
            wf(final(self)@),
            r is Err <==> old(self)@[s as int].parent is None,
            r is Err ==> r == Err::<(), TreeError>(TreeError::NoParent) && final(self)@ == old(self)@,
            r is Ok ==> match prev_text_sibling(old(self)@, s as int) {
                Some(t) => {
                    &&& final(self)@.len() == old(self)@.len()
                    &&& forall|i: int| 0 <= i < old(self)@.len() && i != t ==> final(self)@[i] == old(self)@[i]
                    &&& final(self)@[t as int].parent == old(self)@[t as int].parent
                    &&& final(self)@[t as int].children == old(self)@[t as int].children
                    &&& final(self)@[t as int].data is Text
                    &&& final(self)@[t as int].data->Text_contents@ == old(self)@[t as int].data->Text_contents@ + text@
                },
                None => {
                    let m = old(self)@.len() as int;
                    let p = old(self)@[s as int].parent->0 as int;
                    &&& final(self)@.len() == m + 1
                    &&& final(self)@[m].data is Text
                    &&& final(self)@[m].data->Text_contents@ == text@
                    &&& final(self)@ == insert_v(
                        old(self)@.push(NodeV { data: final(self)@[m].data, parent: None, children: seq![] }),
                        p,
                        pos_in(old(self)@[p].children, s),
                        m,
                    )
                },
            },
    {
        let p = match self.nodes[s].parent {
            None => return Err(TreeError::NoParent),
            Some(p) => p,
        };
        let k = self.child_index(p, s);
        if k > 0 {
            let prev = self.nodes[p].children[k - 1];
            if let NodeData::Text { contents } = &self.nodes[prev].data {
                let joined = copy_chars(contents, text);
                let ghost v = self@;
                self.nodes[prev].data = NodeData::Text { contents: joined };
                assert forall|i: int| 0 <= i < v.len() && i != prev implies self@[i] == v[i] by {}
                proof {
                    lemma_data_change(v, self@, prev as int);
                }
                return Ok(());
            }
        }
        let mut chars: Vec<char> = Vec::new();
        let mut j: usize = 0;
        while j < text.len()
            invariant
                j <= text@.len(),
                chars@ == text@.subrange(0, j as int),
            decreases text@.len() - j,
        {
            chars.push(text[j]);
            j = j + 1;
            assert(chars@ =~= text@.subrange(0, j as int));
        }
        assert(chars@ =~= text@);
        let m = self.create(NodeData::Text { contents: chars });
        self.insert_at(p, k, m);
        Ok(())
    }

    /// Raises the document's quirks mode to `mode` where that is stricter.
    pub fn set_quirks_mode(&mut self, mode: QuirksMode)
        requires
            wf(old(self)@),
            old(self)@.len() > 0,
            old(self)@[0].data is Document,
        ensures
            wf(final(self)@),
            final(self)@.len() == old(self)@.len(),
            forall|i: int| 0 < i < old(self)@.len() ==> final(self)@[i] == old(self)@[i],
            final(self)@[0].parent == old(self)@[0].parent,
            final(self)@[0].children == old(self)@[0].children,
            final(self)@[0].data == (NodeData::Document {
                quirks_mode: stricter(old(self)@[0].data->Document_quirks_mode, mode),
            }),
    {
        let cur = match &self.nodes[0].data {
            NodeData::Document { quirks_mode } => *quirks_mode,
            _ => mode,
        };
        let next = match (cur, mode) {
            (QuirksMode::Quirks, _) => QuirksMode::Quirks,
            (_, QuirksMode::Quirks) => QuirksMode::Quirks,
            (QuirksMode::LimitedQuirks, _) => QuirksMode::LimitedQuirks,
            (_, m) => m,
        };
        let ghost v = self@;
        self.nodes[0].data = NodeData::Document { quirks_mode: next };
        assert forall|i: int| 0 < i < v.len() implies self@[i] == v[i] by {}
        proof {
            lemma_data_change(v, self@, 0);
        }
    }

    /// The quirks mode of the document at handle 0.
    pub fn quirks_mode(&self) -> (r: QuirksMode)
        requires
            self@.len() > 0,
            self@[0].data is Document,
        ensures
            r == self@[0].data->Document_quirks_mode,
    {
        match &self.nodes[0].data {
            NodeData::Document { quirks_mode } => *quirks_mode,
            _ => QuirksMode::NoQuirks,
        }
    }

    /// Moves every child of `node`, in order, to the end of `new_parent`'s
    /// children. Fails, changing nothing, where a child of `node` is
    /// `new_parent` or one of its ancestors.
    pub fn reparent_children(&mut self, node: usize, new_parent: usize) -> (r: Result<(), TreeError>)
        requires
            wf(old(self)@),
            valid(old(self)@, node as int),
            valid(old(self)@, new_parent as int),
            node != new_parent,
        ensures
            wf(final(self)@),
            r is Err <==> reparent_cycle(old(self)@, node as int, new_parent as int),
            r is Err ==> r == Err::<(), TreeError>(TreeError::Cycle) && final(self)@ == old(self)@,
            r is Ok ==> final(self)@ == reparent_v(old(self)@, node as int, new_parent as int),
    {
        let kids = self.children(node);
        let mut k: usize = 0;
        while k < kids.len()
            invariant
                wf(self@),
                valid(self@, new_parent as int),
                kids@ == self@[node as int].children,
                k <= kids@.len(),
                forall|j: int|
                    0 <= j < k ==> !(kids@[j] == new_parent || is_ancestor(
                        self@,
                        #[trigger] kids@[j] as int,
                        new_parent as int,
                    )),
            decreases kids@.len() - k,
        {
            if self.is_inclusive_ancestor(kids[k], new_parent) {
                return Err(TreeError::Cycle);
            }
            k = k + 1;
        }
        let ghost v = self@;
        let ghost moved = kids@;
        assert(!moved.contains(new_parent)) by {
            if moved.contains(new_parent) {
                let j = choose|j: int| 0 <= j < moved.len() && moved[j] == new_parent;
                assert(!(kids@[j] == new_parent || is_ancestor(v, kids@[j] as int, new_parent as int)));
            }
        }
        let mut taken: Vec<usize> = Vec::new();
        std::mem::swap(&mut taken, &mut self.nodes[node].children);
        let mut i: usize = 0;
        while i < kids.len()
            invariant
                wf(v),
                valid(v, node as int),
                valid(v, new_parent as int),
                node != new_parent,
                moved == v[node as int].children,
                kids@ == moved,
                !moved.contains(new_parent),
                i <= moved.len(),
                self@.len() == v.len(),
                self@[node as int].children == Seq::<usize>::empty(),
                self@[new_parent as int].children == v[new_parent as int].children + moved.subrange(0, i as int),
                forall|x: int| 0 <= x < v.len() ==> #[trigger] self@[x].data == v[x].data,
                forall|x: int|
                    0 <= x < v.len() && x != node && x != new_parent ==> #[trigger] self@[x].children
                        == v[x].children,
                forall|x: int|
                    0 <= x < v.len() ==> #[trigger] self@[x].parent == (if moved.subrange(0, i as int).contains(
                        x as usize,
                    ) {
                        Some(new_parent)
                    } else {
                        v[x].parent
                    }),
            decreases moved.len() - i,
        {
            let c = kids[i];
            assert(valid(v, c as int));
            assert(v[c as int].parent == Some(node));
            assert(v[node as int].parent != Some(node));
            assert(c != node && c != new_parent);
            let ghost before = self@;
            self.nodes[c].parent = Some(new_parent);
            self.nodes[new_parent].children.push(c);
            i = i + 1;
            assert(moved.subrange(0, i as int) =~= moved.subrange(0, i as int - 1).push(c));
            assert forall|x: int| 0 <= x < v.len() && x != c && x != new_parent implies #[trigger] self@[x] == before[x] by {}
            assert(self@[c as int].data == before[c as int].data);
            assert(self@[c as int].children == before[c as int].children);
            assert(self@[new_parent as int].data == before[new_parent as int].data);
            assert(self@[new_parent as int].parent == before[new_parent as int].parent);
            let ghost pre = moved.subrange(0, i as int - 1);
            assert forall|x: int| 0 <= x < v.len() implies #[trigger] self@[x].parent == (if moved.subrange(0, i as int).contains(x as usize) {
                Some(new_parent)
            } else {
                v[x].parent
            }) by {
                if x == c {
                    assert(moved.subrange(0, i as int)[i as int - 1] == c);
                } else {
                    assert(self@[x].parent == before[x].parent);
                    if pre.contains(x as usize) {
                        let j = choose|j: int| 0 <= j < pre.len() && pre[j] == x as usize;
                        assert(moved.subrange(0, i as int)[j] == x as usize);
                    }
                    if moved.subrange(0, i as int).contains(x as usize) {
                        let j = choose|j: int| 0 <= j < i && moved.subrange(0, i as int)[j] == x as usize;
                        assert(j != i - 1);
                        assert(pre[j] == x as usize);
                    }
                }
            }
            assert forall|x: int| 0 <= x < v.len() implies #[trigger] self@[x].data == v[x].data by {
                if x != c && x != new_parent {
                    assert(self@[x] == before[x]);
                }
            }
            assert forall|x: int| 0 <= x < v.len() && x != node && x != new_parent implies #[trigger] self@[x].children == v[x].children by {
                if x != c {
                    assert(self@[x] == before[x]);
                }
            }
            assert(moved.no_duplicates());
            assert(self@[new_parent as int].children =~= v[new_parent as int].children + moved.subrange(0, i as int));
        }
        assert(moved.subrange(0, i as int) =~= moved);
        assert forall|x: int| 0 <= x < v.len() implies #[trigger] self@[x] == reparent_v(v, node as int, new_parent as int)[x] by {
            assert(self@[x].data == v[x].data);
            assert(self@[x].parent == (if moved.contains(x as usize) { Some(new_parent) } else { v[x].parent }));
            if x == new_parent {
                assert(self@[x].children == v[new_parent as int].children + moved);
            } else if x != node {
                assert(self@[x].children == v[x].children);
            }
            if x == node {
                assert(!moved.contains(node)) by {
                    if moved.contains(node) {
                        let j = choose|j: int| 0 <= j < moved.len() && moved[j] == node;
                        assert(v[moved[j] as int].parent == Some(node));
                    }
                }
            }
        }
        assert(self@ =~= reparent_v(v, node as int, new_parent as int));
        proof {
            lemma_reparent_wf(v, node as int, new_parent as int);
        }
        Ok(())
    }

    /// Adds, in order, each attribute of `attrs` whose name element `n` does
    /// not have yet; other nodes are left as they are.
    pub fn add_attrs_if_missing(&mut self, n: usize, attrs: Vec<Attribute>)
        requires
            wf(old(self)@),
            valid(old(self)@, n as int),
        ensures
            wf(final(self)@),
            final(self)@.len() == old(self)@.len(),
            forall|i: int| 0 <= i < old(self)@.len() && i != n ==> final(self)@[i] == old(self)@[i],
            final(self)@[n as int].parent == old(self)@[n as int].parent,
            final(self)@[n as int].children == old(self)@[n as int].children,
            !(old(self)@[n as int].data is Element) ==> final(self)@[n as int] == old(self)@[n as int],
            old(self)@[n as int].data is Element ==> ({
                let d = final(self)@[n as int].data;
                let o = old(self)@[n as int].data;
                &&& d is Element
                &&& d->Element_name == o->Element_name
                &&& d->Element_template_contents == o->Element_template_contents
                &&& d->Element_attrs@ == add_missing(o->Element_attrs@, attrs@)
            }),
    {
        if let NodeData::Element { .. } = &self.nodes[n].data {
        } else {
            return;
        }
        let ghost v = self@;
        let mut d = NodeData::Comment { contents: Vec::new() };
        std::mem::swap(&mut d, &mut self.nodes[n].data);
        let (name, mut cur, tc) = match d {
            NodeData::Element { name, attrs, template_contents } => (name, attrs, template_contents),
            _ => {
                return;
            },
        };
        let mut rest = attrs;
        let ghost orig = rest@;
        let ghost start = cur@;
        while rest.len() > 0
            invariant
                add_missing(cur@, rest@) == add_missing(start, orig),
            decreases rest@.len(),
        {
            let a = rest.remove(0);
            let mut found = false;
            let mut k: usize = 0;
            while k < cur.len()
                invariant
                    k <= cur@.len(),
                    found == has_name(cur@.subrange(0, k as int), a.name@),
                decreases cur@.len() - k,
            {
                let ghost pre = cur@.subrange(0, k as int);
                if same_chars(&cur[k].name, &a.name) {
                    found = true;
                }
                k = k + 1;
                proof {
                    assert(cur@.subrange(0, k as int).drop_last() =~= pre);
                }
            }
            assert(cur@.subrange(0, k as int) =~= cur@);
            if !found {
                cur.push(a);
            }
        }
        self.nodes[n].data = NodeData::Element { name, attrs: cur, template_contents: tc };
        assert forall|i: int| 0 <= i < v.len() && i != n implies self@[i] == v[i] by {}
        proof {
            lemma_data_change(v, self@, n as int);
        }
    }
}

impl Tree {
    /// Replaces the characters of text or comment node `n`; its identity and
    /// position stay as they were. Other nodes are left unchanged.
    pub fn set_text(&mut self, n: usize, contents: Vec<char>) -> (r: bool)
        requires
            wf(old(self)@),
            valid(old(self)@, n as int),
        ensures
            wf(final(self)@),
            r == (old(self)@[n as int].data is Text || old(self)@[n as int].data is Comment),
            !r ==> final(self)@ == old(self)@,
            r ==> final(self)@ == old(self)@.update(
                n as int,
                NodeV {
                    data: if old(self)@[n as int].data is Text {
                        NodeData::Text { contents }
                    } else {
                        NodeData::Comment { contents }
                    },
                    ..old(self)@[n as int]
                },
            ),
    {
        let is_text = match &self.nodes[n].data {
            NodeData::Text { .. } => true,
            NodeData::Comment { .. } => false,
            _ => return false,
        };
        let ghost v = self@;
        if is_text {
            self.nodes[n].data = NodeData::Text { contents };
        } else {
            self.nodes[n].data = NodeData::Comment { contents };
        }
        proof {
            lemma_data_change(v, self@, n as int);
        }
        assert(self@ =~= v.update(n as int, NodeV { data: self@[n as int].data, ..v[n as int] }));
        true
    }

    /// The value of the attribute named `name` of element `n`, if it has one.
    pub fn get_attr(&self, n: usize, name: &str) -> (r: Option<Vec<char>>)
        requires
            valid(self@, n as int),
        ensures
            self@[n as int].data is Element && has_name(self@[n as int].data->Element_attrs@, name@)
                <==> r is Some,
            r is Some ==> exists|k: int|
                0 <= k < self@[n as int].data->Element_attrs@.len() && (
                #[trigger] self@[n as int].data->Element_attrs@[k]).name@ == name@ && r->0@
                    == self@[n as int].data->Element_attrs@[k].value@ && forall|j: int|
                    0 <= j < k ==> (#[trigger] self@[n as int].data->Element_attrs@[j]).name@ != name@,
    {
        let attrs = match &self.nodes[n].data {
            NodeData::Element { attrs, .. } => attrs,
            _ => return None,
        };
        let want = crate::text::chars_of(name);
        let mut k: usize = 0;
        while k < attrs.len()
            invariant
                k <= attrs@.len(),
                want@ == name@,
                self@[n as int].data is Element,
                *attrs == self@[n as int].data->Element_attrs,
                !has_name(attrs@.subrange(0, k as int), name@),
            decreases attrs@.len() - k,
        {
            let ghost pre = attrs@.subrange(0, k as int);
            if same_chars(&attrs[k].name, &want) {
                proof {
                    lemma_has_name_prefix(attrs@, k as int + 1, name@);
                    assert(attrs@.subrange(0, k as int + 1).last() == attrs@[k as int]);
                    assert forall|j: int| 0 <= j < k implies (#[trigger] attrs@[j]).name@ != name@ by {
                        if attrs@[j].name@ == name@ {
                            lemma_has_name_index(attrs@.subrange(0, k as int), j, name@);
                        }
                    }
                }
                let val = copy_chars(&attrs[k].value, &Vec::new());
                assert(val@ =~= attrs@[k as int].value@);
                return Some(val);
            }
            k = k + 1;
            assert(attrs@.subrange(0, k as int).drop_last() =~= pre);
        }
        assert(attrs@.subrange(0, k as int) =~= attrs@);
        None
    }
}

/// An attribute with the name at any index gives `has_name`.
proof fn lemma_has_name_index(a: Seq<Attribute>, j: int, name: Seq<char>)
    requires
        0 <= j < a.len(),
        a[j].name@ == name,
    ensures
        has_name(a, name),
    decreases a.len(),
{
    if j < a.len() - 1 {
        lemma_has_name_index(a.drop_last(), j, name);
    }
}

/// Where a prefix has the name, so does the whole.
proof fn lemma_has_name_prefix(a: Seq<Attribute>, k: int, name: Seq<char>)
    requires
        0 <= k <= a.len(),
    ensures
        has_name(a.subrange(0, k), name) ==> has_name(a, name),
    decreases a.len() - k,
{
    if k < a.len() {
        lemma_has_name_prefix(a, k + 1, name);
        assert(a.subrange(0, k + 1).drop_last() =~= a.subrange(0, k));
    } else {
        assert(a.subrange(0, k) =~= a);
    }
}

/// Some attribute of `acc` is named `name`.
pub open spec fn has_name(acc: Seq<Attribute>, name: Seq<char>) -> bool
    decreases acc.len(),
{
    acc.len() > 0 && (acc.last().name@ == name || has_name(acc.drop_last(), name))
}

/// `acc` with each attribute of `new` appended, in order, unless its name is
/// already there.
pub open spec fn add_missing(acc: Seq<Attribute>, new: Seq<Attribute>) -> Seq<Attribute>
    decreases new.len(),
{
    if new.len() == 0 {
        acc
    } else {
        let next = if has_name(acc, new[0].name@) {
            acc
        } else {
            acc.push(new[0])
        };
        add_missing(next, new.drop_first())
    }
}

pub(crate) fn same_chars(a: &Vec<char>, b: &Vec<char>) -> (r: bool)
    ensures
        r == (a@ == b@),
{
    if a.len() != b.len() {
        return false;
    }
    let mut i: usize = 0;
    while i < a.len()
        invariant
            i <= a@.len(),
            a@.len() == b@.len(),
            forall|j: int| 0 <= j < i ==> a@[j] == b@[j],
        decreases a@.len() - i,
    {
        if a[i] != b[i] {
            return false;
        }
        i = i + 1;
    }
    assert(a@ =~= b@);
    true
}

} // verus!
