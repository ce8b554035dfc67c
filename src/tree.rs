//! The node arena: node content, structural links, navigation and mutation.
use vstd::prelude::*;

verus! {

/// The document-wide compatibility flag, ordered from loosest to strictest.
#[derive(Clone, Copy, Debug, PartialEq, Eq, Structural)]
pub enum QuirksMode {
    NoQuirks,
    LimitedQuirks,
    Quirks,
}

/// An attribute of an element: its local name and its value.
#[derive(Clone, Debug)]
pub struct Attribute {
    pub name: Vec<char>,
    pub value: Vec<char>,
}

/// The content of a node.
#[derive(Clone, Debug)]
pub enum NodeData {
    Document { quirks_mode: QuirksMode },
    Doctype { name: Vec<char>, public_id: Vec<char>, system_id: Vec<char> },
    Text { contents: Vec<char> },
    Comment { contents: Vec<char> },
    ProcessingInstruction { target: Vec<char>, contents: Vec<char> },
    Element { name: Vec<char>, attrs: Vec<Attribute>, template_contents: Option<usize> },
}

/// One node of the arena: content plus links, by index into the arena.
pub struct Node {
    pub data: NodeData,
    pub parent: Option<usize>,
    pub children: Vec<usize>,
}

/// What a node is, as seen by contracts.
pub ghost struct NodeV {
    pub data: NodeData,
    pub parent: Option<usize>,
    pub children: Seq<usize>,
}

impl View for Node {
    type V = NodeV;

    open spec fn view(&self) -> NodeV {
        NodeV { data: self.data, parent: self.parent, children: self.children@ }
    }
}

/// Errors of the structural mutations.
#[derive(Clone, Copy, Debug, PartialEq, Eq, Structural)]
pub enum TreeError {
    /// The insertion would make a node its own ancestor.
    Cycle,
    /// A document node cannot become a child.
    DocumentChild,
    /// A sibling insertion next to a node that has no parent.
    NoParent,
}

/// A tree of nodes; a node's handle is its index.
pub struct Tree {
    pub nodes: Vec<Node>,
}

impl View for Tree {
    type V = Seq<NodeV>;

    open spec fn view(&self) -> Seq<NodeV> {
        self.nodes@.map_values(|n: Node| n@)
    }
}

pub open spec fn valid(v: Seq<NodeV>, i: int) -> bool {
    0 <= i < v.len()
}

pub open spec fn is_document(d: NodeData) -> bool {
    d is Document
}

/// The structural invariants of the arena.
pub open spec fn wf(v: Seq<NodeV>) -> bool {
    &&& v.len() <= usize::MAX
    &&& forall|i: int, k: int|
        valid(v, i) && 0 <= k < v[i].children.len() ==> {
            let c = #[trigger] v[i].children[k];
            valid(v, c as int) && v[c as int].parent == Some(i as usize)
        }
    &&& forall|i: int|
        #![trigger v[i].parent]
        valid(v, i) && v[i].parent is Some ==> {
            let p = v[i].parent->0;
            valid(v, p as int) && v[p as int].children.contains(i as usize)
        }
    &&& forall|i: int| #![trigger v[i].children] valid(v, i) ==> v[i].children.no_duplicates()
    &&& forall|i: int| #![trigger v[i].parent] valid(v, i) ==> v[i].parent != Some(i as usize)
    &&& forall|i: int|
        #![trigger v[i].data]
        valid(v, i) && is_document(v[i].data) ==> v[i].parent is None
    &&& forall|i: int|
        #![trigger v[i].data]
        valid(v, i) && v[i].data is Element && v[i].data->Element_template_contents is Some
            ==> valid(v, v[i].data->Element_template_contents->0 as int)
}

/// The position of `x` in `s` (unique where `s` has no duplicates).
pub open spec fn pos_in(s: Seq<usize>, x: usize) -> int {
    choose|k: int| 0 <= k < s.len() && s[k] == x
}

/// The arena after `c` is taken out of its parent's child list.
pub open spec fn detach_v(v: Seq<NodeV>, c: int) -> Seq<NodeV> {
    match v[c].parent {
        None => v,
        Some(p) => {
            let kids = v[p as int].children;
            let v1 = v.update(
                p as int,
                NodeV { children: kids.remove(pos_in(kids, c as usize)), ..v[p as int] },
            );
            v1.update(c, NodeV { parent: None, ..v1[c] })
        },
    }
}

/// The arena after the parentless `c` is put at position `k` of `p`'s child list.
pub open spec fn insert_v(v: Seq<NodeV>, p: int, k: int, c: int) -> Seq<NodeV> {
    let v1 = v.update(p, NodeV { children: v[p].children.insert(k, c as usize), ..v[p] });
    v1.update(c, NodeV { parent: Some(p as usize), ..v1[c] })
}

/// `a` is reached from `n` by following parent links at most `fuel` times.
pub open spec fn ancestor_within(v: Seq<NodeV>, a: int, n: int, fuel: nat) -> bool
    decreases fuel,
{
    if fuel == 0 || !valid(v, n) || v[n].parent is None {
        false
    } else {
        let p = v[n].parent->0 as int;
        p == a || ancestor_within(v, a, p, (fuel - 1) as nat)
    }
}

/// `a` is a proper ancestor of `n`.
pub open spec fn is_ancestor(v: Seq<NodeV>, a: int, n: int) -> bool {
    ancestor_within(v, a, n, v.len())
}

/// The chain of parents of `n`, nearest first, cut after `fuel` steps.
pub open spec fn ancestors_within(v: Seq<NodeV>, n: int, fuel: nat) -> Seq<usize>
    decreases fuel,
{
    if fuel == 0 || !valid(v, n) || v[n].parent is None {
        seq![]
    } else {
        let p = v[n].parent->0;
        seq![p] + ancestors_within(v, p as int, (fuel - 1) as nat)
    }
}

/// The proper ancestors of `n`, nearest first.
pub open spec fn ancestors_of(v: Seq<NodeV>, n: int) -> Seq<usize> {
    ancestors_within(v, n, v.len())
}

/// The subtree of `n` in pre-order, `n` first, down to `fuel` levels.
pub open spec fn preorder(v: Seq<NodeV>, n: int, fuel: nat) -> Seq<usize>
    decreases fuel, 0nat, 0nat,
{
    if fuel == 0 || !valid(v, n) {
        seq![]
    } else {
        seq![n as usize] + preorder_list(v, v[n].children, (fuel - 1) as nat)
    }
}

/// The pre-order walks of the nodes of `cs`, concatenated in order.
pub open spec fn preorder_list(v: Seq<NodeV>, cs: Seq<usize>, fuel: nat) -> Seq<usize>
    decreases fuel, 1nat, cs.len(),
{
    if cs.len() == 0 {
        seq![]
    } else {
        preorder_list(v, cs.drop_last(), fuel) + preorder(v, cs.last() as int, fuel)
    }
}

/// `n` and its descendants in document order.
pub open spec fn inclusive_descendants_of(v: Seq<NodeV>, n: int) -> Seq<usize> {
    preorder(v, n, v.len())
}

/// The descendants of `n` in document order, `n` itself excluded.
pub open spec fn descendants_of(v: Seq<NodeV>, n: int) -> Seq<usize> {
    inclusive_descendants_of(v, n).drop_first()
}

/// The characters of the text nodes among `ns`, concatenated in order.
pub open spec fn texts_of(v: Seq<NodeV>, ns: Seq<usize>) -> Seq<char>
    decreases ns.len(),
{
    if ns.len() == 0 {
        seq![]
    } else {
        let last = ns.last() as int;
        let t = if valid(v, last) && v[last].data is Text {
            v[last].data->Text_contents@
        } else {
            seq![]
        };
        texts_of(v, ns.drop_last()) + t
    }
}

impl Tree {
    /// A tree holding only an empty document root, at handle 0.
    pub fn new() -> (t: Tree)
        ensures
            wf(t@),
            t@.len() == 1,
            t@[0].data == (NodeData::Document { quirks_mode: QuirksMode::NoQuirks }),
            t@[0].parent is None,
            t@[0].children.len() == 0,
    {
        let root = Node {
            data: NodeData::Document { quirks_mode: QuirksMode::NoQuirks },
            parent: None,
            children: Vec::new(),
        };
        let mut nodes: Vec<Node> = Vec::new();
        nodes.push(root);
        let t = Tree { nodes };
        assert(t@.len() == 1);
        t
    }

    /// The number of nodes in the arena.
    pub fn len(&self) -> (r: usize)
        ensures
            r == self@.len(),
    {
        self.nodes.len()
    }

    /// Adds a new parentless, childless node holding `data`.
    pub fn create(&mut self, data: NodeData) -> (r: usize)
        requires
            wf(old(self)@),
            data is Element && data->Element_template_contents is Some ==> valid(
                old(self)@,
                data->Element_template_contents->0 as int,
            ),
        ensures
            wf(final(self)@),
            r == old(self)@.len(),
            final(self)@ == old(self)@.push(NodeV { data, parent: None, children: seq![] }),
    {
        let r = self.nodes.len();
        self.nodes.push(Node { data, parent: None, children: Vec::new() });
        let n = self.nodes.len();
        assert(n == r + 1);
        assert(self@ =~= old(self)@.push(NodeV { data, parent: None, children: seq![] }));
        r
    }

    /// The content of node `n`.
    pub fn data(&self, n: usize) -> (r: &NodeData)
        requires
            valid(self@, n as int),
        ensures
            *r == self@[n as int].data,
    {
        &self.nodes[n].data
    }

    /// The parent of `n`, if any.
    pub fn parent(&self, n: usize) -> (r: Option<usize>)
        requires
            valid(self@, n as int),
        ensures
            r == self@[n as int].parent,
    {
        self.nodes[n].parent
    }

    /// The children of `n`, in order.
    pub fn children(&self, n: usize) -> (r: Vec<usize>)
        requires
            valid(self@, n as int),
        ensures
            r@ == self@[n as int].children,
    {
        let kids = &self.nodes[n].children;
        let mut r: Vec<usize> = Vec::new();
        let mut i: usize = 0;
        while i < kids.len()
            invariant
                kids@ == self@[n as int].children,
                i <= kids@.len(),
                r@ == kids@.subrange(0, i as int),
            decreases kids@.len() - i,
        {
            r.push(kids[i]);
            i = i + 1;
            assert(r@ =~= kids@.subrange(0, i as int));
        }
        assert(r@ =~= kids@);
        r
    }

    /// The first child of `n`, if any.
    pub fn first_child(&self, n: usize) -> (r: Option<usize>)
        requires
            valid(self@, n as int),
        ensures
            r == (if self@[n as int].children.len() == 0 {
                None
            } else {
                Some(self@[n as int].children[0])
            }),
    {
        if self.nodes[n].children.len() == 0 {
            None
        } else {
            Some(self.nodes[n].children[0])
        }
    }

    /// The last child of `n`, if any.
    pub fn last_child(&self, n: usize) -> (r: Option<usize>)
        requires
            valid(self@, n as int),
        ensures
            r == (if self@[n as int].children.len() == 0 {
                None
            } else {
                Some(self@[n as int].children.last())
            }),
    {
        let k = self.nodes[n].children.len();
        if k == 0 {
            None
        } else {
            Some(self.nodes[n].children[k - 1])
        }
    }

    /// The index of `c` in the child list of its parent `p`.
    pub(crate) fn child_index(&self, p: usize, c: usize) -> (k: usize)
        requires
            wf(self@),
            valid(self@, c as int),
            self@[c as int].parent == Some(p),
        ensures
            k == pos_in(self@[p as int].children, c),
            0 <= k < self@[p as int].children.len(),
            self@[p as int].children[k as int] == c,
    {
        let ghost kids = self@[p as int].children;
        assert(kids.contains(c));
        let len = self.nodes[p].children.len();
        let mut k: usize = 0;
        while self.nodes[p].children[k] != c
            invariant
                wf(self@),
                valid(self@, p as int),
                kids == self@[p as int].children,
                kids.contains(c),
                len == kids.len(),
                0 <= k < kids.len(),
                forall|j: int| 0 <= j < k ==> kids[j] != c,
            decreases kids.len() - k,
        {
            k = k + 1;
        }
        let ghost q = pos_in(kids, c);
        assert(kids.no_duplicates());
        assert(kids[q] == c);
        k
    }

    /// The sibling after `n` under its parent, if any.
    pub fn next_sibling(&self, n: usize) -> (r: Option<usize>)
        requires
            wf(self@),
            valid(self@, n as int),
        ensures
            r == (match self@[n as int].parent {
                None => None,
                Some(p) => {
                    let kids = self@[p as int].children;
                    let k = pos_in(kids, n);
                    if k + 1 < kids.len() {
                        Some(kids[k + 1])
                    } else {
                        None
                    }
                },
            }),
    {
        match self.nodes[n].parent {
            None => None,
            Some(p) => {
                let k = self.child_index(p, n);
                if k < self.nodes[p].children.len() - 1 {
                    Some(self.nodes[p].children[k + 1])
                } else {
                    None
                }
            },
        }
    }

    /// The sibling before `n` under its parent, if any.
    pub fn previous_sibling(&self, n: usize) -> (r: Option<usize>)
        requires
            wf(self@),
            valid(self@, n as int),
        ensures
            r == (match self@[n as int].parent {
                None => None,
                Some(p) => {
                    let kids = self@[p as int].children;
                    let k = pos_in(kids, n);
                    if k > 0 {
                        Some(kids[k - 1])
                    } else {
                        None
                    }
                },
            }),
    {
        match self.nodes[n].parent {
            None => None,
            Some(p) => {
                let k = self.child_index(p, n);
                if k > 0 {
                    Some(self.nodes[p].children[k - 1])
                } else {
                    None
                }
            },
        }
    }

    /// Takes `c` out of its parent's child list; a root is left as it is.
    pub fn detach(&mut self, c: usize)
        requires
            wf(old(self)@),
            valid(old(self)@, c as int),
        ensures
            wf(final(self)@),
            final(self)@ == detach_v(old(self)@, c as int),
    {
        match self.nodes[c].parent {
            None => {},
            Some(p) => {
                let k = self.child_index(p, c);
                let ghost v = self@;
                self.nodes[p].children.remove(k);
                self.nodes[c].parent = None;
                let ghost w = detach_v(v, c as int);
                assert(self@ =~= w);
                assert forall|i: int| #![trigger w[i].children] valid(w, i) implies w[i].children.no_duplicates() by {
                    if i == p {
                        assert(v[i].children.no_duplicates());
                        v[i].children.remove_ensures(k as int);
                    }
                }
                assert forall|i: int, j: int|
                    valid(w, i) && 0 <= j < w[i].children.len() implies {
                        let d = #[trigger] w[i].children[j];
                        valid(w, d as int) && w[d as int].parent == Some(i as usize)
                    } by {
                    if i == p {
                        v[i].children.remove_ensures(k as int);
                        assert(v[i].children.no_duplicates());
                        if j < k {
                            assert(w[i].children[j] == v[i].children[j]);
                            assert(v[i].children[j] != c);
                        } else {
                            assert(w[i].children[j] == v[i].children[j + 1]);
                            assert(v[i].children[j + 1] != c);
                        }
                    } else {
                        assert(w[i].children[j] == v[i].children[j]);
                        let d = v[i].children[j];
                        assert(v[d as int].parent == Some(i as usize));
                        assert(d != c);
                    }
                }
                assert forall|i: int|
                    #![trigger w[i].parent]
                    valid(w, i) && w[i].parent is Some implies {
                        let q = w[i].parent->0;
                        valid(w, q as int) && w[q as int].children.contains(i as usize)
                    } by {
                    let q = w[i].parent->0;
                    assert(v[i].parent == w[i].parent);
                    if q == p {
                        let j = choose|j: int| 0 <= j < v[p as int].children.len() && v[p as int].children[j] == i as usize;
                        v[p as int].children.remove_ensures(k as int);
                        assert(i != c);
                        if j < k {
                            assert(w[p as int].children[j] == i as usize);
                        } else {
                            assert(j != k);
                            assert(w[p as int].children[j - 1] == i as usize);
                        }
                    }
                }
            },
        }
    }

    /// Puts the parentless `c` at position `k` of `p`'s child list.
    pub(crate) fn insert_at(&mut self, p: usize, k: usize, c: usize)
        requires
            wf(old(self)@),
            valid(old(self)@, p as int),
            valid(old(self)@, c as int),
            p != c,
            old(self)@[c as int].parent is None,
            !is_document(old(self)@[c as int].data),
            k <= old(self)@[p as int].children.len(),
        ensures
            wf(final(self)@),
            final(self)@ == insert_v(old(self)@, p as int, k as int, c as int),
    {
        let ghost v = self@;
        self.nodes[p].children.insert(k, c);
        self.nodes[c].parent = Some(p);
        let ghost w = insert_v(v, p as int, k as int, c as int);
        assert(self@ =~= w);
        assert(!v[p as int].children.contains(c)) by {
            if v[p as int].children.contains(c) {
                let j = choose|j: int| 0 <= j < v[p as int].children.len() && v[p as int].children[j] == c;
                assert(v[c as int].parent == Some(p));
            }
        }
        proof {
            v[p as int].children.insert_ensures(k as int, c);
        }
        assert forall|i: int| #![trigger w[i].children] valid(w, i) implies w[i].children.no_duplicates() by {
            if i == p {
                let s0 = v[i].children;
                let s1 = w[i].children;
                assert(s0.no_duplicates());
                assert forall|a: int, b: int| 0 <= a < s1.len() && 0 <= b < s1.len() && a != b implies s1[a] != s1[b] by {
                    if a != k && b != k {
                        let a0 = if a < k { a } else { a - 1 };
                        let b0 = if b < k { b } else { b - 1 };
                        assert(s1[a] == s0[a0]);
                        assert(s1[b] == s0[b0]);
                    } else if a == k {
                        let b0 = if b < k { b } else { b - 1 };
                        assert(s1[b] == s0[b0]);
                    } else {
                        let a0 = if a < k { a } else { a - 1 };
                        assert(s1[a] == s0[a0]);
                    }
                }
            }
        }
        assert forall|i: int, j: int|
            valid(w, i) && 0 <= j < w[i].children.len() implies {
                let d = #[trigger] w[i].children[j];
                valid(w, d as int) && w[d as int].parent == Some(i as usize)
            } by {
            if i == p {
                if j < k {
                    assert(w[i].children[j] == v[i].children[j]);
                } else if j > k {
                    assert(w[i].children[j] == v[i].children[j - 1]);
                }
            } else {
                assert(w[i].children[j] == v[i].children[j]);
                let d = v[i].children[j];
                assert(v[d as int].parent == Some(i as usize));
            }
        }
        assert forall|i: int|
            #![trigger w[i].parent]
            valid(w, i) && w[i].parent is Some implies {
                let q = w[i].parent->0;
                valid(w, q as int) && w[q as int].children.contains(i as usize)
            } by {
            let q = w[i].parent->0;
            if i == c {
                assert(w[p as int].children[k as int] == c);
            } else if q == p {
                let j = choose|j: int| 0 <= j < v[p as int].children.len() && v[p as int].children[j] == i as usize;
                if j < k {
                    assert(w[p as int].children[j] == i as usize);
                } else {
                    assert(w[p as int].children[j + 1] == i as usize);
                }
            } else {
                let j = choose|j: int| 0 <= j < v[q as int].children.len() && v[q as int].children[j] == i as usize;
                assert(w[q as int].children[j] == i as usize);
            }
        }
    }

    /// Whether `a` is `n` or one of its ancestors.
    pub fn is_inclusive_ancestor(&self, a: usize, n: usize) -> (r: bool)
        requires
            wf(self@),
            valid(self@, n as int),
        ensures
            r == (a == n || is_ancestor(self@, a as int, n as int)),
    {
        if a == n {
            return true;
        }
        let mut cur = n;
        let mut fuel = self.nodes.len();
        loop
            invariant
                wf(self@),
                valid(self@, cur as int),
                a != n,
                a != cur,
                ancestor_within(self@, a as int, cur as int, fuel as nat) == is_ancestor(
                    self@,
                    a as int,
                    n as int,
                ),
            decreases fuel,
        {
            if fuel == 0 {
                return false;
            }
            match self.nodes[cur].parent {
                None => {
                    return false;
                },
                Some(p) => {
                    if p == a {
                        return true;
                    }
                    cur = p;
                    fuel = fuel - 1;
                },
            }
        }
    }

    /// Checks the two conditions under which `c` cannot be placed under `p`.
    fn check_insert(&self, p: usize, c: usize) -> (r: Result<(), TreeError>)
        requires
            wf(self@),
            valid(self@, p as int),
            valid(self@, c as int),
        ensures
            r == insert_check(self@, p as int, c as int),
    {
        if let NodeData::Document { .. } = self.nodes[c].data {
            Err(TreeError::DocumentChild)
        } else if self.is_inclusive_ancestor(c, p) {
            Err(TreeError::Cycle)
        } else {
            Ok(())
        }
    }

    /// Moves `c` to the end of `p`'s child list.
    pub fn append(&mut self, p: usize, c: usize) -> (r: Result<(), TreeError>)
        requires
            wf(old(self)@),
            valid(old(self)@, p as int),
            valid(old(self)@, c as int),
        ensures
            wf(final(self)@),
            r == insert_check(old(self)@, p as int, c as int),
            r is Err ==> final(self)@ == old(self)@,
            r is Ok ==> final(self)@ == insert_v(
                detach_v(old(self)@, c as int),
                p as int,
                detach_v(old(self)@, c as int)[p as int].children.len() as int,
                c as int,
            ),
    {
        let r = self.check_insert(p, c);
        if r.is_ok() {
            self.detach(c);
            let k = self.nodes[p].children.len();
            self.insert_at(p, k, c);
        }
        r
    }

    /// Moves `c` to the start of `p`'s child list.
    pub fn prepend(&mut self, p: usize, c: usize) -> (r: Result<(), TreeError>)
        requires
            wf(old(self)@),
            valid(old(self)@, p as int),
            valid(old(self)@, c as int),
        ensures
            wf(final(self)@),
            r == insert_check(old(self)@, p as int, c as int),
            r is Err ==> final(self)@ == old(self)@,
            r is Ok ==> final(self)@ == insert_v(detach_v(old(self)@, c as int), p as int, 0, c as int),
    {
        let r = self.check_insert(p, c);
        if r.is_ok() {
            self.detach(c);
            self.insert_at(p, 0, c);
        }
        r
    }

    /// Moves `c` next to `s` under `s`'s parent: before it, or after it when `after` holds.
    fn insert_sibling(&mut self, s: usize, c: usize, after: bool) -> (r: Result<(), TreeError>)
        requires
            wf(old(self)@),
            valid(old(self)@, s as int),
            valid(old(self)@, c as int),
        ensures
            wf(final(self)@),
            r == sibling_check(old(self)@, s as int, c as int),
            r is Err || c == s ==> final(self)@ == old(self)@,
            r is Ok && c != s ==> ({
                let p = old(self)@[s as int].parent->0 as int;
                let d = detach_v(old(self)@, c as int);
                let k = pos_in(d[p].children, s);
                final(self)@ == insert_v(d, p, if after { k + 1 } else { k }, c as int)
            }),
    {
        match self.nodes[s].parent {
            None => Err(TreeError::NoParent),
            Some(p) => {
                let r = self.check_insert(p, c);
                if r.is_ok() && c != s {
                    self.detach(c);
                    let k = self.child_index(p, s);
                    let len = self.nodes[p].children.len();
                    let k2 = if after {
                        assert(k < len);
                        k + 1
                    } else {
                        k
                    };
                    self.insert_at(p, k2, c);
                }
                r
            },
        }
    }

    /// Moves `c` to just before `s` in `s`'s parent's child list.
    pub fn insert_before(&mut self, s: usize, c: usize) -> (r: Result<(), TreeError>)
        requires
            wf(old(self)@),
            valid(old(self)@, s as int),
            valid(old(self)@, c as int),
        ensures
            wf(final(self)@),
            r == sibling_check(old(self)@, s as int, c as int),
            r is Err || c == s ==> final(self)@ == old(self)@,
            r is Ok && c != s ==> ({
                let p = old(self)@[s as int].parent->0 as int;
                let d = detach_v(old(self)@, c as int);
                final(self)@ == insert_v(d, p, pos_in(d[p].children, s), c as int)
            }),
    {
        self.insert_sibling(s, c, false)
    }

    /// Moves `c` to just after `s` in `s`'s parent's child list.
    pub fn insert_after(&mut self, s: usize, c: usize) -> (r: Result<(), TreeError>)
        requires
            wf(old(self)@),
            valid(old(self)@, s as int),
            valid(old(self)@, c as int),
        ensures
            wf(final(self)@),
            r == sibling_check(old(self)@, s as int, c as int),
            r is Err || c == s ==> final(self)@ == old(self)@,
            r is Ok && c != s ==> ({
                let p = old(self)@[s as int].parent->0 as int;
                let d = detach_v(old(self)@, c as int);
                final(self)@ == insert_v(d, p, pos_in(d[p].children, s) + 1, c as int)
            }),
    {
        self.insert_sibling(s, c, true)
    }

    /// The proper ancestors of `n`, nearest first.
    pub fn ancestors(&self, n: usize) -> (r: Vec<usize>)
        requires
            wf(self@),
            valid(self@, n as int),
        ensures
            r@ == ancestors_of(self@, n as int),
    {
        let mut r: Vec<usize> = Vec::new();
        let mut cur = n;
        let mut fuel = self.nodes.len();
        loop
            invariant
                wf(self@),
                valid(self@, cur as int),
                r@ + ancestors_within(self@, cur as int, fuel as nat) == ancestors_of(self@, n as int),
            decreases fuel,
        {
            if fuel == 0 {
                assert(r@ =~= r@ + ancestors_within(self@, cur as int, fuel as nat));
                return r;
            }
            match self.nodes[cur].parent {
                None => {
                    assert(r@ =~= r@ + ancestors_within(self@, cur as int, fuel as nat));
                    return r;
                },
                Some(p) => {
                    let ghost old_r = r@;
                    r.push(p);
                    assert(old_r + ancestors_within(self@, cur as int, fuel as nat) =~= r@
                        + ancestors_within(self@, p as int, (fuel - 1) as nat));
                    cur = p;
                    fuel = fuel - 1;
                },
            }
        }
    }

    /// `n` followed by its proper ancestors, nearest first.
    pub fn inclusive_ancestors(&self, n: usize) -> (r: Vec<usize>)
        requires
            wf(self@),
            valid(self@, n as int),
        ensures
            r@ == seq![n] + ancestors_of(self@, n as int),
    {
        let anc = self.ancestors(n);
        let mut r: Vec<usize> = Vec::new();
        r.push(n);
        let mut i: usize = 0;
        while i < anc.len()
            invariant
                i <= anc@.len(),
                r@ == seq![n] + anc@.subrange(0, i as int),
            decreases anc@.len() - i,
        {
            r.push(anc[i]);
            i = i + 1;
            assert(r@ =~= seq![n] + anc@.subrange(0, i as int));
        }
        assert(anc@.subrange(0, i as int) =~= anc@);
        r
    }

    /// The siblings after `n`, in document order.
    pub fn following_siblings(&self, n: usize) -> (r: Vec<usize>)
        requires
            wf(self@),
            valid(self@, n as int),
        ensures
            r@ == following_of(self@, n as int),
    {
        match self.nodes[n].parent {
            None => Vec::new(),
            Some(p) => {
                let k = self.child_index(p, n);
                let kids = &self.nodes[p].children;
                let len = kids.len();
                let mut r: Vec<usize> = Vec::new();
                let mut i: usize = k + 1;
                while i < len
                    invariant
                        len == kids@.len(),
                        k < kids@.len(),
                        k + 1 <= i <= kids@.len(),
                        r@ == kids@.subrange(k + 1, i as int),
                    decreases kids@.len() - i,
                {
                    r.push(kids[i]);
                    i = i + 1;
                    assert(r@ =~= kids@.subrange(k + 1, i as int));
                }
                r
            },
        }
    }

    /// The siblings before `n`, nearest first.
    pub fn preceding_siblings(&self, n: usize) -> (r: Vec<usize>)
        requires
            wf(self@),
            valid(self@, n as int),
        ensures
            r@ == preceding_of(self@, n as int),
    {
        match self.nodes[n].parent {
            None => Vec::new(),
            Some(p) => {
                let k = self.child_index(p, n);
                let kids = &self.nodes[p].children;
                let mut r: Vec<usize> = Vec::new();
                let mut i: usize = k;
                while i > 0
                    invariant
                        k < kids@.len(),
                        i <= k,
                        r@ == kids@.subrange(i as int, k as int).reverse(),
                    decreases i,
                {
                    i = i - 1;
                    r.push(kids[i]);
                    assert(r@ =~= kids@.subrange(i as int, k as int).reverse());
                }
                r
            },
        }
    }

    /// Appends the pre-order walk of `n` (to `fuel` levels) to `out`.
    fn collect_preorder(&self, n: usize, fuel: usize, out: &mut Vec<usize>)
        requires
            wf(self@),
            valid(self@, n as int),
        ensures
            final(out)@ == old(out)@ + preorder(self@, n as int, fuel as nat),
        decreases fuel,
    {
        if fuel == 0 {
            assert(final(out)@ =~= old(out)@ + preorder(self@, n as int, fuel as nat));
            return;
        }
        out.push(n);
        let kids = &self.nodes[n].children;
        let ghost start = out@;
        let mut i: usize = 0;
        while i < kids.len()
            invariant
                wf(self@),
                valid(self@, n as int),
                fuel > 0,
                kids@ == self@[n as int].children,
                i <= kids@.len(),
                out@ == start + preorder_list(self@, kids@.subrange(0, i as int), (fuel - 1) as nat),
            decreases kids@.len() - i,
        {
            let c = kids[i];
            assert(valid(self@, c as int));
            self.collect_preorder(c, fuel - 1, out);
            let ghost pre = kids@.subrange(0, i as int);
            i = i + 1;
            assert(kids@.subrange(0, i as int).drop_last() =~= pre);
        }
        assert(kids@.subrange(0, i as int) =~= kids@);
        assert(out@ =~= old(out)@ + preorder(self@, n as int, fuel as nat));
    }

    /// `n` and its descendants, in document order.
    pub fn inclusive_descendants(&self, n: usize) -> (r: Vec<usize>)
        requires
            wf(self@),
            valid(self@, n as int),
        ensures
            r@ == inclusive_descendants_of(self@, n as int),
    {
        let mut r: Vec<usize> = Vec::new();
        self.collect_preorder(n, self.nodes.len(), &mut r);
        assert(r@ =~= inclusive_descendants_of(self@, n as int));
        r
    }

    /// The descendants of `n`, in document order, `n` excluded.
    pub fn descendants(&self, n: usize) -> (r: Vec<usize>)
        requires
            wf(self@),
            valid(self@, n as int),
        ensures
            r@ == descendants_of(self@, n as int),
    {
        let mut all = self.inclusive_descendants(n);
        all.remove(0);
        assert(all@ =~= descendants_of(self@, n as int));
        all
    }

    /// The characters of the text nodes among `ns`, concatenated in order.
    pub fn texts(&self, ns: &Vec<usize>) -> (r: Vec<char>)
        ensures
            r@ == texts_of(self@, ns@),
    {
        let mut r: Vec<char> = Vec::new();
        let mut i: usize = 0;
        while i < ns.len()
            invariant
                i <= ns@.len(),
                r@ == texts_of(self@, ns@.subrange(0, i as int)),
            decreases ns@.len() - i,
        {
            let n = ns[i];
            let ghost pre = ns@.subrange(0, i as int);
            if n < self.nodes.len() {
                if let NodeData::Text { contents } = &self.nodes[n].data {
                    let mut j: usize = 0;
                    let ghost base = r@;
                    while j < contents.len()
                        invariant
                            j <= contents@.len(),
                            r@ == base + contents@.subrange(0, j as int),
                        decreases contents@.len() - j,
                    {
                        r.push(contents[j]);
                        j = j + 1;
                        assert(r@ =~= base + contents@.subrange(0, j as int));
                    }
                    assert(contents@.subrange(0, j as int) =~= contents@);
                }
            }
            i = i + 1;
            assert(ns@.subrange(0, i as int).drop_last() =~= pre);
            assert(r@ =~= texts_of(self@, ns@.subrange(0, i as int)));
        }
        assert(ns@.subrange(0, i as int) =~= ns@);
        r
    }

    /// The text of all text nodes in the subtree of `n`, in document order.
    pub fn text_contents(&self, n: usize) -> (r: Vec<char>)
        requires
            wf(self@),
            valid(self@, n as int),
        ensures
            r@ == texts_of(self@, inclusive_descendants_of(self@, n as int)),
    {
        let all = self.inclusive_descendants(n);
        self.texts(&all)
    }
}

/// Why `c` cannot be placed under `p`, if it cannot.
pub open spec fn insert_check(v: Seq<NodeV>, p: int, c: int) -> Result<(), TreeError> {
    if is_document(v[c].data) {
        Err(TreeError::DocumentChild)
    } else if c == p || is_ancestor(v, c, p) {
        Err(TreeError::Cycle)
    } else {
        Ok(())
    }
}

/// Moving `c` to the end of `p`'s children keeps the subtree of `c` as it
/// was: its content and its children, in order. Only the old parent loses
/// `c`, only `p` gains it, and `c`'s parent becomes `p`.
pub proof fn lemma_move_keeps_subtree(v: Seq<NodeV>, p: int, c: int)
    requires
        wf(v),
        valid(v, p),
        valid(v, c),
        insert_check(v, p, c) is Ok,
    ensures
        ({
            let d = detach_v(v, c);
            let w = insert_v(d, p, d[p].children.len() as int, c);
            &&& w.len() == v.len()
            &&& w[c].data == v[c].data
            &&& w[c].children == v[c].children
            &&& w[c].parent == Some(p as usize)
            &&& w[p].children.last() == c as usize
            &&& forall|i: int| 0 <= i < v.len() ==> #[trigger] w[i].data == v[i].data
            &&& forall|i: int|
                0 <= i < v.len() && i != p && Some(i as usize) != v[c].parent
                    ==> #[trigger] w[i].children == v[i].children
            &&& forall|i: int| 0 <= i < v.len() && i != c ==> #[trigger] w[i].parent == v[i].parent
        }),
{
    let d = detach_v(v, c);
    let k = d[p].children.len() as int;
    d[p].children.insert_ensures(k, c as usize);
}

/// The siblings after `n`, in document order.
pub open spec fn following_of(v: Seq<NodeV>, n: int) -> Seq<usize> {
    match v[n].parent {
        None => seq![],
        Some(p) => {
            let kids = v[p as int].children;
            kids.subrange(pos_in(kids, n as usize) + 1, kids.len() as int)
        },
    }
}

/// The siblings before `n`, nearest first.
pub open spec fn preceding_of(v: Seq<NodeV>, n: int) -> Seq<usize> {
    match v[n].parent {
        None => seq![],
        Some(p) => {
            let kids = v[p as int].children;
            kids.subrange(0, pos_in(kids, n as usize)).reverse()
        },
    }
}

/// Changing the content of one node keeps the invariants, as long as a
/// document stays a document and template contents stay in range.
pub proof fn lemma_data_change(v: Seq<NodeV>, w: Seq<NodeV>, n: int)
    requires
        wf(v),
        valid(v, n),
        w.len() == v.len(),
        forall|i: int| 0 <= i < v.len() && i != n ==> w[i] == v[i],
        w[n].parent == v[n].parent,
        w[n].children == v[n].children,
        is_document(w[n].data) ==> is_document(v[n].data),
        w[n].data is Element && w[n].data->Element_template_contents is Some ==> valid(
            v,
            w[n].data->Element_template_contents->0 as int,
        ),
    ensures
        wf(w),
{
    assert forall|i: int, k: int|
        valid(w, i) && 0 <= k < w[i].children.len() implies {
            let c = #[trigger] w[i].children[k];
            valid(w, c as int) && w[c as int].parent == Some(i as usize)
        } by {
        assert(w[i].children == v[i].children);
        let c = v[i].children[k];
        assert(w[c as int].parent == v[c as int].parent);
    }
    assert forall|i: int|
        #![trigger w[i].parent]
        valid(w, i) && w[i].parent is Some implies {
            let p = w[i].parent->0;
            valid(w, p as int) && w[p as int].children.contains(i as usize)
        } by {
        assert(w[i].parent == v[i].parent);
        let p = v[i].parent->0;
        assert(w[p as int].children == v[p as int].children);
    }
    assert forall|i: int| #![trigger w[i].children] valid(w, i) implies w[i].children.no_duplicates() by {
        assert(w[i].children == v[i].children);
    }
    assert forall|i: int|
        #![trigger w[i].data]
        valid(w, i) && is_document(w[i].data) implies w[i].parent is None by {
        if i != n {
            assert(w[i] == v[i]);
        }
    }
    assert forall|i: int|
        #![trigger w[i].data]
        valid(w, i) && w[i].data is Element && w[i].data->Element_template_contents is Some
            implies valid(w, w[i].data->Element_template_contents->0 as int) by {
        if i != n {
            assert(w[i] == v[i]);
        }
    }
}

/// Why `c` cannot be placed next to `s`, if it cannot.
pub open spec fn sibling_check(v: Seq<NodeV>, s: int, c: int) -> Result<(), TreeError> {
    match v[s].parent {
        None => Err(TreeError::NoParent),
        Some(p) => insert_check(v, p as int, c),
    }
}

} // verus!
