//! Selection over a tree: filtering node sequences by a compiled selector set.
use vstd::prelude::*;
use crate::matching::{filter_matches, matches_spec, PassCache};
use crate::position::is_elem;
use crate::compile::{compiled, ListsV};
use crate::selector::{Selectors, SyntaxError};
use crate::tree::{descendants_of, valid, wf, NodeData, NodeV, Tree};

verus! {

/// The element entries of `ns`, in order.
pub open spec fn elements_of(v: Seq<NodeV>, ns: Seq<usize>) -> Seq<usize>
    decreases ns.len(),
{
    if ns.len() == 0 {
        seq![]
    } else {
        let rest = elements_of(v, ns.drop_last());
        if is_elem(v, ns.last() as int) {
            rest.push(ns.last())
        } else {
            rest
        }
    }
}

/// The text-node entries of `ns`, in order.
pub open spec fn text_nodes_of(v: Seq<NodeV>, ns: Seq<usize>) -> Seq<usize>
    decreases ns.len(),
{
    if ns.len() == 0 {
        seq![]
    } else {
        let rest = text_nodes_of(v, ns.drop_last());
        if valid(v, ns.last() as int) && v[ns.last() as int].data is Text {
            rest.push(ns.last())
        } else {
            rest
        }
    }
}

/// Why a single-result selection gave nothing.
#[derive(Clone, Copy, Debug, PartialEq, Eq, Structural)]
pub enum SelectError {
    /// The selector text did not compile.
    Syntax(SyntaxError),
    /// Nothing matched.
    NotFound,
}

impl Selectors {
    /// Whether `n` matches, evaluated on its own with a fresh cache.
    pub fn matches(&self, t: &Tree, n: usize) -> (r: bool)
        requires
            wf(t@),
            self.wf(),
            valid(t@, n as int),
        ensures
            r == matches_spec(t@, self@, n as int),
    {
        let mut cache = PassCache::new(t, self);
        self.list_exec(t, self.lists.len() - 1, n, &mut cache)
    }

    /// The entries of `ns` that match, in order; one cache serves the whole pass.
    pub fn filter(&self, t: &Tree, ns: &Vec<usize>) -> (r: Vec<usize>)
        requires
            wf(t@),
            self.wf(),
        ensures
            r@ == filter_matches(t@, self@, ns@),
    {
        let mut cache = PassCache::new(t, self);
        let top = self.lists.len() - 1;
        let mut r: Vec<usize> = Vec::new();
        let mut i: usize = 0;
        while i < ns.len()
            invariant
                wf(t@),
                self.wf(),
                top == self.lists@.len() - 1,
                cache.inv(t@, self@),
                i <= ns@.len(),
                r@ == filter_matches(t@, self@, ns@.subrange(0, i as int)),
            decreases ns@.len() - i,
        {
            let n = ns[i];
            let ghost pre = ns@.subrange(0, i as int);
            if n < t.len() && self.list_exec(t, top, n, &mut cache) {
                r.push(n);
            }
            i = i + 1;
            assert(ns@.subrange(0, i as int).drop_last() =~= pre);
        }
        assert(ns@.subrange(0, i as int) =~= ns@);
        r
    }

    /// The entries of `ns` that match, in order, each evaluated with a fresh cache.
    pub fn filter_uncached(&self, t: &Tree, ns: &Vec<usize>) -> (r: Vec<usize>)
        requires
            wf(t@),
            self.wf(),
        ensures
            r@ == filter_matches(t@, self@, ns@),
    {
        let mut r: Vec<usize> = Vec::new();
        let mut i: usize = 0;
        while i < ns.len()
            invariant
                wf(t@),
                self.wf(),
                i <= ns@.len(),
                r@ == filter_matches(t@, self@, ns@.subrange(0, i as int)),
            decreases ns@.len() - i,
        {
            let n = ns[i];
            let ghost pre = ns@.subrange(0, i as int);
            if n < t.len() && self.matches(t, n) {
                r.push(n);
            }
            i = i + 1;
            assert(ns@.subrange(0, i as int).drop_last() =~= pre);
        }
        assert(ns@.subrange(0, i as int) =~= ns@);
        r
    }
}

impl Tree {
    /// The element entries of `ns`, in order.
    pub fn elements(&self, ns: &Vec<usize>) -> (r: Vec<usize>)
        ensures
            r@ == elements_of(self@, ns@),
    {
        let mut r: Vec<usize> = Vec::new();
        let mut i: usize = 0;
        while i < ns.len()
            invariant
                i <= ns@.len(),
                r@ == elements_of(self@, ns@.subrange(0, i as int)),
            decreases ns@.len() - i,
        {
            let n = ns[i];
            let ghost pre = ns@.subrange(0, i as int);
            if n < self.nodes.len() {
                if let NodeData::Element { .. } = &self.nodes[n].data {
                    r.push(n);
                }
            }
            i = i + 1;
            assert(ns@.subrange(0, i as int).drop_last() =~= pre);
        }
        assert(ns@.subrange(0, i as int) =~= ns@);
        r
    }

    /// The text-node entries of `ns`, in order.
    pub fn text_nodes(&self, ns: &Vec<usize>) -> (r: Vec<usize>)
        ensures
            r@ == text_nodes_of(self@, ns@),
    {
        let mut r: Vec<usize> = Vec::new();
        let mut i: usize = 0;
        while i < ns.len()
            invariant
                i <= ns@.len(),
                r@ == text_nodes_of(self@, ns@.subrange(0, i as int)),
            decreases ns@.len() - i,
        {
            let n = ns[i];
            let ghost pre = ns@.subrange(0, i as int);
            if n < self.nodes.len() {
                if let NodeData::Text { .. } = &self.nodes[n].data {
                    r.push(n);
                }
            }
            i = i + 1;
            assert(ns@.subrange(0, i as int).drop_last() =~= pre);
        }
        assert(ns@.subrange(0, i as int) =~= ns@);
        r
    }

    /// The descendants of `root` that match `s`, in document order.
    pub fn select_compiled(&self, root: usize, s: &Selectors) -> (r: Vec<usize>)
        requires
            wf(self@),
            s.wf(),
            valid(self@, root as int),
        ensures
            r@ == filter_matches(self@, s@, descendants_of(self@, root as int)),
    {
        let d = self.descendants(root);
        s.filter(self, &d)
    }

    /// Compiles `text` and selects the matching descendants of `root`.
    pub fn select(&self, root: usize, text: &str) -> (r: Result<Vec<usize>, SyntaxError>)
        requires
            wf(self@),
            valid(self@, root as int),
        ensures
            r is Ok <==> compiled(text@) is Ok,
            r is Ok ==> r->Ok_0@ == filter_matches(self@, compiled(text@)->Ok_0, descendants_of(self@, root as int)),
            r is Err ==> r == Err::<Vec<usize>, SyntaxError>(compiled(text@)->Err_0),
    {
        match Selectors::compile(text) {
            Ok(s) => Ok(self.select_compiled(root, &s)),
            Err(e) => Err(e),
        }
    }

    /// The first descendant of `root` in document order that matches `s`.
    pub fn select_first_compiled(&self, root: usize, s: &Selectors) -> (r: Option<usize>)
        requires
            wf(self@),
            s.wf(),
            valid(self@, root as int),
        ensures
            ({
                let m = filter_matches(self@, s@, descendants_of(self@, root as int));
                &&& r is None <==> m.len() == 0
                &&& r is Some ==> r->0 == m[0]
            }),
    {
        let all = self.select_compiled(root, s);
        if all.len() == 0 {
            None
        } else {
            Some(all[0])
        }
    }

    /// Compiles `text` and returns the first matching descendant of `root`.
    pub fn select_first(&self, root: usize, text: &str) -> (r: Result<usize, SelectError>)
        requires
            wf(self@),
            valid(self@, root as int),
        ensures
            r == select_first_spec(self@, root as int, text@),
    {
        match Selectors::compile(text) {
            Ok(s) => match self.select_first_compiled(root, &s) {
                Some(n) => Ok(n),
                None => Err(SelectError::NotFound),
            },
            Err(e) => Err(SelectError::Syntax(e)),
        }
    }
}

/// What `select_first` gives: the syntax error, `NotFound`, or the first match.
pub open spec fn select_first_spec(v: Seq<NodeV>, root: int, text: Seq<char>) -> Result<usize, SelectError> {
    match compiled(text) {
        Err(e) => Err(SelectError::Syntax(e)),
        Ok(s) => {
            let m = filter_matches(v, s, descendants_of(v, root));
            if m.len() == 0 {
                Err(SelectError::NotFound)
            } else {
                Ok(m[0])
            }
        },
    }
}

/// `m` holds exactly one node, whose first child is a text node holding `text`.
pub open spec fn only_match_with_text(v: Seq<NodeV>, m: Seq<usize>, text: Seq<char>) -> bool {
    &&& m.len() == 1
    &&& valid(v, m[0] as int)
    &&& v[m[0] as int].children.len() > 0
    &&& v[v[m[0] as int].children[0] as int].data is Text
    &&& v[v[m[0] as int].children[0] as int].data->Text_contents@ == text
}

/// Whether `selector` compiles and matches exactly one descendant of `root`,
/// whose first child is a text node holding `text`.
pub fn check_only_match(t: &Tree, root: usize, selector: &str, text: &str) -> (r: bool)
    requires
        wf(t@),
        valid(t@, root as int),
    ensures
        r == (compiled(selector@) is Ok && only_match_with_text(
            t@,
            filter_matches(t@, compiled(selector@)->Ok_0, descendants_of(t@, root as int)),
            text@,
        )),
{
    let m = match t.select(root, selector) {
        Ok(m) => m,
        Err(_) => return false,
    };
    proof {
        lemma_filter_valid(t@, compiled(selector@)->Ok_0, descendants_of(t@, root as int));
    }
    if m.len() != 1 {
        return false;
    }
    let first = match t.first_child(m[0]) {
        Some(c) => c,
        None => return false,
    };
    let want = crate::text::chars_of(text);
    match t.data(first) {
        NodeData::Text { contents } => crate::sink::same_chars(contents, &want),
        _ => false,
    }
}

/// Every entry that filtering keeps is a node of the arena.
pub proof fn lemma_filter_valid(v: Seq<NodeV>, s: ListsV, ns: Seq<usize>)
    ensures
        forall|i: int| 0 <= i < filter_matches(v, s, ns).len() ==> valid(v, #[trigger] filter_matches(v, s, ns)[i] as int),
    decreases ns.len(),
{
    if ns.len() > 0 {
        lemma_filter_valid(v, s, ns.drop_last());
        let rest = filter_matches(v, s, ns.drop_last());
        assert forall|i: int| 0 <= i < filter_matches(v, s, ns).len() implies valid(v, #[trigger] filter_matches(v, s, ns)[i] as int) by {
            if i < rest.len() {
                assert(filter_matches(v, s, ns)[i] == rest[i]);
            }
        }
    }
}

/// Where nothing in `ns` matches, selection yields the empty sequence.
pub proof fn lemma_no_match_is_empty(v: Seq<NodeV>, s: ListsV, ns: Seq<usize>)
    requires
        forall|i: int| 0 <= i < ns.len() ==> !matches_spec(v, s, #[trigger] ns[i] as int),
    ensures
        filter_matches(v, s, ns) == Seq::<usize>::empty(),
    decreases ns.len(),
{
    if ns.len() > 0 {
        assert(!matches_spec(v, s, ns[ns.len() - 1] as int));
        lemma_no_match_is_empty(v, s, ns.drop_last());
    }
}

/// Filtering a sequence gives what filtering its elements alone gives: only
/// elements match.
pub proof fn lemma_filter_elements(v: Seq<NodeV>, s: ListsV, ns: Seq<usize>)
    ensures
        filter_matches(v, s, ns) == filter_matches(v, s, elements_of(v, ns)),
    decreases ns.len(),
{
    if ns.len() > 0 {
        lemma_filter_elements(v, s, ns.drop_last());
        let x = ns.last();
        let e = elements_of(v, ns.drop_last());
        if is_elem(v, x as int) {
            assert(elements_of(v, ns) == e.push(x));
            assert(e.push(x).drop_last() =~= e);
        } else {
            if valid(v, x as int) && matches_spec(v, s, x as int) {
                crate::matching::lemma_list_valid_elem(v, s, (s.len() - 1) as nat, x as int);
            }
        }
    }
}

/// Selecting under `root` gives what filtering the elements among its
/// descendants gives, in the same order.
pub proof fn lemma_select_is_filtered_descendants(v: Seq<NodeV>, s: ListsV, root: int)
    ensures
        filter_matches(v, s, descendants_of(v, root)) == filter_matches(
            v,
            s,
            elements_of(v, descendants_of(v, root)),
        ),
{
    lemma_filter_elements(v, s, descendants_of(v, root));
}

} // verus!
