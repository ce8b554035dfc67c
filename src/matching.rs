//! What it means for an element to match a compiled selector set, and the
//! engine that decides it with a per-pass cache.
use vstd::prelude::*;
use crate::compile::is_space;
use crate::position::{
    char_eq, elem_name, is_elem, lemma_total, names_eq, names_match, nth_check, nth_ok, occurs_at,
    occurs_at_exec, position, sibling_counts, sibling_total, PositionCache,
};
use crate::compile::ListsV;
use crate::selector::{
    clause_wf, compound_v, list_wf, simple_wf, AttrOp, Clause, ClauseV, Combinator, Selectors, Simple,
    SimpleV,
};
use crate::tree::{
    ancestors_of, descendants_of, pos_in, valid, wf, Attribute, NodeData, NodeV, Tree,
};

verus! {

/// `w` stands in `s` at `i` as a whole whitespace-separated word.
pub open spec fn word_at(s: Seq<char>, w: Seq<char>, i: int, ci: bool) -> bool {
    &&& occurs_at(s, w, i, ci)
    &&& (i == 0 || is_space(s[i - 1]))
    &&& (i + w.len() == s.len() || is_space(s[i + w.len()]))
}

/// Attribute value `s` satisfies operator `op` with operand `w`.
pub open spec fn value_ok(op: AttrOp, s: Seq<char>, w: Seq<char>, ci: bool) -> bool {
    match op {
        AttrOp::Exists => true,
        AttrOp::Equals => s.len() == w.len() && occurs_at(s, w, 0, ci),
        AttrOp::Prefix => w.len() > 0 && occurs_at(s, w, 0, ci),
        AttrOp::Suffix => w.len() > 0 && occurs_at(s, w, s.len() - w.len(), ci),
        AttrOp::Substring => w.len() > 0 && exists|i: int| occurs_at(s, w, i, ci),
        AttrOp::Includes => w.len() > 0 && (forall|j: int| 0 <= j < w.len() ==> !is_space(#[trigger] w[j]))
            && exists|i: int| word_at(s, w, i, ci),
        AttrOp::DashMatch => occurs_at(s, w, 0, ci) && (s.len() == w.len() || (s.len() > w.len()
            && s[w.len() as int] == '-')),
    }
}

/// Element `n` has an attribute named `name` whose value satisfies `op` with `w`.
pub open spec fn attr_ok(v: Seq<NodeV>, n: int, name: Seq<char>, op: AttrOp, w: Seq<char>, ci: bool) -> bool {
    let attrs = v[n].data->Element_attrs@;
    exists|k: int|
        0 <= k < attrs.len() && names_eq(#[trigger] attrs[k].name@, name) && value_ok(
            op,
            attrs[k].value@,
            w,
            ci,
        )
}

pub open spec fn class_attr() -> Seq<char> {
    seq!['c', 'l', 'a', 's', 's']
}

pub open spec fn id_attr() -> Seq<char> {
    seq!['i', 'd']
}

/// The last element among `cs`, if any.
pub open spec fn last_elem(v: Seq<NodeV>, cs: Seq<usize>) -> Option<usize>
    decreases cs.len(),
{
    if cs.len() == 0 {
        None
    } else if is_elem(v, cs.last() as int) {
        Some(cs.last())
    } else {
        last_elem(v, cs.drop_last())
    }
}

/// The siblings before `n`, in order.
pub open spec fn preceding(v: Seq<NodeV>, n: int) -> Seq<usize> {
    match v[n].parent {
        None => seq![],
        Some(p) => v[p as int].children.subrange(0, pos_in(v[p as int].children, n as usize)),
    }
}

/// Element `n` satisfies simple selector `sm` of list `li`.
pub open spec fn simple_matches(v: Seq<NodeV>, lists: ListsV, li: nat, sm: SimpleV, n: int) -> bool
    decreases li, 0nat, 0nat,
{
    match sm {
        SimpleV::Universal => true,
        SimpleV::Type { name } => names_eq(elem_name(v, n), name),
        SimpleV::Id { name } => attr_ok(v, n, id_attr(), AttrOp::Equals, name, false),
        SimpleV::Class { name } => attr_ok(v, n, class_attr(), AttrOp::Includes, name, false),
        SimpleV::Attr { name, op, value, ci } => attr_ok(v, n, name, op, value, ci),
        SimpleV::Nth { a, b, from_end, of_type } => nth_ok(a, b, position(v, n, of_type, from_end)),
        SimpleV::Only { of_type } => sibling_total(v, n, of_type) == 1,
        SimpleV::Is { list } => 0 <= list < li && list_matches(v, lists, list as nat, n),
        SimpleV::Has { list } => 0 <= list < li && exists|j: int|
            0 <= j < descendants_of(v, n).len() && list_matches(
                v,
                lists,
                list as nat,
                #[trigger] descendants_of(v, n)[j] as int,
            ),
    }
}

/// `n` is an element satisfying every simple selector of `cp`.
pub open spec fn compound_matches(v: Seq<NodeV>, lists: ListsV, li: nat, cp: Seq<SimpleV>, n: int) -> bool
    decreases li, 1nat, 0nat,
{
    is_elem(v, n) && forall|j: int| 0 <= j < cp.len() ==> simple_matches(v, lists, li, #[trigger] cp[j], n)
}

/// Compounds `0..=k` of clause `c` match, compound `k` at `n`.
pub open spec fn clause_from(v: Seq<NodeV>, lists: ListsV, li: nat, c: ClauseV, k: nat, n: int) -> bool
    decreases li, 2nat, k,
{
    &&& k < c.compounds.len()
    &&& compound_matches(v, lists, li, c.compounds[k as int], n)
    &&& (k == 0 || match c.combinators[k - 1] {
        Combinator::Child => match v[n].parent {
            None => false,
            Some(p) => clause_from(v, lists, li, c, (k - 1) as nat, p as int),
        },
        Combinator::Descendant => exists|j: int|
            0 <= j < ancestors_of(v, n).len() && clause_from(
                v,
                lists,
                li,
                c,
                (k - 1) as nat,
                #[trigger] ancestors_of(v, n)[j] as int,
            ),
        Combinator::NextSibling => match last_elem(v, preceding(v, n)) {
            None => false,
            Some(e) => clause_from(v, lists, li, c, (k - 1) as nat, e as int),
        },
        Combinator::LaterSibling => exists|j: int|
            0 <= j < preceding(v, n).len() && clause_from(
                v,
                lists,
                li,
                c,
                (k - 1) as nat,
                #[trigger] preceding(v, n)[j] as int,
            ),
    })
}

/// `n` matches some clause of list `li`.
pub open spec fn list_matches(v: Seq<NodeV>, lists: ListsV, li: nat, n: int) -> bool
    decreases li, 3nat, 0nat,
{
    li < lists.len() && exists|ci: int|
        0 <= ci < lists[li as int].len() && clause_from(
            v,
            lists,
            li,
            #[trigger] lists[li as int][ci],
            (lists[li as int][ci].compounds.len() - 1) as nat,
            n,
        )
}

/// `n` matches the top-level list of `s`.
pub open spec fn matches_spec(v: Seq<NodeV>, s: ListsV, n: int) -> bool {
    list_matches(v, s, (s.len() - 1) as nat, n)
}

/// The entries of `ns` that match `s`, in order.
pub open spec fn filter_matches(v: Seq<NodeV>, s: ListsV, ns: Seq<usize>) -> Seq<usize>
    decreases ns.len(),
{
    if ns.len() == 0 {
        seq![]
    } else {
        let rest = filter_matches(v, s, ns.drop_last());
        if valid(v, ns.last() as int) && matches_spec(v, s, ns.last() as int) {
            rest.push(ns.last())
        } else {
            rest
        }
    }
}

/// Memoized results for one selection pass over one arena.
pub struct PassCache {
    pub positions: PositionCache,
    pub memo: Vec<Vec<Option<bool>>>,
}

impl PassCache {
    /// Every memoized entry holds the true value.
    pub open spec fn inv(&self, v: Seq<NodeV>, lists: ListsV) -> bool {
        &&& self.positions.inv(v)
        &&& self.memo@.len() == lists.len()
        &&& forall|li: int| 0 <= li < lists.len() ==> (#[trigger] self.memo@[li])@.len() == v.len()
        &&& forall|li: int, x: int|
            0 <= li < lists.len() && 0 <= x < v.len() && (#[trigger] self.memo@[li]@[x]) is Some
                ==> self.memo@[li]@[x]->0 == list_matches(v, lists, li as nat, x)
    }

    /// An empty cache for `t` and `s`.
    pub fn new(t: &Tree, s: &Selectors) -> (c: PassCache)
        ensures
            c.inv(t@, s@),
    {
        let n = t.len();
        let positions = PositionCache::new(n);
        let mut memo: Vec<Vec<Option<bool>>> = Vec::new();
        let mut i: usize = 0;
        while i < s.lists.len()
            invariant
                i <= s.lists@.len(),
                n == t@.len(),
                memo@.len() == i,
                forall|li: int| 0 <= li < i ==> (#[trigger] memo@[li])@.len() == n,
                forall|li: int, x: int| 0 <= li < i && 0 <= x < n ==> (#[trigger] memo@[li]@[x]) is None,
            decreases s.lists@.len() - i,
        {
            let mut row: Vec<Option<bool>> = Vec::new();
            let mut j: usize = 0;
            while j < n
                invariant
                    j <= n,
                    row@.len() == j,
                    forall|x: int| 0 <= x < j ==> row@[x] is None,
                decreases n - j,
            {
                row.push(None);
                j = j + 1;
            }
            memo.push(row);
            i = i + 1;
        }
        PassCache { positions, memo }
    }
}

fn has_word_or_sub(s: &Vec<char>, w: &Vec<char>, ci: bool, word: bool) -> (r: bool)
    requires
        w@.len() > 0,
    ensures
        !word ==> r == exists|i: int| occurs_at(s@, w@, i, ci),
        word ==> r == exists|i: int| word_at(s@, w@, i, ci),
{
    let n = s.len();
    if w.len() > n {
        return false;
    }
    let last = n - w.len();
    let mut i: usize = 0;
    while i <= last
        invariant
            n == s@.len(),
            w@.len() > 0,
            last + w@.len() == n,
            i <= last + 1,
            !word ==> forall|j: int| 0 <= j < i ==> !occurs_at(s@, w@, j, ci),
            word ==> forall|j: int| 0 <= j < i ==> !word_at(s@, w@, j, ci),
        decreases last + 1 - i,
    {
        if occurs_at_exec(s, w, i, ci) {
            if !word {
                return true;
            }
            let left = i == 0 || crate::compile::space_char(s[i - 1]);
            let right = i + w.len() == n || crate::compile::space_char(s[i + w.len()]);
            if left && right {
                assert(word_at(s@, w@, i as int, ci));
                return true;
            }
        }
        i = i + 1;
    }
    false
}

fn value_check(op: AttrOp, s: &Vec<char>, w: &Vec<char>, ci: bool) -> (r: bool)
    ensures
        r == value_ok(op, s@, w@, ci),
{
    match op {
        AttrOp::Exists => true,
        AttrOp::Equals => s.len() == w.len() && occurs_at_exec(s, w, 0, ci),
        AttrOp::Prefix => w.len() > 0 && occurs_at_exec(s, w, 0, ci),
        AttrOp::Suffix => w.len() > 0 && w.len() <= s.len() && occurs_at_exec(s, w, s.len() - w.len(), ci),
        AttrOp::Substring => w.len() > 0 && has_word_or_sub(s, w, ci, false),
        AttrOp::Includes => {
            if w.len() == 0 {
                return false;
            }
            let mut j: usize = 0;
            while j < w.len()
                invariant
                    op == AttrOp::Includes,
                    j <= w@.len(),
                    forall|m: int| 0 <= m < j ==> !is_space(#[trigger] w@[m]),
                decreases w@.len() - j,
            {
                if crate::compile::space_char(w[j]) {
                    assert(is_space(w@[j as int]));
                    return false;
                }
                j = j + 1;
            }
            has_word_or_sub(s, w, ci, true)
        },
        AttrOp::DashMatch => occurs_at_exec(s, w, 0, ci) && (s.len() == w.len() || (s.len()
            > w.len() && s[w.len()] == '-')),
    }
}

fn attr_check(attrs: &Vec<Attribute>, name: &Vec<char>, op: AttrOp, w: &Vec<char>, ci: bool) -> (r: bool)
    ensures
        r == exists|k: int|
            0 <= k < attrs@.len() && names_eq(#[trigger] attrs@[k].name@, name@) && value_ok(
                op,
                attrs@[k].value@,
                w@,
                ci,
            ),
{
    let mut k: usize = 0;
    while k < attrs.len()
        invariant
            k <= attrs@.len(),
            forall|j: int|
                0 <= j < k ==> !(names_eq(#[trigger] attrs@[j].name@, name@) && value_ok(
                    op,
                    attrs@[j].value@,
                    w@,
                    ci,
                )),
        decreases attrs@.len() - k,
    {
        if names_match(&attrs[k].name, name) && value_check(op, &attrs[k].value, w, ci) {
            return true;
        }
        k = k + 1;
    }
    false
}

/// The siblings before `n`, in order.
fn preceding_exec(t: &Tree, n: usize) -> (r: Vec<usize>)
    requires
        wf(t@),
        valid(t@, n as int),
    ensures
        r@ == preceding(t@, n as int),
{
    match t.nodes[n].parent {
        None => Vec::new(),
        Some(p) => {
            let k = t.child_index(p, n);
            let kids = &t.nodes[p].children;
            let mut r: Vec<usize> = Vec::new();
            let mut i: usize = 0;
            while i < k
                invariant
                    i <= k <= kids@.len(),
                    r@ == kids@.subrange(0, i as int),
                decreases k - i,
            {
                r.push(kids[i]);
                i = i + 1;
                assert(r@ =~= kids@.subrange(0, i as int));
            }
            r
        },
    }
}

/// The last element among `cs`, if any.
fn last_elem_exec(t: &Tree, cs: &Vec<usize>) -> (r: Option<usize>)
    ensures
        r == last_elem(t@, cs@),
{
    let mut i: usize = cs.len();
    assert(cs@.subrange(0, i as int) =~= cs@);
    while i > 0
        invariant
            i <= cs@.len(),
            last_elem(t@, cs@) == last_elem(t@, cs@.subrange(0, i as int)),
        decreases i,
    {
        let c = cs[i - 1];
        let ghost sub = cs@.subrange(0, i as int);
        if c < t.nodes.len() {
            if let NodeData::Element { .. } = &t.nodes[c].data {
                return Some(c);
            }
        }
        i = i - 1;
        assert(sub.drop_last() =~= cs@.subrange(0, i as int));
    }
    assert(cs@.subrange(0, 0) =~= Seq::<usize>::empty());
    None
}

/// Records a list outcome in the memo.
fn remember(t: &Tree, s: &Selectors, cache: &mut PassCache, li: usize, n: usize, r: bool)
    requires
        old(cache).inv(t@, s@),
        li < s.lists@.len(),
        valid(t@, n as int),
        r == list_matches(t@, s@, li as nat, n as int),
    ensures
        final(cache).inv(t@, s@),
{
    cache.memo[li].set(n, Some(r));
    assert forall|l: int| 0 <= l < s.lists@.len() implies (#[trigger] cache.memo@[l])@.len() == t@.len() by {
        assert(old(cache).memo@[l]@.len() == t@.len());
    }
    assert forall|l: int, x: int|
        0 <= l < s.lists@.len() && 0 <= x < t@.len() && (#[trigger] cache.memo@[l]@[x]) is Some
            implies cache.memo@[l]@[x]->0 == list_matches(t@, s@, l as nat, x) by {
        if l != li || x != n {
            assert(cache.memo@[l]@[x] == old(cache).memo@[l]@[x]);
        }
    }
}

proof fn lemma_clause_valid(v: Seq<NodeV>, lists: ListsV, li: nat, c: ClauseV, k: nat, n: int)
    requires
        clause_from(v, lists, li, c, k, n),
    ensures
        valid(v, n),
{
    assert(compound_matches(v, lists, li, c.compounds[k as int], n));
}

proof fn lemma_list_valid(v: Seq<NodeV>, lists: ListsV, li: nat, n: int)
    requires
        list_matches(v, lists, li, n),
    ensures
        valid(v, n),
{
    let ci = choose|ci: int|
        0 <= ci < lists[li as int].len() && clause_from(
            v,
            lists,
            li,
            #[trigger] lists[li as int][ci],
            (lists[li as int][ci].compounds.len() - 1) as nat,
            n,
        );
    lemma_clause_valid(v, lists, li, lists[li as int][ci], (lists[li as int][ci].compounds.len() - 1) as nat, n);
}

/// Only elements match a list.
pub proof fn lemma_list_valid_elem(v: Seq<NodeV>, lists: ListsV, li: nat, n: int)
    requires
        list_matches(v, lists, li, n),
    ensures
        is_elem(v, n),
{
    let ci = choose|ci: int|
        0 <= ci < lists[li as int].len() && clause_from(
            v,
            lists,
            li,
            #[trigger] lists[li as int][ci],
            (lists[li as int][ci].compounds.len() - 1) as nat,
            n,
        );
    let c = lists[li as int][ci];
    assert(compound_matches(v, lists, li, c.compounds[c.compounds.len() - 1], n));
}

proof fn lemma_last_elem(v: Seq<NodeV>, cs: Seq<usize>)
    ensures
        last_elem(v, cs) is Some ==> is_elem(v, last_elem(v, cs)->0 as int),
    decreases cs.len(),
{
    if cs.len() > 0 {
        lemma_last_elem(v, cs.drop_last());
    }
}

impl Selectors {
    /// Compiles a comma-separated selector list: the result is what
    /// `compiled` gives for the text.
    pub fn compile(text: &str) -> (r: Result<Selectors, crate::selector::SyntaxError>)
        ensures
            r is Ok ==> r->Ok_0.wf(),
            match r {
                Ok(sel) => crate::compile::compiled(text@) == Ok::<crate::compile::ListsV, crate::selector::SyntaxError>(sel@),
                Err(e) => crate::compile::compiled(text@) == Err::<crate::compile::ListsV, crate::selector::SyntaxError>(e),
            },
    {
        crate::compile::compile(text)
    }

    fn simple_exec(&self, t: &Tree, li: usize, sm: &Simple, n: usize, cache: &mut PassCache) -> (r: bool)
        requires
            wf(t@),
            self.wf(),
            li < self.lists@.len(),
            simple_wf(*sm, li as int),
            is_elem(t@, n as int),
            old(cache).inv(t@, self@),
        ensures
            final(cache).inv(t@, self@),
            r == simple_matches(t@, self@, li as nat, sm@, n as int),
        decreases li, 0nat, 0nat,
    {
        let (en, attrs) = match &t.nodes[n].data {
            NodeData::Element { name, attrs, .. } => (name, attrs),
            _ => return false,
        };
        match sm {
            Simple::Universal => true,
            Simple::Type { name } => names_match(en, name),
            Simple::Id { name } => {
                let id = crate::text::chars_of("id");
                proof {
                    reveal_strlit("id");
                    assert(id@ =~= id_attr());
                }
                attr_check(attrs, &id, AttrOp::Equals, name, false)
            },
            Simple::Class { name } => {
                let class = crate::text::chars_of("class");
                proof {
                    reveal_strlit("class");
                    assert(class@ =~= class_attr());
                }
                attr_check(attrs, &class, AttrOp::Includes, name, false)
            },
            Simple::Attr { name, op, value, ci } => attr_check(attrs, name, *op, value, *ci),
            Simple::Nth { a, b, from_end, of_type } => {
                let p = if !*of_type {
                    cache.positions.position(t, n, *from_end)
                } else {
                    let (bf, tot) = sibling_counts(t, n, true);
                    proof {
                        if t@[n as int].parent is Some {
                            lemma_total(t@, n as int, true);
                        }
                    }
                    if *from_end {
                        tot - bf
                    } else {
                        bf + 1
                    }
                };
                nth_check(*a, *b, p)
            },
            Simple::Only { of_type } => {
                let (_bf, tot) = sibling_counts(t, n, *of_type);
                tot == 1
            },
            Simple::Is { list } => self.list_exec(t, *list, n, cache),
            Simple::Has { list } => {
                let d = t.descendants(n);
                let mut j: usize = 0;
                while j < d.len()
                    invariant
                        wf(t@),
                        self.wf(),
                        *list < li,
                        *sm == (Simple::Has { list: *list }),
                        li < self.lists@.len(),
                        d@ == descendants_of(t@, n as int),
                        cache.inv(t@, self@),
                        j <= d@.len(),
                        forall|m: int|
                            0 <= m < j ==> !list_matches(t@, self@, *list as nat, #[trigger] d@[m] as int),
                    decreases d@.len() - j,
                {
                    if d[j] < t.nodes.len() && self.list_exec(t, *list, d[j], cache) {
                        assert(list_matches(t@, self@, *list as nat, d@[j as int] as int));
                        return true;
                    }
                    proof {
                        if list_matches(t@, self@, *list as nat, d@[j as int] as int) {
                            lemma_list_valid(t@, self@, *list as nat, d@[j as int] as int);
                        }
                    }
                    j = j + 1;
                }
                false
            },
        }
    }

    fn compound_exec(&self, t: &Tree, li: usize, cp: &Vec<Simple>, n: usize, cache: &mut PassCache) -> (r: bool)
        requires
            wf(t@),
            self.wf(),
            li < self.lists@.len(),
            forall|j: int| 0 <= j < cp@.len() ==> simple_wf(#[trigger] cp@[j], li as int),
            valid(t@, n as int),
            old(cache).inv(t@, self@),
        ensures
            final(cache).inv(t@, self@),
            r == compound_matches(t@, self@, li as nat, compound_v(cp@), n as int),
        decreases li, 1nat, 0nat,
    {
        if let NodeData::Element { .. } = &t.nodes[n].data {
        } else {
            return false;
        }
        let mut j: usize = 0;
        while j < cp.len()
            invariant
                wf(t@),
                self.wf(),
                li < self.lists@.len(),
                forall|m: int| 0 <= m < cp@.len() ==> simple_wf(#[trigger] cp@[m], li as int),
                is_elem(t@, n as int),
                cache.inv(t@, self@),
                j <= cp@.len(),
                forall|m: int| 0 <= m < j ==> simple_matches(t@, self@, li as nat, #[trigger] cp@[m]@, n as int),
            decreases cp@.len() - j,
        {
            if !self.simple_exec(t, li, &cp[j], n, cache) {
                assert(compound_v(cp@)[j as int] == cp@[j as int]@);
                return false;
            }
            j = j + 1;
        }
        assert forall|m: int| 0 <= m < compound_v(cp@).len() implies simple_matches(t@, self@, li as nat, #[trigger] compound_v(cp@)[m], n as int) by {
            assert(compound_v(cp@)[m] == cp@[m]@);
        }
        true
    }

    fn clause_exec(&self, t: &Tree, li: usize, c: &Clause, k: usize, n: usize, cache: &mut PassCache) -> (r: bool)
        requires
            wf(t@),
            self.wf(),
            li < self.lists@.len(),
            clause_wf(*c, li as int),
            k < c.compounds@.len(),
            valid(t@, n as int),
            old(cache).inv(t@, self@),
        ensures
            final(cache).inv(t@, self@),
            r == clause_from(t@, self@, li as nat, c@, k as nat, n as int),
        decreases li, 2nat, k,
    {
        proof {
            assert forall|j: int| 0 <= j < c.compounds@[k as int]@.len() implies simple_wf(#[trigger] c.compounds@[k as int]@[j], li as int) by {
                assert(simple_wf(c.compounds@[k as int]@[j], li as int));
            }
        }
        if !self.compound_exec(t, li, &c.compounds[k], n, cache) {
            return false;
        }
        if k == 0 {
            return true;
        }
        match c.combinators[k - 1] {
            Combinator::Child => match t.nodes[n].parent {
                None => false,
                Some(p) => self.clause_exec(t, li, c, k - 1, p, cache),
            },
            Combinator::Descendant => {
                let anc = t.ancestors(n);
                let mut j: usize = 0;
                while j < anc.len()
                    invariant
                        wf(t@),
                        self.wf(),
                        li < self.lists@.len(),
                        clause_wf(*c, li as int),
                        0 < k < c.compounds@.len(),
                        anc@ == ancestors_of(t@, n as int),
                        c.combinators@[k - 1] == Combinator::Descendant,
                        compound_matches(t@, self@, li as nat, compound_v(c.compounds@[k as int]@), n as int),
                        cache.inv(t@, self@),
                        j <= anc@.len(),
                        forall|m: int|
                            0 <= m < j ==> !clause_from(t@, self@, li as nat, c@, (k - 1) as nat, #[trigger] anc@[m] as int),
                    decreases anc@.len() - j,
                {
                    if anc[j] < t.nodes.len() && self.clause_exec(t, li, c, k - 1, anc[j], cache) {
                        assert(clause_from(t@, self@, li as nat, c@, (k - 1) as nat, anc@[j as int] as int));
                        return true;
                    }
                    proof {
                        if clause_from(t@, self@, li as nat, c@, (k - 1) as nat, anc@[j as int] as int) {
                            lemma_clause_valid(t@, self@, li as nat, c@, (k - 1) as nat, anc@[j as int] as int);
                        }
                    }
                    j = j + 1;
                }
                false
            },
            Combinator::NextSibling => {
                let pre = preceding_exec(t, n);
                match last_elem_exec(t, &pre) {
                    None => false,
                    Some(e) => {
                        proof {
                            lemma_last_elem(t@, pre@);
                        }
                        self.clause_exec(t, li, c, k - 1, e, cache)
                    },
                }
            },
            Combinator::LaterSibling => {
                let pre = preceding_exec(t, n);
                let mut j: usize = 0;
                while j < pre.len()
                    invariant
                        wf(t@),
                        self.wf(),
                        li < self.lists@.len(),
                        clause_wf(*c, li as int),
                        0 < k < c.compounds@.len(),
                        pre@ == preceding(t@, n as int),
                        c.combinators@[k - 1] == Combinator::LaterSibling,
                        compound_matches(t@, self@, li as nat, compound_v(c.compounds@[k as int]@), n as int),
                        cache.inv(t@, self@),
                        j <= pre@.len(),
                        forall|m: int|
                            0 <= m < j ==> !clause_from(t@, self@, li as nat, c@, (k - 1) as nat, #[trigger] pre@[m] as int),
                    decreases pre@.len() - j,
                {
                    if pre[j] < t.nodes.len() && self.clause_exec(t, li, c, k - 1, pre[j], cache) {
                        assert(clause_from(t@, self@, li as nat, c@, (k - 1) as nat, pre@[j as int] as int));
                        return true;
                    }
                    proof {
                        if clause_from(t@, self@, li as nat, c@, (k - 1) as nat, pre@[j as int] as int) {
                            lemma_clause_valid(t@, self@, li as nat, c@, (k - 1) as nat, pre@[j as int] as int);
                        }
                    }
                    j = j + 1;
                }
                false
            },
        }
    }

    pub(crate) fn list_exec(&self, t: &Tree, li: usize, n: usize, cache: &mut PassCache) -> (r: bool)
        requires
            wf(t@),
            self.wf(),
            li < self.lists@.len(),
            valid(t@, n as int),
            old(cache).inv(t@, self@),
        ensures
            final(cache).inv(t@, self@),
            r == list_matches(t@, self@, li as nat, n as int),
        decreases li, 3nat, 0nat,
    {
        if let Some(b) = cache.memo[li][n] {
            return b;
        }
        let clauses = &self.lists[li];
        proof {
            assert(list_wf(self.lists@, li as int));
        }
        let mut ci: usize = 0;
        while ci < clauses.len()
            invariant
                wf(t@),
                self.wf(),
                li < self.lists@.len(),
                clauses@ == self.lists@[li as int]@,
                list_wf(self.lists@, li as int),
                valid(t@, n as int),
                cache.inv(t@, self@),
                ci <= clauses@.len(),
                forall|m: int|
                    0 <= m < ci ==> !clause_from(
                        t@,
                        self@,
                        li as nat,
                        #[trigger] clauses@[m]@,
                        (clauses@[m].compounds@.len() - 1) as nat,
                        n as int,
                    ),
            decreases clauses@.len() - ci,
        {
            let c = &clauses[ci];
            assert(clause_wf(*c, li as int));
            assert(self@[li as int][ci as int] == c@);
            assert(c@.compounds.len() == c.compounds@.len());
            if self.clause_exec(t, li, c, c.compounds.len() - 1, n, cache) {
                assert(list_matches(t@, self@, li as nat, n as int));
                remember(t, self, cache, li, n, true);
                return true;
            }
            ci = ci + 1;
        }
        assert(!list_matches(t@, self@, li as nat, n as int)) by {
            assert forall|m: int| 0 <= m < self@[li as int].len() implies !clause_from(
                t@,
                self@,
                li as nat,
                #[trigger] self@[li as int][m],
                (self@[li as int][m].compounds.len() - 1) as nat,
                n as int,
            ) by {
                assert(self@[li as int][m] == clauses@[m]@);
                assert(clauses@[m]@.compounds.len() == clauses@[m].compounds@.len());
            }
        }
        remember(t, self, cache, li, n, false);
        false
    }
}

} // verus!
