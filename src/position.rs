//! Sibling positions for the structural pseudo-classes, and the pass cache
//! that memoizes them per parent.
use vstd::prelude::*;
use crate::tree::{pos_in, valid, wf, NodeData, NodeV, Tree};

verus! {

/// `n` is an element node of the arena.
pub open spec fn is_elem(v: Seq<NodeV>, n: int) -> bool {
    valid(v, n) && v[n].data is Element
}

/// The local name of element `n`.
pub open spec fn elem_name(v: Seq<NodeV>, n: int) -> Seq<char> {
    v[n].data->Element_name@
}

pub open spec fn is_upper(c: char) -> bool {
    'A' <= c && c <= 'Z'
}

/// Two characters are equal, or, when `ci`, equal up to ASCII case.
pub open spec fn char_eq(a: char, b: char, ci: bool) -> bool {
    a == b || (ci && ((is_upper(a) && a as u32 + 32 == b as u32) || (is_upper(b) && b as u32 + 32
        == a as u32)))
}

/// Two texts are equal up to ASCII case.
pub open spec fn names_eq(a: Seq<char>, b: Seq<char>) -> bool {
    a.len() == b.len() && forall|j: int| 0 <= j < a.len() ==> char_eq(#[trigger] a[j], b[j], true)
}

/// The siblings in `cs` that a positional pseudo-class counts: elements, and
/// with `of_type` only those whose name is `name`.
pub open spec fn counts_as(v: Seq<NodeV>, c: usize, of_type: bool, name: Seq<char>) -> bool {
    is_elem(v, c as int) && (!of_type || names_eq(elem_name(v, c as int), name))
}

/// How many entries of `cs` count as siblings.
pub open spec fn count_sibs(v: Seq<NodeV>, cs: Seq<usize>, of_type: bool, name: Seq<char>) -> nat
    decreases cs.len(),
{
    if cs.len() == 0 {
        0
    } else {
        count_sibs(v, cs.drop_last(), of_type, name) + if counts_as(v, cs.last(), of_type, name) {
            1nat
        } else {
            0nat
        }
    }
}

/// The 1-based position of element `n` among the siblings that count,
/// from the start, or from the end when `from_end`.
pub open spec fn position(v: Seq<NodeV>, n: int, of_type: bool, from_end: bool) -> int {
    match v[n].parent {
        None => 1,
        Some(p) => {
            let kids = v[p as int].children;
            let k = pos_in(kids, n as usize);
            let name = elem_name(v, n);
            if from_end {
                count_sibs(v, kids.subrange(k + 1, kids.len() as int), of_type, name) as int + 1
            } else {
                count_sibs(v, kids.subrange(0, k), of_type, name) as int + 1
            }
        },
    }
}

/// How many siblings of `n` count, `n` included.
pub open spec fn sibling_total(v: Seq<NodeV>, n: int, of_type: bool) -> int {
    match v[n].parent {
        None => 1,
        Some(p) => count_sibs(v, v[p as int].children, of_type, elem_name(v, n)) as int,
    }
}

/// Position `p` is `a*k + b` for some `k >= 0`.
pub open spec fn nth_ok(a: int, b: int, p: int) -> bool {
    if a == 0 {
        p == b
    } else {
        exists|k: int| k >= 0 && p == #[trigger] (a * k) + b
    }
}

pub proof fn lemma_count_split(v: Seq<NodeV>, x: Seq<usize>, y: Seq<usize>, of_type: bool, name: Seq<char>)
    ensures
        count_sibs(v, x + y, of_type, name) == count_sibs(v, x, of_type, name) + count_sibs(
            v,
            y,
            of_type,
            name,
        ),
    decreases y.len(),
{
    if y.len() == 0 {
        assert(x + y =~= x);
    } else {
        assert((x + y).drop_last() =~= x + y.drop_last());
        lemma_count_split(v, x, y.drop_last(), of_type, name);
    }
}

/// A position is whole: siblings before, `n`, siblings after.
pub proof fn lemma_total(v: Seq<NodeV>, n: int, of_type: bool)
    requires
        wf(v),
        is_elem(v, n),
        v[n].parent is Some,
    ensures
        position(v, n, of_type, false) + position(v, n, of_type, true) == sibling_total(v, n, of_type) + 1,
{
    let p = v[n].parent->0 as int;
    let kids = v[p].children;
    assert(kids.contains(n as usize));
    let k = pos_in(kids, n as usize);
    let name = elem_name(v, n);
    let a = kids.subrange(0, k);
    let b = kids.subrange(k, k + 1);
    let c = kids.subrange(k + 1, kids.len() as int);
    assert(kids =~= a + b + c);
    lemma_count_split(v, a + b, c, of_type, name);
    lemma_count_split(v, a, b, of_type, name);
    assert(kids[k] == n as usize);
    assert(b.drop_last() =~= seq![]);
    assert(b.last() == n as usize);
    assert(names_eq(name, name));
    assert(counts_as(v, n as usize, of_type, name));
    assert(count_sibs(v, seq![], of_type, name) == 0);
    assert(count_sibs(v, b, of_type, name) == 1);
}

/// Exact evaluation of `nth_ok`.
pub fn nth_check(a: i32, b: i32, p: usize) -> (r: bool)
    ensures
        r == nth_ok(a as int, b as int, p as int),
{
    let p = p as i128;
    let a = a as i128;
    let b = b as i128;
    if a == 0 {
        p == b
    } else if a > 0 {
        if p < b {
            proof {
                if nth_ok(a as int, b as int, p as int) {
                    let k = choose|k: int| k >= 0 && p == #[trigger] (a * k) + b;
                    assert(a * k >= 0) by (nonlinear_arith) requires a > 0, k >= 0;
                }
            }
            false
        } else {
            let d = p - b;
            let r = d % a == 0;
            proof {
                let q = d / a;
                vstd::arithmetic::div_mod::lemma_fundamental_div_mod(d as int, a as int);
                if r {
                    assert(q >= 0) by {
                        vstd::arithmetic::div_mod::lemma_div_pos_is_pos(d as int, a as int);
                    }
                    assert(p == a * q + b);
                } else if nth_ok(a as int, b as int, p as int) {
                    let k = choose|k: int| k >= 0 && p == #[trigger] (a * k) + b;
                    assert(d == k * a) by (nonlinear_arith) requires p == a * k + b, d == p - b;
                    vstd::arithmetic::div_mod::lemma_mod_multiples_basic(k, a as int);
                }
            }
            r
        }
    } else {
        if p > b {
            proof {
                if nth_ok(a as int, b as int, p as int) {
                    let k = choose|k: int| k >= 0 && p == #[trigger] (a * k) + b;
                    assert(a * k <= 0) by (nonlinear_arith) requires a < 0, k >= 0;
                }
            }
            false
        } else {
            let d = b - p;
            let m = -a;
            let r = d % m == 0;
            proof {
                let q = d / m;
                vstd::arithmetic::div_mod::lemma_fundamental_div_mod(d as int, m as int);
                if r {
                    assert(q >= 0) by {
                        vstd::arithmetic::div_mod::lemma_div_pos_is_pos(d as int, m as int);
                    }
                    assert(p == a * q + b) by (nonlinear_arith) requires d == m * q, m == -a, d == b - p;
                } else if nth_ok(a as int, b as int, p as int) {
                    let k = choose|k: int| k >= 0 && p == #[trigger] (a * k) + b;
                    assert(d == k * m) by (nonlinear_arith) requires p == a * k + b, m == -a, d == b - p;
                    vstd::arithmetic::div_mod::lemma_mod_multiples_basic(k, m as int);
                }
            }
            r
        }
    }
}

fn char_match(a: char, b: char, ci: bool) -> (r: bool)
    ensures
        r == char_eq(a, b, ci),
{
    a == b || (ci && ((('A' <= a && a <= 'Z') && (a as u32) + 32 == b as u32) || (('A' <= b && b
        <= 'Z') && (b as u32) + 32 == a as u32)))
}

/// Whether `w` stands in `s` at `i`, character by character under `char_eq`.
pub fn occurs_at_exec(s: &Vec<char>, w: &Vec<char>, i: usize, ci: bool) -> (r: bool)
    ensures
        r == occurs_at(s@, w@, i as int, ci),
{
    let n = s.len();
    if i > n || w.len() > n - i {
        return false;
    }
    let mut j: usize = 0;
    while j < w.len()
        invariant
            n == s@.len(),
            i + w@.len() <= s@.len(),
            j <= w@.len(),
            forall|m: int| 0 <= m < j ==> char_eq(#[trigger] s@[i + m], w@[m], ci),
        decreases w@.len() - j,
    {
        if !char_match(s[i + j], w[j], ci) {
            return false;
        }
        j = j + 1;
    }
    true
}

/// `w` stands in `s` at `i`, character by character under `char_eq`.
pub open spec fn occurs_at(s: Seq<char>, w: Seq<char>, i: int, ci: bool) -> bool {
    0 <= i && i + w.len() <= s.len() && forall|m: int|
        0 <= m < w.len() ==> char_eq(#[trigger] s[i + m], w[m], ci)
}

/// Whether two names are equal up to ASCII case.
pub fn names_match(a: &Vec<char>, b: &Vec<char>) -> (r: bool)
    ensures
        r == names_eq(a@, b@),
{
    let r = a.len() == b.len() && occurs_at_exec(a, b, 0, true);
    proof {
        if a@.len() == b@.len() {
            if r {
                assert forall|j: int| 0 <= j < a@.len() implies char_eq(#[trigger] a@[j], b@[j], true) by {
                    assert(char_eq(a@[0 + j], b@[j], true));
                }
            } else {
                assert(!occurs_at(a@, b@, 0, true));
                let m = choose|m: int| 0 <= m < b@.len() && !char_eq(#[trigger] a@[0 + m], b@[m], true);
                assert(!char_eq(a@[m], b@[m], true));
            }
        }
    }
    r
}

fn counts(t: &Tree, c: usize, of_type: bool, name: &Vec<char>) -> (r: bool)
    requires
        wf(t@),
    ensures
        r == counts_as(t@, c, of_type, name@),
{
    if c >= t.nodes.len() {
        return false;
    }
    match &t.nodes[c].data {
        NodeData::Element { name: en, .. } => !of_type || names_match(en, name),
        _ => false,
    }
}

/// Siblings of element `n` that count before it, and in all.
pub fn sibling_counts(t: &Tree, n: usize, of_type: bool) -> (r: (usize, usize))
    requires
        wf(t@),
        is_elem(t@, n as int),
    ensures
        r.0 + 1 == position(t@, n as int, of_type, false),
        r.1 == sibling_total(t@, n as int, of_type),
{
    let p = match t.nodes[n].parent {
        None => return (0, 1),
        Some(p) => p,
    };
    let name = match &t.nodes[n].data {
        NodeData::Element { name, .. } => name,
        _ => return (0, 1),
    };
    let kids = &t.nodes[p].children;
    let ghost k = pos_in(kids@, n);
    assert(kids@.contains(n));
    assert(kids@.no_duplicates());
    let mut before: usize = 0;
    let mut cnt: usize = 0;
    let mut i: usize = 0;
    while i < kids.len()
        invariant
            wf(t@),
            valid(t@, p as int),
            kids@ == t@[p as int].children,
            name@ == elem_name(t@, n as int),
            kids@.no_duplicates(),
            0 <= k < kids@.len(),
            kids@[k] == n,
            i <= kids@.len(),
            cnt <= i,
            cnt == count_sibs(t@, kids@.subrange(0, i as int), of_type, name@),
            i > k ==> before == count_sibs(t@, kids@.subrange(0, k), of_type, name@),
        decreases kids@.len() - i,
    {
        let c = kids[i];
        if c == n {
            before = cnt;
        }
        let ghost pre = kids@.subrange(0, i as int);
        if counts(t, c, of_type, name) {
            cnt = cnt + 1;
        }
        i = i + 1;
        assert(kids@.subrange(0, i as int).drop_last() =~= pre);
    }
    assert(kids@.subrange(0, i as int) =~= kids@);
    (before, cnt)
}

/// Memoized child positions for one pass: for each element, how many element
/// siblings precede it, and for each parent, how many element children it has.
pub struct PositionCache {
    pub before: Vec<Option<usize>>,
    pub total: Vec<Option<usize>>,
}

impl PositionCache {
    /// Every memoized entry holds the true value for the arena `v`.
    pub open spec fn inv(&self, v: Seq<NodeV>) -> bool {
        &&& self.before@.len() == v.len()
        &&& self.total@.len() == v.len()
        &&& forall|x: int|
            #![trigger self.before@[x]]
            0 <= x < v.len() && self.before@[x] is Some ==> is_elem(v, x) && v[x].parent is Some
                && self.before@[x]->0 + 1 == position(v, x, false, false)
        &&& forall|x: int|
            #![trigger self.total@[x]]
            0 <= x < v.len() && self.total@[x] is Some ==> self.total@[x]->0 == count_sibs(
                v,
                v[x].children,
                false,
                seq![],
            )
    }

    /// An empty cache for an arena of `n` nodes.
    pub fn new(n: usize) -> (c: PositionCache)
        ensures
            c.before@.len() == n,
            c.total@.len() == n,
            forall|x: int| 0 <= x < n ==> c.before@[x] is None && c.total@[x] is None,
    {
        let mut before: Vec<Option<usize>> = Vec::new();
        let mut total: Vec<Option<usize>> = Vec::new();
        let mut i: usize = 0;
        while i < n
            invariant
                i <= n,
                before@.len() == i,
                total@.len() == i,
                forall|x: int| 0 <= x < i ==> before@[x] is None && total@[x] is None,
            decreases n - i,
        {
            before.push(None);
            total.push(None);
            i = i + 1;
        }
        PositionCache { before, total }
    }

    /// Fills the entries of parent `p` and its element children in one walk.
    fn fill(&mut self, t: &Tree, p: usize)
        requires
            wf(t@),
            valid(t@, p as int),
            old(self).inv(t@),
        ensures
            final(self).inv(t@),
            final(self).total@[p as int] is Some,
            forall|c: int|
                0 <= c < t@.len() && t@[c].parent == Some(p) && is_elem(t@, c) ==> (
                #[trigger] final(self).before@[c]) is Some,
    {
        let kids = &t.nodes[p].children;
        let empty: Vec<char> = Vec::new();
        let mut cnt: usize = 0;
        let mut i: usize = 0;
        while i < kids.len()
            invariant
                wf(t@),
                valid(t@, p as int),
                kids@ == t@[p as int].children,
                empty@ == Seq::<char>::empty(),
                self.inv(t@),
                i <= kids@.len(),
                cnt <= i,
                cnt == count_sibs(t@, kids@.subrange(0, i as int), false, seq![]),
                forall|j: int| 0 <= j < i && is_elem(t@, kids@[j] as int) ==> (
                    #[trigger] self.before@[kids@[j] as int]) is Some,
            decreases kids@.len() - i,
        {
            let c = kids[i];
            let ghost pre = kids@.subrange(0, i as int);
            if counts(t, c, false, &empty) {
                proof {
                    assert(kids@.no_duplicates());
                    assert(kids@[i as int] == c);
                    assert(pos_in(kids@, c) == i as int);
                    lemma_count_name_free(t@, pre, seq![], elem_name(t@, c as int));
                }
                self.before.set(c, Some(cnt));
                cnt = cnt + 1;
            }
            i = i + 1;
            assert(kids@.subrange(0, i as int).drop_last() =~= pre);
        }
        assert(kids@.subrange(0, i as int) =~= kids@);
        self.total.set(p, Some(cnt));
        assert forall|c: int|
            0 <= c < t@.len() && t@[c].parent == Some(p) && is_elem(t@, c) implies (
            #[trigger] self.before@[c]) is Some by {
            assert(kids@.contains(c as usize));
            let j = choose|j: int| 0 <= j < kids@.len() && kids@[j] == c as usize;
            assert(is_elem(t@, kids@[j] as int));
        }
    }

    /// The position of element `n` among its element siblings, from the start or the end.
    pub fn position(&mut self, t: &Tree, n: usize, from_end: bool) -> (r: usize)
        requires
            wf(t@),
            is_elem(t@, n as int),
            old(self).inv(t@),
        ensures
            final(self).inv(t@),
            r == position(t@, n as int, false, from_end),
    {
        let p = match t.nodes[n].parent {
            None => return 1,
            Some(p) => p,
        };
        if self.before[n].is_none() || self.total[p].is_none() {
            self.fill(t, p);
        }
        let b = self.before[n].unwrap();
        let tt = self.total[p].unwrap();
        proof {
            lemma_total(t@, n as int, false);
            lemma_count_name_free(t@, t@[p as int].children, seq![], elem_name(t@, n as int));
        }
        if from_end {
            tt - b
        } else {
            b + 1
        }
    }
}

/// Without `of_type` the name does not matter.
pub proof fn lemma_count_name_free(v: Seq<NodeV>, cs: Seq<usize>, a: Seq<char>, b: Seq<char>)
    ensures
        count_sibs(v, cs, false, a) == count_sibs(v, cs, false, b),
    decreases cs.len(),
{
    if cs.len() > 0 {
        lemma_count_name_free(v, cs.drop_last(), a, b);
    }
}

/// Among nine positions, `4n+1` picks exactly the first, the fifth and the ninth.
pub proof fn lemma_four_n_plus_one(p: int)
    requires
        1 <= p <= 9,
    ensures
        nth_ok(4, 1, p) <==> (p == 1 || p == 5 || p == 9),
{
    if p == 1 {
        assert(p == 4 * 0 + 1);
    } else if p == 5 {
        assert(p == 4 * 1 + 1);
    } else if p == 9 {
        assert(p == 4 * 2 + 1);
    } else if nth_ok(4, 1, p) {
        let k = choose|k: int| k >= 0 && p == #[trigger] (4 * k) + 1;
        assert(false) by (nonlinear_arith)
            requires
                k >= 0,
                p == 4 * k + 1,
                1 <= p <= 9,
                p != 1 && p != 5 && p != 9,
        ;
    }
}

} // verus!
