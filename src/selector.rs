//! Compiled selector lists: their syntax tree, well-formedness and specificity.
use vstd::prelude::*;

verus! {

/// The operator of an attribute selector.
#[derive(Clone, Copy, Debug, PartialEq, Eq, Structural)]
pub enum AttrOp {
    /// `[name]`
    Exists,
    /// `[name=value]`
    Equals,
    /// `[name~=value]`: one whitespace-separated word equals the value.
    Includes,
    /// `[name|=value]`: equal, or starts with the value and a hyphen.
    DashMatch,
    /// `[name^=value]`
    Prefix,
    /// `[name$=value]`
    Suffix,
    /// `[name*=value]`
    Substring,
}

/// One simple selector of a compound selector.
#[derive(Clone, Debug)]
pub enum Simple {
    /// `*`
    Universal,
    /// An element name.
    Type { name: Vec<char> },
    /// `#name`
    Id { name: Vec<char> },
    /// `.name`
    Class { name: Vec<char> },
    /// An attribute selector; `ci` makes the value comparison ASCII case-insensitive.
    Attr { name: Vec<char>, op: AttrOp, value: Vec<char>, ci: bool },
    /// The positional family `an+b`: counted from the end when `from_end`,
    /// among siblings of the same name when `of_type`.
    Nth { a: i32, b: i32, from_end: bool, of_type: bool },
    /// `:only-child`, or `:only-of-type` when `of_type`.
    Only { of_type: bool },
    /// `:is(list)`, naming a list of the set.
    Is { list: usize },
    /// `:has(list)`, naming a list of the set.
    Has { list: usize },
}

/// How two neighbouring compound selectors of a clause relate.
#[derive(Clone, Copy, Debug, PartialEq, Eq, Structural)]
pub enum Combinator {
    /// whitespace
    Descendant,
    /// `>`
    Child,
    /// `+`
    NextSibling,
    /// `~`
    LaterSibling,
}

/// A clause: compound selectors left to right, joined by combinators
/// (`combinators[i]` stands between `compounds[i]` and `compounds[i + 1]`).
#[derive(Clone, Debug)]
pub struct Clause {
    pub compounds: Vec<Vec<Simple>>,
    pub combinators: Vec<Combinator>,
}

/// A compiled selector set. Each entry of `lists` is a comma-separated list of
/// clauses; nested lists (of `:is` and `:has`) come before the lists that name
/// them, and the last list is the top-level one.
#[derive(Clone, Debug)]
pub struct Selectors {
    pub lists: Vec<Vec<Clause>>,
}

/// Errors of selector compilation.
#[derive(Clone, Copy, Debug, PartialEq, Eq, Structural)]
pub enum SyntaxError {
    /// Input ended where more was needed.
    UnexpectedEnd,
    /// A character that cannot stand where it stands.
    UnexpectedChar,
    /// A pseudo-class this engine does not know.
    UnknownPseudoClass,
    /// A clause with no selector in it.
    EmptyClause,
    /// An `an+b` argument that does not parse or does not fit.
    BadNth,
}

/// What a simple selector is, as seen by contracts.
pub ghost enum SimpleV {
    Universal,
    Type { name: Seq<char> },
    Id { name: Seq<char> },
    Class { name: Seq<char> },
    Attr { name: Seq<char>, op: AttrOp, value: Seq<char>, ci: bool },
    Nth { a: int, b: int, from_end: bool, of_type: bool },
    Only { of_type: bool },
    Is { list: int },
    Has { list: int },
}

impl View for Simple {
    type V = SimpleV;

    open spec fn view(&self) -> SimpleV {
        match self {
            Simple::Universal => SimpleV::Universal,
            Simple::Type { name } => SimpleV::Type { name: name@ },
            Simple::Id { name } => SimpleV::Id { name: name@ },
            Simple::Class { name } => SimpleV::Class { name: name@ },
            Simple::Attr { name, op, value, ci } => SimpleV::Attr {
                name: name@,
                op: *op,
                value: value@,
                ci: *ci,
            },
            Simple::Nth { a, b, from_end, of_type } => SimpleV::Nth {
                a: *a as int,
                b: *b as int,
                from_end: *from_end,
                of_type: *of_type,
            },
            Simple::Only { of_type } => SimpleV::Only { of_type: *of_type },
            Simple::Is { list } => SimpleV::Is { list: *list as int },
            Simple::Has { list } => SimpleV::Has { list: *list as int },
        }
    }
}

/// What a clause is, as seen by contracts.
pub ghost struct ClauseV {
    pub compounds: Seq<Seq<SimpleV>>,
    pub combinators: Seq<Combinator>,
}

/// The view of a compound selector.
pub open spec fn compound_v(cp: Seq<Simple>) -> Seq<SimpleV> {
    cp.map_values(|x: Simple| x@)
}

/// The view of a run of compound selectors.
pub open spec fn compounds_v(cs: Seq<Vec<Simple>>) -> Seq<Seq<SimpleV>> {
    cs.map_values(|v: Vec<Simple>| compound_v(v@))
}

impl View for Clause {
    type V = ClauseV;

    open spec fn view(&self) -> ClauseV {
        ClauseV {
            compounds: compounds_v(self.compounds@),
            combinators: self.combinators@,
        }
    }
}

/// The view of a clause list.
pub open spec fn list_v(l: Seq<Clause>) -> Seq<ClauseV> {
    l.map_values(|c: Clause| c@)
}

/// The view of the lists of a selector set.
pub open spec fn lists_v(ls: Seq<Vec<Clause>>) -> Seq<Seq<ClauseV>> {
    ls.map_values(|l: Vec<Clause>| list_v(l@))
}

impl View for Selectors {
    type V = Seq<Seq<ClauseV>>;

    open spec fn view(&self) -> Seq<Seq<ClauseV>> {
        lists_v(self.lists@)
    }
}

/// A simple selector names only lists before `li`.
pub open spec fn simple_wf(sm: Simple, li: int) -> bool {
    match sm {
        Simple::Is { list } => list < li,
        Simple::Has { list } => list < li,
        _ => true,
    }
}

/// A clause of list `li` is well formed.
pub open spec fn clause_wf(c: Clause, li: int) -> bool {
    &&& c.compounds@.len() >= 1
    &&& c.combinators@.len() + 1 == c.compounds@.len()
    &&& forall|k: int, j: int|
        0 <= k < c.compounds@.len() && 0 <= j < c.compounds@[k]@.len() ==> simple_wf(
            #[trigger] c.compounds@[k]@[j],
            li,
        )
}

/// List `li` of the set is well formed.
pub open spec fn list_wf(lists: Seq<Vec<Clause>>, li: int) -> bool {
    forall|ci: int| 0 <= ci < lists[li]@.len() ==> clause_wf(#[trigger] lists[li]@[ci], li)
}

/// Every list of `lists` is well formed.
pub open spec fn lists_wf(lists: Seq<Vec<Clause>>) -> bool {
    forall|li: int| 0 <= li < lists.len() ==> #[trigger] list_wf(lists, li)
}

impl Selectors {
    /// The set is well formed and has a top-level list.
    pub open spec fn wf(&self) -> bool {
        &&& self.lists@.len() >= 1
        &&& lists_wf(self.lists@)
    }

    /// The index of the top-level list.
    pub open spec fn top(&self) -> int {
        self.lists@.len() - 1
    }
}

/// The three specificity counts one simple selector adds: ids, then classes,
/// attributes and pseudo-classes, then element names. `:is(...)` and
/// `:has(...)` count as one pseudo-class each; `*` counts nothing.
pub open spec fn weight(sm: Simple) -> (nat, nat, nat) {
    match sm {
        Simple::Universal => (0, 0, 0),
        Simple::Type { .. } => (0, 0, 1),
        Simple::Id { .. } => (1, 0, 0),
        _ => (0, 1, 0),
    }
}

/// The specificity of a sequence of simple selectors.
pub open spec fn seq_weight(s: Seq<Simple>) -> (nat, nat, nat)
    decreases s.len(),
{
    if s.len() == 0 {
        (0, 0, 0)
    } else {
        let r = seq_weight(s.drop_last());
        let w = weight(s.last());
        (r.0 + w.0, r.1 + w.1, r.2 + w.2)
    }
}

/// The specificity of a run of compound selectors.
pub open spec fn compounds_weight(cs: Seq<Vec<Simple>>) -> (nat, nat, nat)
    decreases cs.len(),
{
    if cs.len() == 0 {
        (0, 0, 0)
    } else {
        let r = compounds_weight(cs.drop_last());
        let w = seq_weight(cs.last()@);
        (r.0 + w.0, r.1 + w.1, r.2 + w.2)
    }
}

/// A count held in a `u64`, stopping at its largest value.
pub open spec fn cap(n: nat) -> u64 {
    if n < u64::MAX {
        n as u64
    } else {
        u64::MAX
    }
}

/// The lexicographic order of specificity triples: `x` is strictly greater.
pub open spec fn spec_gt(x: (u64, u64, u64), y: (u64, u64, u64)) -> bool {
    x.0 > y.0 || (x.0 == y.0 && (x.1 > y.1 || (x.1 == y.1 && x.2 > y.2)))
}

fn incr(x: u64) -> (r: u64)
    ensures
        forall|n: nat| x == #[trigger] cap(n) ==> r == cap(n + 1),
{
    if x < u64::MAX {
        x + 1
    } else {
        u64::MAX
    }
}

impl Clause {
    /// The specificity triple `(ids, classes, types)`, each count held at
    /// `u64::MAX` at most.
    pub fn specificity(&self) -> (r: (u64, u64, u64))
        ensures
            r.0 == cap(compounds_weight(self.compounds@).0),
            r.1 == cap(compounds_weight(self.compounds@).1),
            r.2 == cap(compounds_weight(self.compounds@).2),
    {
        let mut r: (u64, u64, u64) = (0, 0, 0);
        let mut i: usize = 0;
        while i < self.compounds.len()
            invariant
                i <= self.compounds@.len(),
                r.0 == cap(compounds_weight(self.compounds@.subrange(0, i as int)).0),
                r.1 == cap(compounds_weight(self.compounds@.subrange(0, i as int)).1),
                r.2 == cap(compounds_weight(self.compounds@.subrange(0, i as int)).2),
            decreases self.compounds@.len() - i,
        {
            let cp = &self.compounds[i];
            let ghost pre = self.compounds@.subrange(0, i as int);
            let ghost base = compounds_weight(pre);
            let mut j: usize = 0;
            while j < cp.len()
                invariant
                    j <= cp@.len(),
                    r.0 == cap(base.0 + seq_weight(cp@.subrange(0, j as int)).0),
                    r.1 == cap(base.1 + seq_weight(cp@.subrange(0, j as int)).1),
                    r.2 == cap(base.2 + seq_weight(cp@.subrange(0, j as int)).2),
                decreases cp@.len() - j,
            {
                let ghost w = weight(cp@[j as int]);
                let ghost sw = seq_weight(cp@.subrange(0, j as int));
                match &cp[j] {
                    Simple::Universal => {},
                    Simple::Type { .. } => {
                        r.2 = incr(r.2);
                    },
                    Simple::Id { .. } => {
                        r.0 = incr(r.0);
                    },
                    _ => {
                        r.1 = incr(r.1);
                    },
                }
                j = j + 1;
                assert(cp@.subrange(0, j as int).drop_last() =~= cp@.subrange(0, j as int - 1));
            }
            assert(cp@.subrange(0, j as int) =~= cp@);
            i = i + 1;
            assert(self.compounds@.subrange(0, i as int).drop_last() =~= pre);
        }
        assert(self.compounds@.subrange(0, i as int) =~= self.compounds@);
        r
    }
}

/// A clause of one class (`.c`) and one of one structural pseudo-class
/// (`:first-child`) are equally specific; both are strictly more specific than
/// one of an element name (`div`).
pub proof fn lemma_specificity_order(
    class_c: Vec<Simple>,
    first_child: Vec<Simple>,
    div: Vec<Simple>,
)
    requires
        class_c@.len() == 1 && class_c@[0] is Class,
        first_child@.len() == 1 && first_child@[0] == (Simple::Nth {
            a: 0,
            b: 1,
            from_end: false,
            of_type: false,
        }),
        div@.len() == 1 && div@[0] is Type,
    ensures
        compounds_weight(seq![class_c]) == compounds_weight(seq![first_child]),
        compounds_weight(seq![class_c]) == (0nat, 1nat, 0nat),
        compounds_weight(seq![div]) == (0nat, 0nat, 1nat),
        spec_gt(
            (
                cap(compounds_weight(seq![class_c]).0),
                cap(compounds_weight(seq![class_c]).1),
                cap(compounds_weight(seq![class_c]).2),
            ),
            (
                cap(compounds_weight(seq![div]).0),
                cap(compounds_weight(seq![div]).1),
                cap(compounds_weight(seq![div]).2),
            ),
        ),
{
    assert(class_c@.drop_last() =~= Seq::<Simple>::empty());
    assert(first_child@.drop_last() =~= Seq::<Simple>::empty());
    assert(div@.drop_last() =~= Seq::<Simple>::empty());
    assert(seq![class_c].drop_last() =~= Seq::<Vec<Simple>>::empty());
    assert(seq![first_child].drop_last() =~= Seq::<Vec<Simple>>::empty());
    assert(seq![div].drop_last() =~= Seq::<Vec<Simple>>::empty());
    assert(seq_weight(Seq::<Simple>::empty()) == (0nat, 0nat, 0nat));
    assert(compounds_weight(Seq::<Vec<Simple>>::empty()) == (0nat, 0nat, 0nat));
    assert(class_c@.last() == class_c@[0]);
    assert(first_child@.last() == first_child@[0]);
    assert(div@.last() == div@[0]);
    assert(weight(class_c@[0]) == (0nat, 1nat, 0nat));
    assert(seq_weight(class_c@) == (0nat, 1nat, 0nat));
    assert(seq_weight(first_child@) == (0nat, 1nat, 0nat));
    assert(seq_weight(div@) == (0nat, 0nat, 1nat));
}

} // verus!
