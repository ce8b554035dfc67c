//! The selector compiler: text to a well-formed `Selectors`. The grammar is
//! stated by the spec functions `sp_*` and `compiled`; the executable parser
//! follows them step by step.
use vstd::prelude::*;
use crate::selector::{
    clause_wf, compound_v, compounds_v, list_v, list_wf, lists_v, lists_wf, simple_wf, AttrOp, Clause, ClauseV,
    Combinator, Selectors, Simple, SimpleV, SyntaxError,
};
use crate::text::chars_of;

verus! {

/// Whitespace between tokens of a selector.
pub open spec fn is_space(c: char) -> bool {
    c == ' ' || c == '\t' || c == '\n' || c == '\r' || c == '\x0C'
}

/// A character that may stand in a name.
pub open spec fn is_name_char(c: char) -> bool {
    ('a' <= c && c <= 'z') || ('A' <= c && c <= 'Z') || ('0' <= c && c <= '9') || c == '-'
        || c == '_' || c > '\x7F'
}

pub open spec fn is_digit(c: char) -> bool {
    '0' <= c && c <= '9'
}

/// Every character of `s` is whitespace.
pub open spec fn all_space(s: Seq<char>) -> bool {
    forall|i: int| 0 <= i < s.len() ==> is_space(#[trigger] s[i])
}

/// The first position from `p` that is not whitespace.
pub open spec fn sp_skip(s: Seq<char>, p: int) -> int
    decreases s.len() - p,
{
    if 0 <= p < s.len() && is_space(s[p]) {
        sp_skip(s, p + 1)
    } else {
        p
    }
}

/// The end of the run of name characters from `p`.
pub open spec fn sp_name_end(s: Seq<char>, p: int) -> int
    decreases s.len() - p,
{
    if 0 <= p < s.len() && is_name_char(s[p]) {
        sp_name_end(s, p + 1)
    } else {
        p
    }
}

/// The end of the run of digits from `p`.
pub open spec fn sp_digits_end(s: Seq<char>, p: int) -> int
    decreases s.len() - p,
{
    if 0 <= p < s.len() && is_digit(s[p]) {
        sp_digits_end(s, p + 1)
    } else {
        p
    }
}

/// The first position from `k` holding `q`, or the end.
pub open spec fn sp_find(s: Seq<char>, k: int, q: char) -> int
    decreases s.len() - k,
{
    if 0 <= k < s.len() && s[k] != q {
        sp_find(s, k + 1, q)
    } else {
        k
    }
}

/// A non-empty name from `p`, and the position after it.
pub open spec fn sp_name(s: Seq<char>, p: int) -> Result<(Seq<char>, int), SyntaxError> {
    let e = sp_name_end(s, p);
    if e == p {
        if p < s.len() {
            Err(SyntaxError::UnexpectedChar)
        } else {
            Err(SyntaxError::UnexpectedEnd)
        }
    } else {
        Ok((s.subrange(p, e), e))
    }
}

/// The decimal value of a run of digits.
pub open spec fn dec_val(d: Seq<char>) -> int
    decreases d.len(),
{
    if d.len() == 0 {
        0
    } else {
        dec_val(d.drop_last()) * 10 + (d.last() as u32 as int - 48)
    }
}

/// A decimal integer of one to six digits from `p`.
pub open spec fn sp_int(s: Seq<char>, p: int) -> Option<(int, int)> {
    let e = sp_digits_end(s, p);
    if e == p || e - p > 6 {
        None
    } else {
        Some((dec_val(s.subrange(p, e)), e))
    }
}

/// `s` holds `w` from `p`.
pub open spec fn starts(s: Seq<char>, p: int, w: Seq<char>) -> bool {
    0 <= p && p + w.len() <= s.len() && s.subrange(p, p + w.len()) == w
}

/// The argument `an+b` from `pos`, up to (not past) the `)`.
pub open spec fn sp_nth(s: Seq<char>, pos: int) -> Result<(int, int, int), SyntaxError> {
    let p = sp_skip(s, pos);
    if starts(s, p, "odd"@) {
        Ok((2, 1, sp_skip(s, p + 3)))
    } else if starts(s, p, "even"@) {
        Ok((2, 0, sp_skip(s, p + 4)))
    } else {
        let signed = 0 <= p < s.len() && (s[p] == '-' || s[p] == '+');
        let neg = signed && s[p] == '-';
        let p1 = if signed { p + 1 } else { p };
        let (a0, p2, has) = match sp_int(s, p1) {
            Some((v, q)) => (v, q, true),
            None => (0, p1, false),
        };
        if 0 <= p2 < s.len() && (s[p2] == 'n' || s[p2] == 'N') {
            let a1 = if has { a0 } else { 1 };
            let a = if neg { -a1 } else { a1 };
            let p3 = sp_skip(s, p2 + 1);
            if 0 <= p3 < s.len() && (s[p3] == '+' || s[p3] == '-') {
                let bneg = s[p3] == '-';
                match sp_int(s, sp_skip(s, p3 + 1)) {
                    Some((v, q)) => Ok((a, if bneg { -v } else { v }, sp_skip(s, q))),
                    None => Err(SyntaxError::BadNth),
                }
            } else {
                Ok((a, 0, sp_skip(s, p3)))
            }
        } else if has {
            Ok((0, if neg { -a0 } else { a0 }, sp_skip(s, p2)))
        } else {
            Err(SyntaxError::BadNth)
        }
    }
}

/// The operator of an attribute selector at `p`, and the position after it.
pub open spec fn sp_op(s: Seq<char>, p: int) -> Result<(AttrOp, int), SyntaxError> {
    let c = s[p];
    if c == '=' {
        Ok((AttrOp::Equals, p + 1))
    } else if p + 1 < s.len() && s[p + 1] == '=' {
        if c == '~' {
            Ok((AttrOp::Includes, p + 2))
        } else if c == '|' {
            Ok((AttrOp::DashMatch, p + 2))
        } else if c == '^' {
            Ok((AttrOp::Prefix, p + 2))
        } else if c == '$' {
            Ok((AttrOp::Suffix, p + 2))
        } else if c == '*' {
            Ok((AttrOp::Substring, p + 2))
        } else {
            Err(SyntaxError::UnexpectedChar)
        }
    } else {
        Err(SyntaxError::UnexpectedChar)
    }
}

/// An attribute value at `p`: quoted, or a name.
pub open spec fn sp_value(s: Seq<char>, p: int) -> Result<(Seq<char>, int), SyntaxError> {
    let q = s[p];
    if q == '"' || q == '\'' {
        let k = sp_find(s, p + 1, q);
        if k >= s.len() {
            Err(SyntaxError::UnexpectedEnd)
        } else {
            Ok((s.subrange(p + 1, k), k + 1))
        }
    } else {
        sp_name(s, p)
    }
}

/// The rest of an attribute selector after its name, up to just after `]`.
pub open spec fn sp_attr_tail(s: Seq<char>, n: Seq<char>, p: int) -> Result<(SimpleV, int), SyntaxError> {
    let p2 = sp_skip(s, p);
    if !(0 <= p2 < s.len()) {
        Err(SyntaxError::UnexpectedEnd)
    } else if s[p2] == ']' {
        Ok((SimpleV::Attr { name: n, op: AttrOp::Exists, value: seq![], ci: false }, p2 + 1))
    } else {
        match sp_op(s, p2) {
            Err(e) => Err(e),
            Ok((op, p3)) => {
                let p4 = sp_skip(s, p3);
                if !(0 <= p4 < s.len()) {
                    Err(SyntaxError::UnexpectedEnd)
                } else {
                    match sp_value(s, p4) {
                        Err(e) => Err(e),
                        Ok((value, p5)) => {
                            let p6 = sp_skip(s, p5);
                            let flag = 0 <= p6 < s.len() && (s[p6] == 'i' || s[p6] == 'I' || s[p6]
                                == 's' || s[p6] == 'S');
                            let ci = flag && (s[p6] == 'i' || s[p6] == 'I');
                            let p7 = if flag { sp_skip(s, p6 + 1) } else { p6 };
                            if !(0 <= p7 < s.len()) {
                                Err(SyntaxError::UnexpectedEnd)
                            } else if s[p7] != ']' {
                                Err(SyntaxError::UnexpectedChar)
                            } else {
                                Ok((SimpleV::Attr { name: n, op, value, ci }, p7 + 1))
                            }
                        },
                    }
                }
            },
        }
    }
}

/// An attribute selector from just after its `[`.
pub open spec fn sp_attr(s: Seq<char>, pos: int) -> Result<(SimpleV, int), SyntaxError> {
    match sp_name(s, sp_skip(s, pos)) {
        Err(e) => Err(e),
        Ok((n, p1)) => sp_attr_tail(s, n, p1),
    }
}

/// A pseudo-class without an argument.
pub open spec fn sp_plain_pseudo(pn: Seq<char>) -> Option<SimpleV> {
    if pn == "first-child"@ {
        Some(SimpleV::Nth { a: 0, b: 1, from_end: false, of_type: false })
    } else if pn == "last-child"@ {
        Some(SimpleV::Nth { a: 0, b: 1, from_end: true, of_type: false })
    } else if pn == "first-of-type"@ {
        Some(SimpleV::Nth { a: 0, b: 1, from_end: false, of_type: true })
    } else if pn == "last-of-type"@ {
        Some(SimpleV::Nth { a: 0, b: 1, from_end: true, of_type: true })
    } else if pn == "only-child"@ {
        Some(SimpleV::Only { of_type: false })
    } else if pn == "only-of-type"@ {
        Some(SimpleV::Only { of_type: true })
    } else {
        None
    }
}

/// The lists of a selector set, as contracts see them.
pub type ListsV = Seq<Seq<ClauseV>>;

/// A compound selector from `pos`; nested lists are appended to `ls`.
pub open spec fn sp_compound(s: Seq<char>, pos: int, ls: ListsV) -> Result<(Seq<SimpleV>, int, ListsV), SyntaxError>
    decreases s.len() - pos, 1nat, 0int,
{
    if !(0 <= pos <= s.len()) {
        Err(SyntaxError::UnexpectedEnd)
    } else if pos < s.len() && s[pos] == '*' {
        sp_compound_rest(s, pos, pos + 1, seq![SimpleV::Universal], ls)
    } else if pos < s.len() && is_name_char(s[pos]) {
        let e = sp_name_end(s, pos);
        sp_compound_rest(s, pos, e, seq![SimpleV::Type { name: s.subrange(pos, e) }], ls)
    } else {
        sp_compound_rest(s, pos, pos, seq![], ls)
    }
}

/// The end of a compound selector once `sm` has been read up to `p`.
pub open spec fn sp_compound_end(s: Seq<char>, p: int, sm: Seq<SimpleV>, ls: ListsV) -> Result<(Seq<SimpleV>, int, ListsV), SyntaxError> {
    if sm.len() == 0 {
        if p < s.len() {
            Err(SyntaxError::UnexpectedChar)
        } else {
            Err(SyntaxError::UnexpectedEnd)
        }
    } else {
        Ok((sm, p, ls))
    }
}

/// The simple selectors of a compound after those in `sm`, read up to `p`.
pub open spec fn sp_compound_rest(s: Seq<char>, pos: int, p: int, sm: Seq<SimpleV>, ls: ListsV) -> Result<(Seq<SimpleV>, int, ListsV), SyntaxError>
    decreases s.len() - pos, 0nat, s.len() - p,
{
    if !(0 <= pos <= p <= s.len()) {
        Err(SyntaxError::UnexpectedEnd)
    } else if p == s.len() {
        sp_compound_end(s, p, sm, ls)
    } else {
        let c = s[p];
        if c == '#' || c == '.' {
            match sp_name(s, p + 1) {
                Err(e) => Err(e),
                Ok((n, q)) => if p < q <= s.len() {
                    let x = if c == '#' { SimpleV::Id { name: n } } else { SimpleV::Class { name: n } };
                    sp_compound_rest(s, pos, q, sm.push(x), ls)
                } else {
                    Err(SyntaxError::UnexpectedEnd)
                },
            }
        } else if c == '[' {
            match sp_attr(s, p + 1) {
                Err(e) => Err(e),
                Ok((x, q)) => if p < q <= s.len() {
                    sp_compound_rest(s, pos, q, sm.push(x), ls)
                } else {
                    Err(SyntaxError::UnexpectedEnd)
                },
            }
        } else if c == ':' {
            match sp_name(s, p + 1) {
                Err(e) => Err(e),
                Ok((pn, q)) => if !(p < q < s.len()) || s[q] != '(' {
                    match sp_plain_pseudo(pn) {
                        None => Err(SyntaxError::UnknownPseudoClass),
                        Some(x) => if p < q <= s.len() {
                            sp_compound_rest(s, pos, q, sm.push(x), ls)
                        } else {
                            Err(SyntaxError::UnexpectedEnd)
                        },
                    }
                } else {
                    let inner = sp_pseudo_arg(s, pn, q, ls);
                    match inner {
                        Err(e) => Err(e),
                        Ok((x, q2, ls2)) => if !(0 <= q2 < s.len()) {
                            Err(SyntaxError::UnexpectedEnd)
                        } else if s[q2] != ')' {
                            Err(SyntaxError::UnexpectedChar)
                        } else if p < q2 + 1 <= s.len() {
                            sp_compound_rest(s, pos, q2 + 1, sm.push(x), ls2)
                        } else {
                            Err(SyntaxError::UnexpectedEnd)
                        },
                    }
                },
            }
        } else {
            sp_compound_end(s, p, sm, ls)
        }
    }
}

/// The simple selector of a pseudo-class named `pn` whose `(` is at `q`,
/// and the position of its closing `)`.
pub open spec fn sp_pseudo_arg(s: Seq<char>, pn: Seq<char>, q: int, ls: ListsV) -> Result<(SimpleV, int, ListsV), SyntaxError>
    decreases s.len() - q, 6nat, 0int,
{
    if !(0 <= q < s.len()) {
        Err(SyntaxError::UnexpectedEnd)
    } else if pn == "is"@ || pn == "has"@ {
        match sp_list(s, q + 1, ls) {
            Err(e) => Err(e),
            Ok((li, q2, ls2)) => Ok((
                if pn == "is"@ {
                    SimpleV::Is { list: li }
                } else {
                    SimpleV::Has { list: li }
                },
                q2,
                ls2,
            )),
        }
    } else {
        let from_end = pn == "nth-last-child"@ || pn == "nth-last-of-type"@;
        let of_type = pn == "nth-of-type"@ || pn == "nth-last-of-type"@;
        if !(from_end || of_type || pn == "nth-child"@) {
            Err(SyntaxError::UnknownPseudoClass)
        } else {
            match sp_nth(s, q + 1) {
                Err(e) => Err(e),
                Ok((a, b, q2)) => Ok((SimpleV::Nth { a, b, from_end, of_type }, q2, ls)),
            }
        }
    }
}

/// The combinator at `q` (after whitespace that began at `p`), and where
/// the next compound starts.
pub open spec fn sp_comb(s: Seq<char>, p: int, q: int) -> Option<(Combinator, int)> {
    let c = s[q];
    if c == '>' {
        Some((Combinator::Child, sp_skip(s, q + 1)))
    } else if c == '+' {
        Some((Combinator::NextSibling, sp_skip(s, q + 1)))
    } else if c == '~' {
        Some((Combinator::LaterSibling, sp_skip(s, q + 1)))
    } else if q > p {
        Some((Combinator::Descendant, q))
    } else {
        None
    }
}

/// One clause from `pos`, up to a `,`, a `)` or the end.
pub open spec fn sp_clause(s: Seq<char>, pos: int, ls: ListsV) -> Result<(ClauseV, int, ListsV), SyntaxError>
    decreases s.len() - pos, 3nat, 0int,
{
    if !(0 <= pos <= s.len()) {
        Err(SyntaxError::UnexpectedEnd)
    } else {
        match sp_compound(s, pos, ls) {
            Err(e) => Err(e),
            Ok((first, p, ls1)) => if pos < p <= s.len() {
                sp_clause_rest(s, pos, p, seq![first], seq![], ls1)
            } else {
                Err(SyntaxError::UnexpectedEnd)
            },
        }
    }
}

/// The rest of a clause whose compounds so far are `cps`, read up to `p`.
pub open spec fn sp_clause_rest(s: Seq<char>, pos: int, p: int, cps: Seq<Seq<SimpleV>>, combs: Seq<Combinator>, ls: ListsV) -> Result<(ClauseV, int, ListsV), SyntaxError>
    decreases s.len() - pos, 2nat, s.len() - p,
{
    if !(0 <= pos < p <= s.len()) {
        Err(SyntaxError::UnexpectedEnd)
    } else {
        let q = sp_skip(s, p);
        if !(0 <= q < s.len()) || s[q] == ',' || s[q] == ')' {
            Ok((ClauseV { compounds: cps, combinators: combs }, q, ls))
        } else {
            match sp_comb(s, p, q) {
                None => Err(SyntaxError::UnexpectedChar),
                Some((comb, start)) => if p <= start <= s.len() {
                    match sp_compound(s, start, ls) {
                        Err(e) => Err(e),
                        Ok((cp, p2, ls2)) => if p < p2 <= s.len() {
                            sp_clause_rest(s, pos, p2, cps.push(cp), combs.push(comb), ls2)
                        } else {
                            Err(SyntaxError::UnexpectedEnd)
                        },
                    }
                } else {
                    Err(SyntaxError::UnexpectedEnd)
                },
            }
        }
    }
}

/// A comma-separated list from `pos`; it is appended to `ls`, and its index
/// is returned with the position after it.
pub open spec fn sp_list(s: Seq<char>, pos: int, ls: ListsV) -> Result<(int, int, ListsV), SyntaxError>
    decreases s.len() - pos, 5nat, 0int,
{
    if !(0 <= pos <= s.len()) {
        Err(SyntaxError::UnexpectedEnd)
    } else {
        let p = sp_skip(s, pos);
        if pos <= p <= s.len() {
            sp_list_rest(s, pos, p, seq![], ls)
        } else {
            Err(SyntaxError::UnexpectedEnd)
        }
    }
}

/// The rest of a list whose clauses so far are `cls`, read up to `p`.
pub open spec fn sp_list_rest(s: Seq<char>, pos: int, p: int, cls: Seq<ClauseV>, ls: ListsV) -> Result<(int, int, ListsV), SyntaxError>
    decreases s.len() - pos, 4nat, s.len() - p,
{
    if !(0 <= pos <= p <= s.len()) {
        Err(SyntaxError::UnexpectedEnd)
    } else {
        match sp_clause(s, p, ls) {
            Err(e) => Err(e),
            Ok((cl, q, ls1)) => {
                let cls1 = cls.push(cl);
                if 0 <= q < s.len() && s[q] == ',' {
                    let p2 = sp_skip(s, q + 1);
                    if p < p2 <= s.len() {
                        sp_list_rest(s, pos, p2, cls1, ls1)
                    } else {
                        Err(SyntaxError::UnexpectedEnd)
                    }
                } else {
                    Ok((ls1.len() as int, q, ls1.push(cls1)))
                }
            },
        }
    }
}

/// What a selector text compiles to: the lists of the set, the top-level
/// list last, or the first syntax error.
pub open spec fn compiled(text: Seq<char>) -> Result<ListsV, SyntaxError> {
    match sp_list(text, 0, seq![]) {
        Err(e) => Err(e),
        Ok((_li, p, ls)) => if p < text.len() {
            Err(SyntaxError::UnexpectedChar)
        } else {
            Ok(ls)
        },
    }
}

pub open spec fn pow10(n: nat) -> int
    decreases n,
{
    if n == 0 {
        1
    } else {
        10 * pow10((n - 1) as nat)
    }
}

proof fn lemma_dec_bound(d: Seq<char>)
    requires
        forall|i: int| 0 <= i < d.len() ==> is_digit(#[trigger] d[i]),
    ensures
        0 <= dec_val(d) < pow10(d.len()),
    decreases d.len(),
{
    if d.len() > 0 {
        let e = d.drop_last();
        assert forall|i: int| 0 <= i < e.len() implies is_digit(#[trigger] e[i]) by {
            assert(e[i] == d[i]);
        }
        lemma_dec_bound(e);
        assert(is_digit(d[d.len() - 1]));
        let x = dec_val(e);
        let y = d.last() as u32 as int - 48;
        assert(0 <= y <= 9);
        assert(x * 10 + y < pow10(e.len()) * 10) by (nonlinear_arith)
            requires
                0 <= x < pow10(e.len()),
                0 <= y <= 9,
        ;
    }
}

proof fn lemma_pow10_small(k: nat)
    requires
        k <= 6,
    ensures
        pow10(k) <= 1000000,
{
    reveal_with_fuel(pow10, 7);
    if k == 0 {
    } else if k == 1 {
    } else if k == 2 {
    } else if k == 3 {
    } else if k == 4 {
    } else if k == 5 {
    } else {
    }
}

pub fn space_char(c: char) -> (r: bool)
    ensures
        r == is_space(c),
{
    c == ' ' || c == '\t' || c == '\n' || c == '\r' || c == '\x0C'
}

fn name_char(c: char) -> (r: bool)
    ensures
        r == is_name_char(c),
{
    ('a' <= c && c <= 'z') || ('A' <= c && c <= 'Z') || ('0' <= c && c <= '9') || c == '-'
        || c == '_' || c > '\x7F'
}

fn skip_space(s: &Vec<char>, pos: usize) -> (r: usize)
    requires
        pos <= s@.len(),
    ensures
        pos <= r <= s@.len(),
        r == sp_skip(s@, pos as int),
{
    let mut p = pos;
    while p < s.len() && space_char(s[p])
        invariant
            pos <= p <= s@.len(),
            sp_skip(s@, p as int) == sp_skip(s@, pos as int),
        decreases s@.len() - p,
    {
        p = p + 1;
    }
    p
}

/// The longest run of name characters from `pos`, and the position after it.
fn take_name(s: &Vec<char>, pos: usize) -> (r: (Vec<char>, usize))
    requires
        pos <= s@.len(),
    ensures
        pos <= r.1 <= s@.len(),
        r.1 == sp_name_end(s@, pos as int),
        r.0@ == s@.subrange(pos as int, r.1 as int),
{
    let mut out: Vec<char> = Vec::new();
    let mut p = pos;
    while p < s.len() && name_char(s[p])
        invariant
            pos <= p <= s@.len(),
            out@ == s@.subrange(pos as int, p as int),
            sp_name_end(s@, p as int) == sp_name_end(s@, pos as int),
        decreases s@.len() - p,
    {
        out.push(s[p]);
        p = p + 1;
        assert(out@ =~= s@.subrange(pos as int, p as int));
    }
    (out, p)
}

/// A non-empty name from `pos`.
fn name(s: &Vec<char>, pos: usize) -> (r: Result<(Vec<char>, usize), SyntaxError>)
    requires
        pos <= s@.len(),
    ensures
        r is Ok ==> pos < r->Ok_0.1 <= s@.len(),
        match r {
            Ok((n, q)) => sp_name(s@, pos as int) == Ok::<(Seq<char>, int), SyntaxError>((n@, q as int)),
            Err(e) => sp_name(s@, pos as int) == Err::<(Seq<char>, int), SyntaxError>(e),
        },
{
    let (n, p) = take_name(s, pos);
    if p == pos {
        if p < s.len() {
            Err(SyntaxError::UnexpectedChar)
        } else {
            Err(SyntaxError::UnexpectedEnd)
        }
    } else {
        Ok((n, p))
    }
}

/// Whether `s[pos..]` starts with `w`.
fn starts_with_at(s: &Vec<char>, pos: usize, w: &str) -> (r: bool)
    requires
        pos <= s@.len(),
    ensures
        r == starts(s@, pos as int, w@),
{
    let wc = chars_of(w);
    let n = s.len();
    if wc.len() > n - pos {
        return false;
    }
    let mut i: usize = 0;
    while i < wc.len()
        invariant
            i <= wc@.len(),
            n == s@.len(),
            wc@ == w@,
            pos + wc@.len() <= s@.len(),
            forall|j: int| 0 <= j < i ==> s@[pos + j] == wc@[j],
        decreases wc@.len() - i,
    {
        if s[pos + i] != wc[i] {
            assert(s@.subrange(pos as int, pos + w@.len())[i as int] != w@[i as int]);
            return false;
        }
        i = i + 1;
    }
    assert(s@.subrange(pos as int, pos + w@.len()) =~= w@);
    true
}

/// Whether `a` holds exactly the characters of `w`.
fn same_text(a: &Vec<char>, w: &str) -> (r: bool)
    ensures
        r == (a@ == w@),
{
    let wc = chars_of(w);
    if a.len() != wc.len() {
        return false;
    }
    let mut i: usize = 0;
    while i < a.len()
        invariant
            i <= a@.len(),
            a@.len() == wc@.len(),
            wc@ == w@,
            forall|j: int| 0 <= j < i ==> a@[j] == wc@[j],
        decreases a@.len() - i,
    {
        if a[i] != wc[i] {
            return false;
        }
        i = i + 1;
    }
    assert(a@ =~= w@);
    true
}

/// A decimal integer of one to six digits.
fn small_int(s: &Vec<char>, pos: usize) -> (r: Option<(i32, usize)>)
    requires
        pos <= s@.len(),
    ensures
        r is Some ==> pos < r->Some_0.1 <= s@.len() && 0 <= r->Some_0.0 < 1000000,
        match r {
            Some((v, q)) => sp_int(s@, pos as int) == Some((v as int, q as int)),
            None => sp_int(s@, pos as int) is None,
        },
{
    let mut e = pos;
    while e < s.len() && '0' <= s[e] && s[e] <= '9'
        invariant
            pos <= e <= s@.len(),
            sp_digits_end(s@, e as int) == sp_digits_end(s@, pos as int),
            forall|i: int| pos <= i < e ==> is_digit(#[trigger] s@[i]),
        decreases s@.len() - e,
    {
        e = e + 1;
    }
    if e == pos || e - pos > 6 {
        return None;
    }
    let mut v: i32 = 0;
    let mut j = pos;
    while j < e
        invariant
            pos <= j <= e <= s@.len(),
            e - pos <= 6,
            forall|i: int| pos <= i < e ==> is_digit(#[trigger] s@[i]),
            v as int == dec_val(s@.subrange(pos as int, j as int)),
            0 <= v < pow10((j - pos) as nat),
        decreases e - j,
    {
        let ghost sub = s@.subrange(pos as int, j as int + 1);
        assert(sub.drop_last() =~= s@.subrange(pos as int, j as int));
        assert(is_digit(s@[j as int]));
        let d = (s[j] as u32 - 48) as i32;
        proof {
            lemma_pow10_small((j - pos) as nat);
            lemma_pow10_small((j + 1 - pos) as nat);
            assert(pow10((j + 1 - pos) as nat) == 10 * pow10((j - pos) as nat));
        }
        v = v * 10 + d;
        j = j + 1;
    }
    proof {
        lemma_pow10_small((e - pos) as nat);
    }
    Some((v, e))
}

/// The argument `an+b` of a positional pseudo-class, up to (not past) the `)`.
fn parse_nth(s: &Vec<char>, pos: usize) -> (r: Result<(i32, i32, usize), SyntaxError>)
    requires
        pos <= s@.len(),
    ensures
        r is Ok ==> r->Ok_0.2 <= s@.len(),
        match r {
            Ok((a, b, q)) => sp_nth(s@, pos as int) == Ok::<(int, int, int), SyntaxError>((a as int, b as int, q as int)),
            Err(e) => sp_nth(s@, pos as int) == Err::<(int, int, int), SyntaxError>(e),
        },
{
    let n = s.len();
    let p = skip_space(s, pos);
    assert(p <= n);
    if starts_with_at(s, p, "odd") {
        proof {
            reveal_strlit("odd");
        }
        return Ok((2, 1, skip_space(s, p + 3)));
    }
    if starts_with_at(s, p, "even") {
        proof {
            reveal_strlit("even");
        }
        return Ok((2, 0, skip_space(s, p + 4)));
    }
    let signed = p < s.len() && (s[p] == '-' || s[p] == '+');
    let neg = signed && s[p] == '-';
    let p1 = if signed { p + 1 } else { p };
    let (a0, p2, has) = match small_int(s, p1) {
        Some((v, q)) => (v, q, true),
        None => (0, p1, false),
    };
    if p2 < s.len() && (s[p2] == 'n' || s[p2] == 'N') {
        let a1 = if has { a0 } else { 1 };
        let a = if neg { -a1 } else { a1 };
        let p3 = skip_space(s, p2 + 1);
        if p3 < s.len() && (s[p3] == '+' || s[p3] == '-') {
            let bneg = s[p3] == '-';
            let p4 = skip_space(s, p3 + 1);
            match small_int(s, p4) {
                Some((v, q)) => Ok((a, if bneg { -v } else { v }, skip_space(s, q))),
                None => Err(SyntaxError::BadNth),
            }
        } else {
            Ok((a, 0, skip_space(s, p3)))
        }
    } else if has {
        Ok((0, if neg { -a0 } else { a0 }, skip_space(s, p2)))
    } else {
        Err(SyntaxError::BadNth)
    }
}

fn find_char(s: &Vec<char>, k: usize, q: char) -> (r: usize)
    requires
        k <= s@.len(),
    ensures
        k <= r <= s@.len(),
        r == sp_find(s@, k as int, q),
{
    let mut i = k;
    while i < s.len() && s[i] != q
        invariant
            k <= i <= s@.len(),
            sp_find(s@, i as int, q) == sp_find(s@, k as int, q),
        decreases s@.len() - i,
    {
        i = i + 1;
    }
    i
}

fn copy_range(s: &Vec<char>, a: usize, b: usize) -> (r: Vec<char>)
    requires
        a <= b <= s@.len(),
    ensures
        r@ == s@.subrange(a as int, b as int),
{
    let mut v: Vec<char> = Vec::new();
    let mut i = a;
    while i < b
        invariant
            a <= i <= b <= s@.len(),
            v@ == s@.subrange(a as int, i as int),
        decreases b - i,
    {
        v.push(s[i]);
        i = i + 1;
        assert(v@ =~= s@.subrange(a as int, i as int));
    }
    v
}

/// An attribute selector from just after its `[` to just after its `]`.
fn parse_attr(s: &Vec<char>, pos: usize) -> (r: Result<(Simple, usize), SyntaxError>)
    requires
        pos <= s@.len(),
    ensures
        r is Ok ==> r->Ok_0.1 <= s@.len() && simple_wf(r->Ok_0.0, 0),
        match r {
            Ok((x, q)) => sp_attr(s@, pos as int) == Ok::<(SimpleV, int), SyntaxError>((x@, q as int)),
            Err(e) => sp_attr(s@, pos as int) == Err::<(SimpleV, int), SyntaxError>(e),
        },
{
    let p = skip_space(s, pos);
    let (n, p1) = match name(s, p) {
        Ok(x) => x,
        Err(e) => return Err(e),
    };
    let p2 = skip_space(s, p1);
    if p2 >= s.len() {
        return Err(SyntaxError::UnexpectedEnd);
    }
    if s[p2] == ']' {
        let r = Simple::Attr { name: n, op: AttrOp::Exists, value: Vec::new(), ci: false };
        assert(r@ == (SimpleV::Attr { name: n@, op: AttrOp::Exists, value: seq![], ci: false }));
        return Ok((r, p2 + 1));
    }
    let c = s[p2];
    let (op, p3) = if c == '=' {
        (AttrOp::Equals, p2 + 1)
    } else if p2 + 1 < s.len() && s[p2 + 1] == '=' {
        let op = if c == '~' {
            AttrOp::Includes
        } else if c == '|' {
            AttrOp::DashMatch
        } else if c == '^' {
            AttrOp::Prefix
        } else if c == '$' {
            AttrOp::Suffix
        } else if c == '*' {
            AttrOp::Substring
        } else {
            return Err(SyntaxError::UnexpectedChar);
        };
        (op, p2 + 2)
    } else {
        return Err(SyntaxError::UnexpectedChar);
    };
    assert(sp_op(s@, p2 as int) == Ok::<(AttrOp, int), SyntaxError>((op, p3 as int)));
    let p4 = skip_space(s, p3);
    if p4 >= s.len() {
        return Err(SyntaxError::UnexpectedEnd);
    }
    let q = s[p4];
    let (value, p5) = if q == '"' || q == '\'' {
        let k = find_char(s, p4 + 1, q);
        if k >= s.len() {
            return Err(SyntaxError::UnexpectedEnd);
        }
        (copy_range(s, p4 + 1, k), k + 1)
    } else {
        match name(s, p4) {
            Ok(x) => x,
            Err(e) => return Err(e),
        }
    };
    assert(sp_value(s@, p4 as int) == Ok::<(Seq<char>, int), SyntaxError>((value@, p5 as int)));
    let p6 = skip_space(s, p5);
    let flag = p6 < s.len() && (s[p6] == 'i' || s[p6] == 'I' || s[p6] == 's' || s[p6] == 'S');
    let ci = flag && (s[p6] == 'i' || s[p6] == 'I');
    let p7 = if flag { skip_space(s, p6 + 1) } else { p6 };
    if p7 >= s.len() {
        return Err(SyntaxError::UnexpectedEnd);
    }
    if s[p7] != ']' {
        return Err(SyntaxError::UnexpectedChar);
    }
    Ok((Simple::Attr { name: n, op, value, ci }, p7 + 1))
}

/// The lists only grow, and what was there stays.
pub open spec fn extends(old: Seq<Vec<Clause>>, new: Seq<Vec<Clause>>) -> bool {
    &&& old.len() <= new.len()
    &&& forall|i: int| 0 <= i < old.len() ==> new[i] == old[i]
}

proof fn lemma_extends_wf(old: Seq<Vec<Clause>>, new: Seq<Vec<Clause>>)
    requires
        lists_wf(old),
        extends(old, new),
        forall|i: int| old.len() <= i < new.len() ==> #[trigger] list_wf(new, i),
    ensures
        lists_wf(new),
{
    assert forall|li: int| 0 <= li < new.len() implies #[trigger] list_wf(new, li) by {
        if li < old.len() {
            assert(list_wf(old, li));
            assert(new[li] == old[li]);
        }
    }
}

proof fn lemma_clause_wf_mono(c: Clause, a: int, b: int)
    requires
        clause_wf(c, a),
        a <= b,
    ensures
        clause_wf(c, b),
{
    assert forall|k: int, j: int|
        0 <= k < c.compounds@.len() && 0 <= j < c.compounds@[k]@.len() implies simple_wf(
            #[trigger] c.compounds@[k]@[j],
            b,
        ) by {
        assert(simple_wf(c.compounds@[k]@[j], a));
    }
}

/// The executable result of a compound parse agrees with the spec one.
pub open spec fn compound_rel(
    r: Result<(Vec<Simple>, usize), SyntaxError>,
    ls: Seq<Vec<Clause>>,
    sp: Result<(Seq<SimpleV>, int, ListsV), SyntaxError>,
) -> bool {
    match r {
        Ok((v, q)) => sp == Ok::<(Seq<SimpleV>, int, ListsV), SyntaxError>((compound_v(v@), q as int, lists_v(ls))),
        Err(e) => sp == Err::<(Seq<SimpleV>, int, ListsV), SyntaxError>(e),
    }
}

/// The executable result of a clause parse agrees with the spec one.
pub open spec fn clause_rel(
    r: Result<(Clause, usize), SyntaxError>,
    ls: Seq<Vec<Clause>>,
    sp: Result<(ClauseV, int, ListsV), SyntaxError>,
) -> bool {
    match r {
        Ok((c, q)) => sp == Ok::<(ClauseV, int, ListsV), SyntaxError>((c@, q as int, lists_v(ls))),
        Err(e) => sp == Err::<(ClauseV, int, ListsV), SyntaxError>(e),
    }
}

/// The executable result of a list parse agrees with the spec one.
pub open spec fn list_rel(
    r: Result<(usize, usize), SyntaxError>,
    ls: Seq<Vec<Clause>>,
    sp: Result<(int, int, ListsV), SyntaxError>,
) -> bool {
    match r {
        Ok((li, q)) => sp == Ok::<(int, int, ListsV), SyntaxError>((li as int, q as int, lists_v(ls))),
        Err(e) => sp == Err::<(int, int, ListsV), SyntaxError>(e),
    }
}

fn plain_pseudo(pn: &Vec<char>) -> (r: Option<Simple>)
    ensures
        match r {
            Some(x) => sp_plain_pseudo(pn@) == Some(x@),
            None => sp_plain_pseudo(pn@) is None,
        },
        r is Some ==> simple_wf(r->Some_0, 0),
{
    if same_text(pn, "first-child") {
        Some(Simple::Nth { a: 0, b: 1, from_end: false, of_type: false })
    } else if same_text(pn, "last-child") {
        Some(Simple::Nth { a: 0, b: 1, from_end: true, of_type: false })
    } else if same_text(pn, "first-of-type") {
        Some(Simple::Nth { a: 0, b: 1, from_end: false, of_type: true })
    } else if same_text(pn, "last-of-type") {
        Some(Simple::Nth { a: 0, b: 1, from_end: true, of_type: true })
    } else if same_text(pn, "only-child") {
        Some(Simple::Only { of_type: false })
    } else if same_text(pn, "only-of-type") {
        Some(Simple::Only { of_type: true })
    } else {
        None
    }
}

/// A compound selector from `pos`; nested lists go to `lists`.
fn parse_compound(s: &Vec<char>, pos: usize, lists: &mut Vec<Vec<Clause>>) -> (r: Result<
    (Vec<Simple>, usize),
    SyntaxError,
>)
    requires
        pos <= s@.len(),
        lists_wf(old(lists)@),
    ensures
        lists_wf(final(lists)@),
        extends(old(lists)@, final(lists)@),
        r is Ok ==> r->Ok_0.1 <= s@.len(),
        r is Ok ==> forall|j: int|
            0 <= j < r->Ok_0.0@.len() ==> simple_wf(#[trigger] r->Ok_0.0@[j], final(lists)@.len() as int),
        compound_rel(r, final(lists)@, sp_compound(s@, pos as int, lists_v(old(lists)@))),
    decreases s@.len() - pos, 1nat, 0int,
{
    let mut simples: Vec<Simple> = Vec::new();
    if pos < s.len() && s[pos] == '*' {
        simples.push(Simple::Universal);
        assert(compound_v(simples@) =~= seq![SimpleV::Universal]);
        compound_rest(s, pos, pos + 1, simples, lists)
    } else if pos < s.len() && name_char(s[pos]) {
        let (n, e) = take_name(s, pos);
        simples.push(Simple::Type { name: n });
        assert(compound_v(simples@) =~= seq![SimpleV::Type { name: s@.subrange(pos as int, e as int) }]);
        compound_rest(s, pos, e, simples, lists)
    } else {
        assert(compound_v(simples@) =~= Seq::<SimpleV>::empty());
        compound_rest(s, pos, pos, simples, lists)
    }
}

/// The simple selectors of a compound after those in `simples`, read up to `p`.
fn compound_rest(
    s: &Vec<char>,
    pos: usize,
    p: usize,
    simples: Vec<Simple>,
    lists: &mut Vec<Vec<Clause>>,
) -> (r: Result<(Vec<Simple>, usize), SyntaxError>)
    requires
        pos <= p <= s@.len(),
        lists_wf(old(lists)@),
        forall|j: int| 0 <= j < simples@.len() ==> simple_wf(#[trigger] simples@[j], old(lists)@.len() as int),
    ensures
        lists_wf(final(lists)@),
        extends(old(lists)@, final(lists)@),
        r is Ok ==> r->Ok_0.1 <= s@.len(),
        r is Ok ==> forall|j: int|
            0 <= j < r->Ok_0.0@.len() ==> simple_wf(#[trigger] r->Ok_0.0@[j], final(lists)@.len() as int),
        compound_rel(
            r,
            final(lists)@,
            sp_compound_rest(s@, pos as int, p as int, compound_v(simples@), lists_v(old(lists)@)),
        ),
    decreases s@.len() - pos, 0nat, s@.len() - p,
{
    let ghost sm = compound_v(simples@);
    let ghost ls0 = lists_v(lists@);
    if p == s.len() {
        return finish_compound(s, p, simples);
    }
    let c = s[p];
    let mut simples = simples;
    if c == '#' || c == '.' {
        let (n, q) = match name(s, p + 1) {
            Ok(x) => x,
            Err(e) => return Err(e),
        };
        let x = if c == '#' { Simple::Id { name: n } } else { Simple::Class { name: n } };
        simples.push(x);
        assert(compound_v(simples@) =~= sm.push(x@));
        compound_rest(s, pos, q, simples, lists)
    } else if c == '[' {
        let (x, q) = match parse_attr(s, p + 1) {
            Ok(x) => x,
            Err(e) => return Err(e),
        };
        if !(p < q && q <= s.len()) {
            return Err(SyntaxError::UnexpectedEnd);
        }
        simples.push(x);
        assert(compound_v(simples@) =~= sm.push(x@));
        compound_rest(s, pos, q, simples, lists)
    } else if c == ':' {
        let (pn, q) = match name(s, p + 1) {
            Ok(x) => x,
            Err(e) => return Err(e),
        };
        if !(q < s.len()) || s[q] != '(' {
            match plain_pseudo(&pn) {
                None => Err(SyntaxError::UnknownPseudoClass),
                Some(x) => {
                    simples.push(x);
                    assert(compound_v(simples@) =~= sm.push(x@));
                    compound_rest(s, pos, q, simples, lists)
                },
            }
        } else {
            let ghost before = lists@;
            let (x, q2) = match pseudo_arg(s, &pn, q, lists) {
                Ok(x) => x,
                Err(e) => return Err(e),
            };
            if q2 >= s.len() {
                return Err(SyntaxError::UnexpectedEnd);
            }
            if s[q2] != ')' {
                return Err(SyntaxError::UnexpectedChar);
            }
            if !(p < q2 + 1) {
                return Err(SyntaxError::UnexpectedEnd);
            }
            proof {
                assert forall|j: int| 0 <= j < simples@.len() implies simple_wf(#[trigger] simples@[j], lists@.len() as int) by {
                    assert(simple_wf(simples@[j], before.len() as int));
                }
            }
            simples.push(x);
            assert(compound_v(simples@) =~= sm.push(x@));
            compound_rest(s, pos, q2 + 1, simples, lists)
        }
    } else {
        finish_compound(s, p, simples)
    }
}

/// The argument of a pseudo-class named `pn` whose `(` is at `q`.
#[verifier::rlimit(100)]
fn pseudo_arg(s: &Vec<char>, pn: &Vec<char>, q: usize, lists: &mut Vec<Vec<Clause>>) -> (r: Result<
    (Simple, usize),
    SyntaxError,
>)
    requires
        q < s@.len(),
        lists_wf(old(lists)@),
    ensures
        lists_wf(final(lists)@),
        extends(old(lists)@, final(lists)@),
        r is Ok ==> r->Ok_0.1 <= s@.len(),
        r is Ok ==> simple_wf(r->Ok_0.0, final(lists)@.len() as int),
        match r {
            Ok((x, q2)) => sp_pseudo_arg(s@, pn@, q as int, lists_v(old(lists)@)) == Ok::<(SimpleV, int, ListsV), SyntaxError>((x@, q2 as int, lists_v(final(lists)@))),
            Err(e) => sp_pseudo_arg(s@, pn@, q as int, lists_v(old(lists)@)) == Err::<(SimpleV, int, ListsV), SyntaxError>(e),
        },
    decreases s@.len() - q, 6nat, 0int,
{
    let n = s.len();
    assert(q < n);
    let is_is = same_text(pn, "is");
    let is_has = same_text(pn, "has");
    if is_is || is_has {
        let (li, q2) = match parse_list(s, q + 1, lists) {
            Ok(x) => x,
            Err(e) => return Err(e),
        };
        let x = if is_is {
            Simple::Is { list: li }
        } else {
            Simple::Has { list: li }
        };
        assert(x@ == (if is_is { SimpleV::Is { list: li as int } } else { SimpleV::Has { list: li as int } }));
        Ok((x, q2))
    } else {
        let from_end = same_text(pn, "nth-last-child") || same_text(pn, "nth-last-of-type");
        let of_type = same_text(pn, "nth-of-type") || same_text(pn, "nth-last-of-type");
        if !(from_end || of_type || same_text(pn, "nth-child")) {
            return Err(SyntaxError::UnknownPseudoClass);
        }
        let (a, b, q2) = match parse_nth(s, q + 1) {
            Ok(x) => x,
            Err(e) => return Err(e),
        };
        let x = Simple::Nth { a, b, from_end, of_type };
        assert(x@ == (SimpleV::Nth { a: a as int, b: b as int, from_end, of_type }));
        Ok((x, q2))
    }
}

fn finish_compound(s: &Vec<char>, p: usize, simples: Vec<Simple>) -> (r: Result<(Vec<Simple>, usize), SyntaxError>)
    requires
        p <= s@.len(),
    ensures
        r is Ok ==> r->Ok_0.0 == simples && r->Ok_0.1 == p,
        forall|ls: ListsV| match r {
            Ok((v, q)) => sp_compound_end(s@, p as int, compound_v(simples@), ls) == Ok::<(Seq<SimpleV>, int, ListsV), SyntaxError>((compound_v(v@), q as int, ls)),
            Err(e) => #[trigger] sp_compound_end(s@, p as int, compound_v(simples@), ls) == Err::<(Seq<SimpleV>, int, ListsV), SyntaxError>(e),
        },
{
    if simples.len() == 0 {
        if p < s.len() {
            Err(SyntaxError::UnexpectedChar)
        } else {
            Err(SyntaxError::UnexpectedEnd)
        }
    } else {
        Ok((simples, p))
    }
}

fn comb_at(s: &Vec<char>, p: usize, q: usize) -> (r: Option<(Combinator, usize)>)
    requires
        p <= q < s@.len(),
    ensures
        match r {
            Some((c, st)) => sp_comb(s@, p as int, q as int) == Some((c, st as int)) && st <= s@.len(),
            None => sp_comb(s@, p as int, q as int) is None,
        },
{
    let n = s.len();
    let c = s[q];
    assert(q < n);
    if c == '>' {
        Some((Combinator::Child, skip_space(s, q + 1)))
    } else if c == '+' {
        Some((Combinator::NextSibling, skip_space(s, q + 1)))
    } else if c == '~' {
        Some((Combinator::LaterSibling, skip_space(s, q + 1)))
    } else if q > p {
        Some((Combinator::Descendant, q))
    } else {
        None
    }
}

/// One clause from `pos`, up to a `,`, a `)` or the end.
fn parse_clause(s: &Vec<char>, pos: usize, lists: &mut Vec<Vec<Clause>>) -> (r: Result<
    (Clause, usize),
    SyntaxError,
>)
    requires
        pos <= s@.len(),
        lists_wf(old(lists)@),
    ensures
        lists_wf(final(lists)@),
        extends(old(lists)@, final(lists)@),
        r is Ok ==> r->Ok_0.1 <= s@.len(),
        r is Ok ==> clause_wf(r->Ok_0.0, final(lists)@.len() as int),
        clause_rel(r, final(lists)@, sp_clause(s@, pos as int, lists_v(old(lists)@))),
    decreases s@.len() - pos, 3nat, 0int,
{
    let (first, p) = match parse_compound(s, pos, lists) {
        Ok(x) => x,
        Err(e) => return Err(e),
    };
    if !(pos < p && p <= s.len()) {
        return Err(SyntaxError::UnexpectedEnd);
    }
    let mut compounds: Vec<Vec<Simple>> = Vec::new();
    compounds.push(first);
    let combinators: Vec<Combinator> = Vec::new();
    assert(compounds_v(compounds@) =~= seq![compound_v(first@)]);
    assert(combinators@ =~= Seq::<Combinator>::empty());
    clause_rest(s, pos, p, compounds, combinators, lists)
}

/// The rest of a clause whose compounds so far are `compounds`, read up to `p`.
fn clause_rest(
    s: &Vec<char>,
    pos: usize,
    p: usize,
    compounds: Vec<Vec<Simple>>,
    combinators: Vec<Combinator>,
    lists: &mut Vec<Vec<Clause>>,
) -> (r: Result<(Clause, usize), SyntaxError>)
    requires
        pos < p <= s@.len(),
        lists_wf(old(lists)@),
        compounds@.len() == combinators@.len() + 1,
        forall|k: int, j: int|
            0 <= k < compounds@.len() && 0 <= j < compounds@[k]@.len() ==> simple_wf(
                #[trigger] compounds@[k]@[j],
                old(lists)@.len() as int,
            ),
    ensures
        lists_wf(final(lists)@),
        extends(old(lists)@, final(lists)@),
        r is Ok ==> r->Ok_0.1 <= s@.len(),
        r is Ok ==> clause_wf(r->Ok_0.0, final(lists)@.len() as int),
        clause_rel(
            r,
            final(lists)@,
            sp_clause_rest(
                s@,
                pos as int,
                p as int,
                compounds_v(compounds@),
                combinators@,
                lists_v(old(lists)@),
            ),
        ),
    decreases s@.len() - pos, 2nat, s@.len() - p,
{
    let q = skip_space(s, p);
    if q >= s.len() || s[q] == ',' || s[q] == ')' {
        let cl = Clause { compounds, combinators };
        assert(clause_wf(cl, lists@.len() as int));
        return Ok((cl, q));
    }
    let (comb, start) = match comb_at(s, p, q) {
        None => return Err(SyntaxError::UnexpectedChar),
        Some(x) => x,
    };
    if !(p <= start) {
        return Err(SyntaxError::UnexpectedEnd);
    }
    let ghost before = lists@;
    let (cp, p2) = match parse_compound(s, start, lists) {
        Ok(x) => x,
        Err(e) => return Err(e),
    };
    if !(p < p2 && p2 <= s.len()) {
        return Err(SyntaxError::UnexpectedEnd);
    }
    let mut compounds = compounds;
    let mut combinators = combinators;
    let ghost cv = compounds_v(compounds@);
    let ghost bv = combinators@;
    proof {
        assert forall|k: int, j: int|
            0 <= k < compounds@.len() && 0 <= j < compounds@[k]@.len() implies simple_wf(
                #[trigger] compounds@[k]@[j],
                lists@.len() as int,
            ) by {
            assert(simple_wf(compounds@[k]@[j], before.len() as int));
        }
    }
    compounds.push(cp);
    combinators.push(comb);
    assert(compounds_v(compounds@) =~= cv.push(compound_v(cp@)));
    assert(combinators@ =~= bv.push(comb));
    clause_rest(s, pos, p2, compounds, combinators, lists)
}

/// A comma-separated list from `pos`, up to a `)` or the end; it is pushed
/// onto `lists`, and its index is returned.
fn parse_list(s: &Vec<char>, pos: usize, lists: &mut Vec<Vec<Clause>>) -> (r: Result<
    (usize, usize),
    SyntaxError,
>)
    requires
        pos <= s@.len(),
        lists_wf(old(lists)@),
    ensures
        lists_wf(final(lists)@),
        extends(old(lists)@, final(lists)@),
        r is Ok ==> r->Ok_0.1 <= s@.len(),
        r is Ok ==> r->Ok_0.0 + 1 == final(lists)@.len(),
        list_rel(r, final(lists)@, sp_list(s@, pos as int, lists_v(old(lists)@))),
    decreases s@.len() - pos, 5nat, 0int,
{
    let p = skip_space(s, pos);
    let clauses: Vec<Clause> = Vec::new();
    assert(list_v(clauses@) =~= Seq::<ClauseV>::empty());
    list_rest(s, pos, p, clauses, lists)
}

/// The rest of a list whose clauses so far are `clauses`, read up to `p`.
fn list_rest(
    s: &Vec<char>,
    pos: usize,
    p: usize,
    clauses: Vec<Clause>,
    lists: &mut Vec<Vec<Clause>>,
) -> (r: Result<(usize, usize), SyntaxError>)
    requires
        pos <= p <= s@.len(),
        lists_wf(old(lists)@),
        forall|ci: int| 0 <= ci < clauses@.len() ==> clause_wf(#[trigger] clauses@[ci], old(lists)@.len() as int),
    ensures
        lists_wf(final(lists)@),
        extends(old(lists)@, final(lists)@),
        r is Ok ==> r->Ok_0.1 <= s@.len(),
        r is Ok ==> r->Ok_0.0 + 1 == final(lists)@.len(),
        list_rel(
            r,
            final(lists)@,
            sp_list_rest(s@, pos as int, p as int, list_v(clauses@), lists_v(old(lists)@)),
        ),
    decreases s@.len() - pos, 4nat, s@.len() - p,
{
    let ghost before = lists@;
    let (cl, q) = match parse_clause(s, p, lists) {
        Ok(x) => x,
        Err(e) => return Err(e),
    };
    let mut clauses = clauses;
    let ghost cv = list_v(clauses@);
    proof {
        assert forall|ci: int| 0 <= ci < clauses@.len() implies clause_wf(#[trigger] clauses@[ci], lists@.len() as int) by {
            lemma_clause_wf_mono(clauses@[ci], before.len() as int, lists@.len() as int);
        }
    }
    clauses.push(cl);
    assert(list_v(clauses@) =~= cv.push(cl@));
    if q < s.len() && s[q] == ',' {
        let p2 = skip_space(s, q + 1);
        if !(p < p2) {
            return Err(SyntaxError::UnexpectedEnd);
        }
        list_rest(s, pos, p2, clauses, lists)
    } else {
        let li = lists.len();
        let ghost mid = lists@;
        lists.push(clauses);
        proof {
            assert(list_wf(lists@, li as int));
            lemma_extends_wf(mid, lists@);
            assert(lists_v(lists@) =~= lists_v(mid).push(list_v(clauses@)));
        }
        Ok((li, q))
    }
}

/// Compiles a comma-separated selector list: the result is what `compiled`
/// gives for the text.
pub fn compile(text: &str) -> (r: Result<Selectors, SyntaxError>)
    ensures
        r is Ok ==> r->Ok_0.wf(),
        match r {
            Ok(sel) => compiled(text@) == Ok::<ListsV, SyntaxError>(sel@),
            Err(e) => compiled(text@) == Err::<ListsV, SyntaxError>(e),
        },
{
    let s = chars_of(text);
    let mut lists: Vec<Vec<Clause>> = Vec::new();
    assert(lists_v(lists@) =~= Seq::<Seq<ClauseV>>::empty());
    let (_li, p) = match parse_list(&s, 0, &mut lists) {
        Ok(x) => x,
        Err(e) => return Err(e),
    };
    if p < s.len() {
        return Err(SyntaxError::UnexpectedChar);
    }
    Ok(Selectors { lists })
}

} // verus!
