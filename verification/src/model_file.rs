//! The `.model` file format, which spells out one implementation as a
//! finite model:
//!
//! ```text
//! model Elem = {a, b}.
//! leq(a, a) = true.
//! func_name(a) = b.
//! ```
//!
//! A header `model Sort = {e1, e2, ...}` fixes the carrier of a sort and
//! names its elements `0, 1, ...` in order; every other non-blank line
//! interprets a relation (`= true`; anything else leaves the tuple out) or
//! a function (`= element`).  `--` starts a comment, trailing dots are
//! ignored.
use vstd::prelude::*;
use crate::names::{first_index_of, has_prefix, str_eq};
use crate::model::{
    carrier_lookup, function_lookup, relation_lookup, table_lookup, tuples_view, FiniteModel, FunctionInterp,
    RelationInterp,
};
use crate::signature::{sort_names, Signature, SortSymbol};
use crate::slicer::{fun_names, rel_names};

verus! {

broadcast use vstd::std_specs::vec::group_vec_axioms;

// ---------------------------------------------------------------------------
// Text
// ---------------------------------------------------------------------------

/// White space as `char::is_whitespace` defines it (the Unicode
/// `White_Space` property).
pub open spec fn is_ws(c: char) -> bool {
    let u = c as u32;
    (0x9 <= u <= 0xd) || u == 0x20 || u == 0x85 || u == 0xa0 || u == 0x1680 || (0x2000 <= u <= 0x200a)
        || u == 0x2028 || u == 0x2029 || u == 0x202f || u == 0x205f || u == 0x3000
}

/// Position of the first character that is not white space.
pub open spec fn first_solid(s: Seq<char>, i: int) -> bool {
    0 <= i < s.len() && !is_ws(s[i]) && forall|j: int| 0 <= j < i ==> is_ws(#[trigger] s[j])
}

/// Position of the last character that is not white space.
pub open spec fn last_solid(s: Seq<char>, i: int) -> bool {
    0 <= i < s.len() && !is_ws(s[i]) && forall|j: int| i < j < s.len() ==> is_ws(#[trigger] s[j])
}

/// `s` without leading and trailing white space.
#[verifier::opaque]
pub open spec fn trim(s: Seq<char>) -> Seq<char> {
    if exists|i: int| 0 <= i < s.len() && !is_ws(#[trigger] s[i]) {
        let lo = choose|i: int| first_solid(s, i);
        let hi = choose|i: int| last_solid(s, i);
        s.subrange(lo, hi + 1)
    } else {
        seq![]
    }
}

/// A comment marker `--` starts at `i`.
pub open spec fn dashes_at(s: Seq<char>, i: int) -> bool {
    0 <= i && i + 1 < s.len() && s[i] == '-' && s[i + 1] == '-'
}

/// `s` up to its first comment marker.
#[verifier::opaque]
pub open spec fn strip_comment(s: Seq<char>) -> Seq<char> {
    if exists|i: int| dashes_at(s, i) {
        s.take(choose|i: int| dashes_at(s, i) && forall|j: int| 0 <= j < i ==> !dashes_at(s, j))
    } else {
        s
    }
}

/// Position of the last character that is not a dot.
pub open spec fn last_undotted(s: Seq<char>, i: int) -> bool {
    0 <= i < s.len() && s[i] != '.' && forall|j: int| i < j < s.len() ==> #[trigger] s[j] == '.'
}

/// `s` without its trailing dots.
#[verifier::opaque]
pub open spec fn strip_dots(s: Seq<char>) -> Seq<char> {
    if exists|i: int| 0 <= i < s.len() && #[trigger] s[i] != '.' {
        s.take((choose|i: int| last_undotted(s, i)) + 1)
    } else {
        seq![]
    }
}

/// Position of the last occurrence of `c` in `s`, if any.
#[verifier::opaque]
pub open spec fn last_index_of(s: Seq<char>, c: char) -> Option<int> {
    if exists|i: int| 0 <= i < s.len() && s[i] == c {
        Some(choose|i: int| 0 <= i < s.len() && s[i] == c && forall|j: int| i < j < s.len() ==> s[j] != c)
    } else {
        None
    }
}

/// The pieces of `s` between occurrences of `c`.
#[verifier::opaque]
pub open spec fn split_on(s: Seq<char>, c: char) -> Seq<Seq<char>>
    decreases s.len(),
{
    match first_index_of(s, c) {
        Some(i) => if 0 <= i < s.len() {
            seq![s.take(i)] + split_on(s.skip(i + 1), c)
        } else {
            seq![s]
        },
        None => seq![s],
    }
}

/// Each piece trimmed.
pub open spec fn trim_each(ps: Seq<Seq<char>>) -> Seq<Seq<char>> {
    ps.map_values(|p: Seq<char>| trim(p))
}

/// The non-empty pieces, in order.
pub open spec fn nonempty(ps: Seq<Seq<char>>) -> Seq<Seq<char>>
    decreases ps.len(),
{
    if ps.len() == 0 {
        seq![]
    } else if ps.last().len() > 0 {
        nonempty(ps.drop_last()).push(ps.last())
    } else {
        nonempty(ps.drop_last())
    }
}

fn is_blank(c: char) -> (r: bool)
    ensures
        r == is_ws(c),
{
    let u = c as u32;
    (0x9 <= u && u <= 0xd) || u == 0x20 || u == 0x85 || u == 0xa0 || u == 0x1680 || (0x2000 <= u && u <= 0x200a)
        || u == 0x2028 || u == 0x2029 || u == 0x202f || u == 0x205f || u == 0x3000
}

/// The characters of `s`.
fn chars_of(s: &str) -> (r: Vec<char>)
    ensures
        r@ == s@,
{
    let n = crate::names::char_len(s);
    let mut out: Vec<char> = Vec::new();
    let mut i: usize = 0;
    while i < n
        invariant
            n == s@.len(),
            i <= n,
            out@ == s@.take(i as int),
        decreases n - i,
    {
        let c = match crate::names::nth_char(s, i) {
            Some(c) => c,
            None => ' ',
        };
        out.push(c);
        proof {
            assert(out@ =~= s@.take(i + 1));
        }
        i = i + 1;
    }
    proof {
        assert(s@.take(i as int) =~= s@);
    }
    out
}

/// The trimmed part of `cs[lo..hi]`.
fn trim_range(cs: &Vec<char>, lo: usize, hi: usize) -> (r: (usize, usize))
    requires
        lo <= hi <= cs@.len(),
    ensures
        lo <= r.0 <= r.1 <= hi,
        cs@.subrange(r.0 as int, r.1 as int) == trim(cs@.subrange(lo as int, hi as int)),
{
    proof {
        reveal(trim);
    }
    let ghost s = cs@.subrange(lo as int, hi as int);
    let mut a = lo;
    while a < hi && is_blank(cs[a])
        invariant
            lo <= a <= hi <= cs@.len(),
            s == cs@.subrange(lo as int, hi as int),
            forall|j: int| 0 <= j < a - lo ==> is_ws(#[trigger] s[j]),
        decreases hi - a,
    {
        a = a + 1;
    }
    if a == hi {
        proof {
            assert(!exists|i: int| 0 <= i < s.len() && !is_ws(#[trigger] s[i]));
            assert(cs@.subrange(a as int, a as int) =~= seq![]);
        }
        return (a, a);
    }
    let mut b = hi;
    while b > a && is_blank(cs[b - 1])
        invariant
            lo <= a < b <= hi <= cs@.len(),
            !is_ws(cs@[a as int]),
            s == cs@.subrange(lo as int, hi as int),
            forall|j: int| b - lo <= j < s.len() ==> is_ws(#[trigger] s[j]),
        decreases b - a,
    {
        b = b - 1;
    }
    proof {
        let i0 = a - lo;
        let i1 = b - 1 - lo;
        assert(s[i0] == cs@[a as int]);
        assert(first_solid(s, i0));
        assert(s[i1] == cs@[b - 1]);
        assert(last_solid(s, i1));
        let x = choose|i: int| first_solid(s, i);
        let y = choose|i: int| last_solid(s, i);
        if x < i0 {
            assert(is_ws(s[x]));
        }
        if i0 < x {
            assert(is_ws(s[i0]));
        }
        if y < i1 {
            assert(is_ws(s[i1]));
        }
        if i1 < y {
            assert(is_ws(s[y]));
        }
        assert(cs@.subrange(a as int, b as int) =~= s.subrange(i0, i1 + 1));
    }
    (a, b)
}

/// First occurrence of `c` in `cs[lo..hi]`, as a position of `cs`.
fn find_in(cs: &Vec<char>, lo: usize, hi: usize, c: char) -> (r: Option<usize>)
    requires
        lo <= hi <= cs@.len(),
    ensures
        match first_index_of(cs@.subrange(lo as int, hi as int), c) {
            Some(i) => r == Some((lo + i) as usize) && 0 <= i < hi - lo,
            None => r is None,
        },
        r matches Some(k) ==> k < cs@.len() && cs@[k as int] == c,
{
    let ghost s = cs@.subrange(lo as int, hi as int);
    let mut i = lo;
    while i < hi
        invariant
            lo <= i <= hi <= cs@.len(),
            s == cs@.subrange(lo as int, hi as int),
            forall|j: int| 0 <= j < i - lo ==> s[j] != c,
        decreases hi - i,
    {
        if cs[i] == c {
            proof {
                let k = i - lo;
                assert(s[k] == c);
                let w = choose|w: int| 0 <= w < s.len() && s[w] == c && forall|j: int| 0 <= j < w ==> s[j] != c;
                if w < k {
                } else if w > k {
                    assert(s[k] != c);
                }
            }
            return Some(i);
        }
        i = i + 1;
    }
    None
}

/// Last occurrence of `c` in `cs[lo..hi]`, as a position of `cs`.
fn rfind_in(cs: &Vec<char>, lo: usize, hi: usize, c: char) -> (r: Option<usize>)
    requires
        lo <= hi <= cs@.len(),
    ensures
        match last_index_of(cs@.subrange(lo as int, hi as int), c) {
            Some(i) => r == Some((lo + i) as usize) && 0 <= i < hi - lo,
            None => r is None,
        },
        r matches Some(k) ==> k < cs@.len() && cs@[k as int] == c,
{
    proof {
        reveal(last_index_of);
    }
    let ghost s = cs@.subrange(lo as int, hi as int);
    let mut i = hi;
    while i > lo
        invariant
            lo <= i <= hi <= cs@.len(),
            s == cs@.subrange(lo as int, hi as int),
            forall|j: int| i - lo <= j < s.len() ==> s[j] != c,
        decreases i - lo,
    {
        if cs[i - 1] == c {
            proof {
                reveal(last_index_of);
                let k = i - 1 - lo;
                assert(s[k] == c);
                let w = choose|w: int| 0 <= w < s.len() && s[w] == c && forall|j: int| w < j < s.len() ==> s[j] != c;
                if w < k {
                    assert(s[k] != c);
                } else if w > k {
                }
            }
            return Some(i - 1);
        }
        i = i - 1;
    }
    None
}

/// End of `cs[lo..hi]` with the comment removed.
fn comment_end(cs: &Vec<char>, lo: usize, hi: usize) -> (e: usize)
    requires
        lo <= hi <= cs@.len(),
    ensures
        lo <= e <= hi,
        cs@.subrange(lo as int, e as int) == strip_comment(cs@.subrange(lo as int, hi as int)),
{
    proof {
        reveal(strip_comment);
    }
    let ghost s = cs@.subrange(lo as int, hi as int);
    let mut i = lo;
    while hi - i >= 2
        invariant
            lo <= i <= hi <= cs@.len(),
            s == cs@.subrange(lo as int, hi as int),
            forall|j: int| 0 <= j < i - lo ==> !dashes_at(s, j),
        decreases hi - i,
    {
        if cs[i] == '-' && cs[i + 1] == '-' {
            proof {
                reveal(strip_comment);
                let k = i - lo;
                assert(dashes_at(s, k));
                let w = choose|w: int| dashes_at(s, w) && forall|j: int| 0 <= j < w ==> !dashes_at(s, j);
                if w < k {
                } else if w > k {
                    assert(!dashes_at(s, k));
                }
                assert(cs@.subrange(lo as int, i as int) =~= s.take(k));
            }
            return i;
        }
        i = i + 1;
    }
    proof {
        assert forall|j: int| !dashes_at(s, j) by {
            if 0 <= j && j < i - lo {
            }
        }
    }
    hi
}

/// End of `cs[lo..hi]` with its trailing dots removed.
fn dots_end(cs: &Vec<char>, lo: usize, hi: usize) -> (e: usize)
    requires
        lo <= hi <= cs@.len(),
    ensures
        lo <= e <= hi,
        cs@.subrange(lo as int, e as int) == strip_dots(cs@.subrange(lo as int, hi as int)),
{
    proof {
        reveal(strip_dots);
    }
    let ghost s = cs@.subrange(lo as int, hi as int);
    let mut e = hi;
    while e > lo && cs[e - 1] == '.'
        invariant
            lo <= e <= hi <= cs@.len(),
            s == cs@.subrange(lo as int, hi as int),
            forall|j: int| e - lo <= j < s.len() ==> #[trigger] s[j] == '.',
        decreases e - lo,
    {
        e = e - 1;
    }
    proof {
        if e > lo {
            let k = e - 1 - lo;
            assert(s[k] == cs@[e - 1]);
            assert(last_undotted(s, k));
            let w = choose|w: int| last_undotted(s, w);
            if w < k {
                assert(s[k] == '.');
            } else if w > k {
            }
            assert(cs@.subrange(lo as int, e as int) =~= s.take(k + 1));
        } else {
            assert(!exists|i: int| 0 <= i < s.len() && #[trigger] s[i] != '.');
            assert(cs@.subrange(lo as int, e as int) =~= seq![]);
        }
    }
    e
}

proof fn lemma_split_step(s: Seq<char>, c: char, i: int)
    requires
        first_index_of(s, c) == Some(i),
        0 <= i < s.len(),
    ensures
        split_on(s, c) == seq![s.take(i)] + split_on(s.skip(i + 1), c),
{
    reveal(split_on);
}

proof fn lemma_split_last(s: Seq<char>, c: char)
    requires
        first_index_of(s, c) is None,
    ensures
        split_on(s, c) == seq![s],
{
    reveal(split_on);
}

/// The pieces of `cs[lo..hi]` between occurrences of `c`, as ranges.
#[verifier::rlimit(40)]
fn split_in(cs: &Vec<char>, lo: usize, hi: usize, c: char) -> (r: Vec<(usize, usize)>)
    requires
        lo <= hi <= cs@.len(),
    ensures
        r@.len() == split_on(cs@.subrange(lo as int, hi as int), c).len(),
        forall|k: int| 0 <= k < r@.len() ==> lo <= (#[trigger] r@[k]).0 <= r@[k].1 <= hi
            && cs@.subrange(r@[k].0 as int, r@[k].1 as int) == split_on(cs@.subrange(lo as int, hi as int), c)[k],
{
    let ghost whole = split_on(cs@.subrange(lo as int, hi as int), c);
    let ghost mut done: Seq<Seq<char>> = seq![];
    let mut out: Vec<(usize, usize)> = Vec::new();
    let mut start = lo;
    proof {
        assert(whole =~= done + split_on(cs@.subrange(start as int, hi as int), c));
    }
    loop
        invariant_except_break
            whole == done + split_on(cs@.subrange(start as int, hi as int), c),
        invariant
            lo <= start <= hi <= cs@.len(),
            whole == split_on(cs@.subrange(lo as int, hi as int), c),
            out@.len() == done.len(),
            forall|k: int| 0 <= k < out@.len() ==> lo <= (#[trigger] out@[k]).0 <= out@[k].1 <= hi
                && cs@.subrange(out@[k].0 as int, out@[k].1 as int) == done[k],
        ensures
            out@.len() == whole.len(),
            forall|k: int| 0 <= k < out@.len() ==> lo <= (#[trigger] out@[k]).0 <= out@[k].1 <= hi
                && cs@.subrange(out@[k].0 as int, out@[k].1 as int) == whole[k],
        decreases hi - start,
    {
        let ghost rest = cs@.subrange(start as int, hi as int);
        match find_in(cs, start, hi, c) {
            Some(j) => {
                proof {
                    let i = j - start;
                    assert(rest.take(i) =~= cs@.subrange(start as int, j as int));
                    assert(rest.skip(i + 1) =~= cs@.subrange(j + 1, hi as int));
                    lemma_split_step(rest, c, i);
                    assert(whole =~= done.push(rest.take(i)) + split_on(cs@.subrange(j + 1, hi as int), c));
                    done = done.push(rest.take(i));
                }
                out.push((start, j));
                start = j + 1;
            },
            None => {
                proof {
                    lemma_split_last(rest, c);
                    assert(whole =~= done.push(rest));
                    done = done.push(rest);
                }
                out.push((start, hi));
                proof {
                    assert(whole == done);
                }
                break;
            },
        }
    }
    out
}

// ---------------------------------------------------------------------------
// Parser state
// ---------------------------------------------------------------------------

/// What the lines read so far have set: carrier sizes and element numbers
/// by name, function tables and relation tuples by symbol, and whether a
/// header came.
pub struct PState {
    /// Carrier size of each sort given a header.
    pub carriers: Map<Seq<char>, usize>,
    /// Number of each element name (the last header naming it wins).
    pub elements: Map<Seq<char>, usize>,
    /// Table of each function given a line.
    pub funs: Map<Seq<char>, Map<Seq<usize>, usize>>,
    /// Tuples of each relation.
    pub rels: Map<Seq<char>, Set<Seq<usize>>>,
    /// A header came.
    pub header: bool,
}

/// The value under `k`, if any.
pub open spec fn lookup<K, V>(m: Map<K, V>, k: K) -> Option<V> {
    if m.dom().contains(k) {
        Some(m[k])
    } else {
        None
    }
}

fn copy_tuples(v: &Vec<Vec<usize>>) -> (r: Vec<Vec<usize>>)
    ensures
        tuples_view(r@) == tuples_view(v@),
{
    let mut out: Vec<Vec<usize>> = Vec::new();
    let mut i: usize = 0;
    while i < v.len()
        invariant
            i <= v@.len(),
            tuples_view(out@) == tuples_view(v@).take(i as int),
        decreases v.len() - i,
    {
        let ghost b = tuples_view(out@);
        out.push(crate::model::copy_tuple(v[i].as_slice()));
        proof {
            assert(tuples_view(out@) =~= b.push(v@[i as int]@));
            assert(tuples_view(v@).take(i + 1) =~= tuples_view(v@).take(i as int).push(v@[i as int]@));
        }
        i = i + 1;
    }
    proof {
        assert(tuples_view(v@).take(i as int) =~= tuples_view(v@));
    }
    out
}

fn copy_table(v: &Vec<(Vec<usize>, usize)>) -> (r: Vec<(Vec<usize>, usize)>)
    ensures
        r@.len() == v@.len(),
        forall|k: int| 0 <= k < v@.len() ==> (#[trigger] r@[k]).0@ == v@[k].0@ && r@[k].1 == v@[k].1,
{
    let mut out: Vec<(Vec<usize>, usize)> = Vec::new();
    let mut i: usize = 0;
    while i < v.len()
        invariant
            i <= v@.len(),
            out@.len() == i,
            forall|k: int| 0 <= k < i ==> (#[trigger] out@[k]).0@ == v@[k].0@ && out@[k].1 == v@[k].1,
        decreases v.len() - i,
    {
        out.push((crate::model::copy_tuple(v[i].0.as_slice()), v[i].1));
        i = i + 1;
    }
    out
}

/// Exec carriers agree with `m`: names distinct, same names, same sizes.
pub open spec fn carriers_agree(v: Seq<(SortSymbol, usize)>, m: Map<Seq<char>, usize>) -> bool {
    &&& forall|i: int, j: int| 0 <= i < j < v.len() ==> (#[trigger] v[i]).0.name@ != (#[trigger] v[j]).0.name@
    &&& forall|x: Seq<char>| #[trigger] m.dom().contains(x) <==> exists|i: int| 0 <= i < v.len() && (#[trigger] v[i]).0.name@ == x
    &&& forall|i: int| 0 <= i < v.len() ==> m[(#[trigger] v[i]).0.name@] == v[i].1
}

/// Exec element numbers agree with `m`.
pub open spec fn elements_agree(v: Seq<(String, usize)>, m: Map<Seq<char>, usize>) -> bool {
    &&& forall|i: int, j: int| 0 <= i < j < v.len() ==> (#[trigger] v[i]).0@ != (#[trigger] v[j]).0@
    &&& forall|x: Seq<char>| #[trigger] m.dom().contains(x) <==> exists|i: int| 0 <= i < v.len() && (#[trigger] v[i]).0@ == x
    &&& forall|i: int| 0 <= i < v.len() ==> m[(#[trigger] v[i]).0@] == v[i].1
}

/// Exec relation tuples agree with `m`.
pub open spec fn rels_agree(v: Seq<RelationInterp>, m: Map<Seq<char>, Set<Seq<usize>>>) -> bool {
    &&& forall|i: int, j: int| 0 <= i < j < v.len() ==> (#[trigger] v[i]).name@ != (#[trigger] v[j]).name@
    &&& forall|x: Seq<char>| #[trigger] m.dom().contains(x) <==> exists|i: int| 0 <= i < v.len() && (#[trigger] v[i]).name@ == x
    &&& forall|i: int| 0 <= i < v.len() ==> tuples_view((#[trigger] v[i]).tuples@).to_set() == m[v[i].name@]
}

/// Keys of a table are distinct and it agrees with `m`.
pub open spec fn table_agrees(tab: Seq<(Vec<usize>, usize)>, m: Map<Seq<usize>, usize>) -> bool {
    &&& forall|a: int, b: int| 0 <= a < b < tab.len() ==> (#[trigger] tab[a]).0@ != (#[trigger] tab[b]).0@
    &&& forall|t: Seq<usize>| #[trigger] m.dom().contains(t) <==> exists|k: int| 0 <= k < tab.len() && (#[trigger] tab[k]).0@ == t
    &&& forall|k: int| 0 <= k < tab.len() ==> m[(#[trigger] tab[k]).0@] == tab[k].1
}

/// Exec function tables agree with `m`.
pub open spec fn funs_agree(v: Seq<FunctionInterp>, m: Map<Seq<char>, Map<Seq<usize>, usize>>) -> bool {
    &&& forall|i: int, j: int| 0 <= i < j < v.len() ==> (#[trigger] v[i]).name@ != (#[trigger] v[j]).name@
    &&& forall|x: Seq<char>| #[trigger] m.dom().contains(x) <==> exists|i: int| 0 <= i < v.len() && (#[trigger] v[i]).name@ == x
    &&& forall|i: int| 0 <= i < v.len() ==> table_agrees((#[trigger] v[i]).table@, m[v[i].name@])
}

fn set_carrier(v: &mut Vec<(SortSymbol, usize)>, name: &str, n: usize, Ghost(m): Ghost<Map<Seq<char>, usize>>)
    requires
        carriers_agree(old(v)@, m),
    ensures
        carriers_agree(final(v)@, m.insert(name@, n)),
{
    let mut i: usize = 0;
    while i < v.len()
        invariant
            i <= v@.len(),
            v@ == old(v)@,
            forall|j: int| 0 <= j < i ==> (#[trigger] v@[j]).0.name@ != name@,
        ensures
            i <= v@.len(),
            v@ == old(v)@,
            forall|j: int| 0 <= j < i ==> (#[trigger] v@[j]).0.name@ != name@,
            i < v@.len() ==> v@[i as int].0.name@ == name@,
        decreases v.len() - i,
    {
        if str_eq(v[i].0.name.as_str(), name) {
            break;
        }
        i = i + 1;
    }
    let ghost before = v@;
    if i < v.len() {
        v.set(i, (SortSymbol::new(name), n));
        proof {
            assert(before[i as int].0.name@ == name@);
            let m2 = m.insert(name@, n);
            assert forall|x: Seq<char>| #[trigger] m2.dom().contains(x) implies exists|k: int| 0 <= k < v@.len() && (#[trigger] v@[k]).0.name@ == x by {
                if x != name@ {
                    let k = choose|k: int| 0 <= k < before.len() && (#[trigger] before[k]).0.name@ == x;
                    assert(v@[k] == before[k]);
                } else {
                    assert(v@[i as int].0.name@ == x);
                }
            }
            assert forall|k: int| 0 <= k < v@.len() implies m2[(#[trigger] v@[k]).0.name@] == v@[k].1 by {
                if k != i {
                    assert(v@[k] == before[k]);
                }
            }
            assert forall|a: int, b: int| 0 <= a < b < v@.len() implies (#[trigger] v@[a]).0.name@ != (#[trigger] v@[b]).0.name@ by {
                if a != i {
                    assert(v@[a] == before[a]);
                }
                if b != i {
                    assert(v@[b] == before[b]);
                }
            }
        }
    } else {
        v.push((SortSymbol::new(name), n));
        proof {
            let m2 = m.insert(name@, n);
            assert forall|x: Seq<char>| #[trigger] m2.dom().contains(x) implies exists|k: int| 0 <= k < v@.len() && (#[trigger] v@[k]).0.name@ == x by {
                if x != name@ {
                    let k = choose|k: int| 0 <= k < before.len() && (#[trigger] before[k]).0.name@ == x;
                    assert(v@[k] == before[k]);
                } else {
                    assert(v@[before.len() as int].0.name@ == x);
                }
            }
            assert forall|k: int| 0 <= k < v@.len() implies m2[(#[trigger] v@[k]).0.name@] == v@[k].1 by {
                if k < before.len() {
                    assert(v@[k] == before[k]);
                }
            }
            assert forall|a: int, b: int| 0 <= a < b < v@.len() implies (#[trigger] v@[a]).0.name@ != (#[trigger] v@[b]).0.name@ by {
                assert(v@[a] == before[a]);
                if b < before.len() {
                    assert(v@[b] == before[b]);
                }
            }
        }
    }
}

fn set_element(v: &mut Vec<(String, usize)>, name: &String, n: usize, Ghost(m): Ghost<Map<Seq<char>, usize>>)
    requires
        elements_agree(old(v)@, m),
    ensures
        elements_agree(final(v)@, m.insert(name@, n)),
{
    let mut i: usize = 0;
    while i < v.len()
        invariant
            i <= v@.len(),
            v@ == old(v)@,
            forall|j: int| 0 <= j < i ==> (#[trigger] v@[j]).0@ != name@,
        ensures
            i <= v@.len(),
            v@ == old(v)@,
            forall|j: int| 0 <= j < i ==> (#[trigger] v@[j]).0@ != name@,
            i < v@.len() ==> v@[i as int].0@ == name@,
        decreases v.len() - i,
    {
        if str_eq(v[i].0.as_str(), name.as_str()) {
            break;
        }
        i = i + 1;
    }
    let ghost before = v@;
    if i < v.len() {
        v.set(i, (crate::signature::copy_string(name), n));
        proof {
            assert(before[i as int].0@ == name@);
            let m2 = m.insert(name@, n);
            assert forall|x: Seq<char>| #[trigger] m2.dom().contains(x) implies exists|k: int| 0 <= k < v@.len() && (#[trigger] v@[k]).0@ == x by {
                if x != name@ {
                    let k = choose|k: int| 0 <= k < before.len() && (#[trigger] before[k]).0@ == x;
                    assert(v@[k] == before[k]);
                } else {
                    assert(v@[i as int].0@ == x);
                }
            }
            assert forall|k: int| 0 <= k < v@.len() implies m2[(#[trigger] v@[k]).0@] == v@[k].1 by {
                if k != i {
                    assert(v@[k] == before[k]);
                }
            }
            assert forall|a: int, b: int| 0 <= a < b < v@.len() implies (#[trigger] v@[a]).0@ != (#[trigger] v@[b]).0@ by {
                if a != i {
                    assert(v@[a] == before[a]);
                }
                if b != i {
                    assert(v@[b] == before[b]);
                }
            }
        }
    } else {
        v.push((crate::signature::copy_string(name), n));
        proof {
            let m2 = m.insert(name@, n);
            assert forall|x: Seq<char>| #[trigger] m2.dom().contains(x) implies exists|k: int| 0 <= k < v@.len() && (#[trigger] v@[k]).0@ == x by {
                if x != name@ {
                    let k = choose|k: int| 0 <= k < before.len() && (#[trigger] before[k]).0@ == x;
                    assert(v@[k] == before[k]);
                } else {
                    assert(v@[before.len() as int].0@ == x);
                }
            }
            assert forall|k: int| 0 <= k < v@.len() implies m2[(#[trigger] v@[k]).0@] == v@[k].1 by {
                if k < before.len() {
                    assert(v@[k] == before[k]);
                }
            }
            assert forall|a: int, b: int| 0 <= a < b < v@.len() implies (#[trigger] v@[a]).0@ != (#[trigger] v@[b]).0@ by {
                assert(v@[a] == before[a]);
                if b < before.len() {
                    assert(v@[b] == before[b]);
                }
            }
        }
    }
}

fn find_element(v: &Vec<(String, usize)>, name: &String, Ghost(m): Ghost<Map<Seq<char>, usize>>) -> (r: Option<usize>)
    requires
        elements_agree(v@, m),
    ensures
        r == lookup(m, name@),
{
    let mut i: usize = 0;
    while i < v.len()
        invariant
            i <= v@.len(),
            elements_agree(v@, m),
            forall|j: int| 0 <= j < i ==> (#[trigger] v@[j]).0@ != name@,
        decreases v.len() - i,
    {
        if str_eq(v[i].0.as_str(), name.as_str()) {
            proof {
                assert(m.dom().contains(name@));
                assert(m[v@[i as int].0@] == v@[i as int].1);
            }
            return Some(v[i].1);
        }
        i = i + 1;
    }
    None
}

/// The set under `k`, or the empty set.
pub open spec fn set_at(m: Map<Seq<char>, Set<Seq<usize>>>, k: Seq<char>) -> Set<Seq<usize>> {
    if m.dom().contains(k) {
        m[k]
    } else {
        Set::empty()
    }
}

/// The table under `k`, or the empty table.
pub open spec fn table_at(m: Map<Seq<char>, Map<Seq<usize>, usize>>, k: Seq<char>) -> Map<Seq<usize>, usize> {
    if m.dom().contains(k) {
        m[k]
    } else {
        Map::empty()
    }
}

fn add_tuple(v: &mut Vec<RelationInterp>, name: &str, t: Vec<usize>, Ghost(m): Ghost<Map<Seq<char>, Set<Seq<usize>>>>)
    requires
        rels_agree(old(v)@, m),
    ensures
        rels_agree(final(v)@, m.insert(name@, set_at(m, name@).insert(t@))),
{
    let ghost m2 = m.insert(name@, set_at(m, name@).insert(t@));
    let mut i: usize = 0;
    while i < v.len()
        invariant
            i <= v@.len(),
            v@ == old(v)@,
            forall|j: int| 0 <= j < i ==> (#[trigger] v@[j]).name@ != name@,
        ensures
            i <= v@.len(),
            v@ == old(v)@,
            forall|j: int| 0 <= j < i ==> (#[trigger] v@[j]).name@ != name@,
            i < v@.len() ==> v@[i as int].name@ == name@,
        decreases v.len() - i,
    {
        if str_eq(v[i].name.as_str(), name) {
            break;
        }
        i = i + 1;
    }
    let ghost before = v@;
    if i < v.len() {
        proof {
            assert(m.dom().contains(name@));
            assert(tuples_view(before[i as int].tuples@).to_set() == m[name@]);
        }
        let mut present = false;
        let mut j: usize = 0;
        while j < v[i].tuples.len()
            invariant_except_break
                !present,
            invariant
                i < v@.len(),
                v@ == before,
                j <= v@[i as int].tuples@.len(),
                forall|k: int| 0 <= k < j ==> (#[trigger] v@[i as int].tuples@[k])@ != t@,
            ensures
                j <= v@[i as int].tuples@.len(),
                v@ == before,
                present ==> tuples_view(v@[i as int].tuples@).contains(t@),
                !present ==> forall|k: int| 0 <= k < v@[i as int].tuples@.len() ==> (#[trigger] v@[i as int].tuples@[k])@ != t@,
            decreases v@[i as int].tuples@.len() - j,
        {
            if crate::model::tuple_eq(v[i].tuples[j].as_slice(), t.as_slice()) {
                present = true;
                proof {
                    assert(tuples_view(v@[i as int].tuples@)[j as int] == t@);
                }
                break;
            }
            j = j + 1;
        }
        if present {
            proof {
                assert(m[name@].contains(t@));
                assert(set_at(m, name@).insert(t@) =~= m[name@]);
                assert(m2 =~= m);
            }
        } else {
            let mut ts = copy_tuples(&v[i].tuples);
            let ghost tb = tuples_view(ts@);
            ts.push(t);
            let nm = crate::signature::copy_string(&v[i].name);
            v.set(i, RelationInterp { name: nm, tuples: ts });
            proof {
                assert(tuples_view(v@[i as int].tuples@) =~= tb.push(t@));
                assert(tuples_view(v@[i as int].tuples@).to_set() =~= m[name@].insert(t@)) by {
                    tb.lemma_push_to_set_commute(t@);
                }
                assert forall|x: Seq<char>| #[trigger] m2.dom().contains(x) <==> exists|k: int| 0 <= k < v@.len() && (#[trigger] v@[k]).name@ == x by {
                    if m2.dom().contains(x) && x != name@ {
                        let k = choose|k: int| 0 <= k < before.len() && (#[trigger] before[k]).name@ == x;
                        assert(v@[k] == before[k]);
                    }
                    if exists|k: int| 0 <= k < v@.len() && (#[trigger] v@[k]).name@ == x {
                        let k = choose|k: int| 0 <= k < v@.len() && (#[trigger] v@[k]).name@ == x;
                        if k != i {
                            assert(v@[k] == before[k]);
                        }
                    }
                }
                assert forall|k: int| 0 <= k < v@.len() implies tuples_view((#[trigger] v@[k]).tuples@).to_set() == m2[v@[k].name@] by {
                    if k != i {
                        assert(v@[k] == before[k]);
                    }
                }
                assert forall|a: int, b: int| 0 <= a < b < v@.len() implies (#[trigger] v@[a]).name@ != (#[trigger] v@[b]).name@ by {
                    if a != i {
                        assert(v@[a] == before[a]);
                    }
                    if b != i {
                        assert(v@[b] == before[b]);
                    }
                }
            }
        }
    } else {
        let mut ts: Vec<Vec<usize>> = Vec::new();
        ts.push(t);
        v.push(RelationInterp { name: String::from_str(name), tuples: ts });
        proof {
            assert(!m.dom().contains(name@));
            assert(tuples_view(v@[before.len() as int].tuples@) =~= seq![t@]);
            assert(seq![t@].to_set() =~= Set::<Seq<usize>>::empty().insert(t@)) by {
                Seq::<Seq<usize>>::empty().lemma_push_to_set_commute(t@);
                assert(seq![t@] =~= Seq::<Seq<usize>>::empty().push(t@));
            }
            assert forall|x: Seq<char>| #[trigger] m2.dom().contains(x) <==> exists|k: int| 0 <= k < v@.len() && (#[trigger] v@[k]).name@ == x by {
                if m2.dom().contains(x) && x != name@ {
                    let k = choose|k: int| 0 <= k < before.len() && (#[trigger] before[k]).name@ == x;
                    assert(v@[k] == before[k]);
                }
                if m2.dom().contains(x) && x == name@ {
                    assert(v@[before.len() as int].name@ == x);
                }
                if exists|k: int| 0 <= k < v@.len() && (#[trigger] v@[k]).name@ == x {
                    let k = choose|k: int| 0 <= k < v@.len() && (#[trigger] v@[k]).name@ == x;
                    if k < before.len() {
                        assert(v@[k] == before[k]);
                    }
                }
            }
            assert forall|k: int| 0 <= k < v@.len() implies tuples_view((#[trigger] v@[k]).tuples@).to_set() == m2[v@[k].name@] by {
                if k < before.len() {
                    assert(v@[k] == before[k]);
                }
            }
            assert forall|a: int, b: int| 0 <= a < b < v@.len() implies (#[trigger] v@[a]).name@ != (#[trigger] v@[b]).name@ by {
                assert(v@[a] == before[a]);
                if b < before.len() {
                    assert(v@[b] == before[b]);
                }
            }
        }
    }
}

fn set_row(tab: &mut Vec<(Vec<usize>, usize)>, t: Vec<usize>, val: usize, Ghost(tm): Ghost<Map<Seq<usize>, usize>>)
    requires
        table_agrees(old(tab)@, tm),
    ensures
        table_agrees(final(tab)@, tm.insert(t@, val)),
{
    let ghost tm2 = tm.insert(t@, val);
    let mut k: usize = 0;
    while k < tab.len()
        invariant
            k <= tab@.len(),
            tab@ == old(tab)@,
            forall|j: int| 0 <= j < k ==> (#[trigger] tab@[j]).0@ != t@,
        ensures
            k <= tab@.len(),
            tab@ == old(tab)@,
            forall|j: int| 0 <= j < k ==> (#[trigger] tab@[j]).0@ != t@,
            k < tab@.len() ==> tab@[k as int].0@ == t@,
        decreases tab.len() - k,
    {
        if crate::model::tuple_eq(tab[k].0.as_slice(), t.as_slice()) {
            break;
        }
        k = k + 1;
    }
    let ghost before = tab@;
    if k < tab.len() {
        tab.set(k, (t, val));
        proof {
            assert forall|x: Seq<usize>| #[trigger] tm2.dom().contains(x) <==> exists|j: int| 0 <= j < tab@.len() && (#[trigger] tab@[j]).0@ == x by {
                if tm2.dom().contains(x) && x != tab@[k as int].0@ {
                    let j = choose|j: int| 0 <= j < before.len() && (#[trigger] before[j]).0@ == x;
                    assert(tab@[j] == before[j]);
                }
                if tm2.dom().contains(x) && x == tab@[k as int].0@ {
                    assert(tab@[k as int].0@ == x);
                }
                if exists|j: int| 0 <= j < tab@.len() && (#[trigger] tab@[j]).0@ == x {
                    let j = choose|j: int| 0 <= j < tab@.len() && (#[trigger] tab@[j]).0@ == x;
                    if j != k {
                        assert(tab@[j] == before[j]);
                    }
                }
            }
            assert forall|j: int| 0 <= j < tab@.len() implies tm2[(#[trigger] tab@[j]).0@] == tab@[j].1 by {
                if j != k {
                    assert(tab@[j] == before[j]);
                }
            }
            assert forall|a: int, b: int| 0 <= a < b < tab@.len() implies (#[trigger] tab@[a]).0@ != (#[trigger] tab@[b]).0@ by {
                if a != k {
                    assert(tab@[a] == before[a]);
                }
                if b != k {
                    assert(tab@[b] == before[b]);
                }
            }
        }
    } else {
        tab.push((t, val));
        proof {
            assert forall|x: Seq<usize>| #[trigger] tm2.dom().contains(x) <==> exists|j: int| 0 <= j < tab@.len() && (#[trigger] tab@[j]).0@ == x by {
                if tm2.dom().contains(x) && x != tab@[before.len() as int].0@ {
                    let j = choose|j: int| 0 <= j < before.len() && (#[trigger] before[j]).0@ == x;
                    assert(tab@[j] == before[j]);
                }
                if tm2.dom().contains(x) && x == tab@[before.len() as int].0@ {
                    assert(tab@[before.len() as int].0@ == x);
                }
                if exists|j: int| 0 <= j < tab@.len() && (#[trigger] tab@[j]).0@ == x {
                    let j = choose|j: int| 0 <= j < tab@.len() && (#[trigger] tab@[j]).0@ == x;
                    if j < before.len() {
                        assert(tab@[j] == before[j]);
                    }
                }
            }
            assert forall|j: int| 0 <= j < tab@.len() implies tm2[(#[trigger] tab@[j]).0@] == tab@[j].1 by {
                if j < before.len() {
                    assert(tab@[j] == before[j]);
                }
            }
            assert forall|a: int, b: int| 0 <= a < b < tab@.len() implies (#[trigger] tab@[a]).0@ != (#[trigger] tab@[b]).0@ by {
                assert(tab@[a] == before[a]);
                if b < before.len() {
                    assert(tab@[b] == before[b]);
                }
            }
        }
    }
}

fn set_entry(v: &mut Vec<FunctionInterp>, name: &str, t: Vec<usize>, val: usize, Ghost(m): Ghost<Map<Seq<char>, Map<Seq<usize>, usize>>>)
    requires
        funs_agree(old(v)@, m),
    ensures
        funs_agree(final(v)@, m.insert(name@, table_at(m, name@).insert(t@, val))),
{
    let ghost m2 = m.insert(name@, table_at(m, name@).insert(t@, val));
    let mut i: usize = 0;
    while i < v.len()
        invariant
            i <= v@.len(),
            v@ == old(v)@,
            forall|j: int| 0 <= j < i ==> (#[trigger] v@[j]).name@ != name@,
        ensures
            i <= v@.len(),
            v@ == old(v)@,
            forall|j: int| 0 <= j < i ==> (#[trigger] v@[j]).name@ != name@,
            i < v@.len() ==> v@[i as int].name@ == name@,
        decreases v.len() - i,
    {
        if str_eq(v[i].name.as_str(), name) {
            break;
        }
        i = i + 1;
    }
    let ghost before = v@;
    let mut tab: Vec<(Vec<usize>, usize)>;
    if i < v.len() {
        proof {
            assert(m.dom().contains(name@));
            assert(table_agrees(before[i as int].table@, m[name@]));
        }
        tab = copy_table(&v[i].table);
        proof {
            let ot = before[i as int].table@;
            assert forall|x: Seq<usize>| #[trigger] m[name@].dom().contains(x) <==> exists|j: int| 0 <= j < tab@.len() && (#[trigger] tab@[j]).0@ == x by {
                if m[name@].dom().contains(x) {
                    let j = choose|j: int| 0 <= j < ot.len() && (#[trigger] ot[j]).0@ == x;
                    assert(tab@[j].0@ == x);
                }
                if exists|j: int| 0 <= j < tab@.len() && (#[trigger] tab@[j]).0@ == x {
                    let j = choose|j: int| 0 <= j < tab@.len() && (#[trigger] tab@[j]).0@ == x;
                    assert(ot[j].0@ == x);
                }
            }
            assert forall|j: int| 0 <= j < tab@.len() implies m[name@][(#[trigger] tab@[j]).0@] == tab@[j].1 by {
                assert(ot[j].0@ == tab@[j].0@);
            }
            assert forall|a: int, b: int| 0 <= a < b < tab@.len() implies (#[trigger] tab@[a]).0@ != (#[trigger] tab@[b]).0@ by {
                assert(ot[a].0@ == tab@[a].0@);
                assert(ot[b].0@ == tab@[b].0@);
            }
        }
        set_row(&mut tab, t, val, Ghost(m[name@]));
        let nm = crate::signature::copy_string(&v[i].name);
        v.set(i, FunctionInterp { name: nm, table: tab });
    } else {
        tab = Vec::new();
        proof {
            assert(!m.dom().contains(name@));
            assert(table_agrees(tab@, Map::empty()));
        }
        set_row(&mut tab, t, val, Ghost(Map::empty()));
        v.push(FunctionInterp { name: String::from_str(name), table: tab });
    }
    proof {
        let at = if i < before.len() { i as int } else { before.len() as int };
        assert(v@[at].name@ == name@);
        assert(table_agrees(v@[at].table@, m2[name@]));
        assert forall|x: Seq<char>| #[trigger] m2.dom().contains(x) <==> exists|k: int| 0 <= k < v@.len() && (#[trigger] v@[k]).name@ == x by {
            if m2.dom().contains(x) && x != name@ {
                let k = choose|k: int| 0 <= k < before.len() && (#[trigger] before[k]).name@ == x;
                assert(k != at);
                assert(v@[k] == before[k]);
            }
            if m2.dom().contains(x) && x == name@ {
                assert(v@[at].name@ == x);
            }
            if exists|k: int| 0 <= k < v@.len() && (#[trigger] v@[k]).name@ == x {
                let k = choose|k: int| 0 <= k < v@.len() && (#[trigger] v@[k]).name@ == x;
                if k != at {
                    assert(v@[k] == before[k]);
                }
            }
        }
        assert forall|k: int| 0 <= k < v@.len() implies table_agrees((#[trigger] v@[k]).table@, m2[v@[k].name@]) by {
            if k != at {
                assert(v@[k] == before[k]);
            }
        }
        assert forall|a: int, b: int| 0 <= a < b < v@.len() implies (#[trigger] v@[a]).name@ != (#[trigger] v@[b]).name@ by {
            if a != at {
                assert(v@[a] == before[a]);
            }
            if b != at {
                assert(v@[b] == before[b]);
            }
        }
    }
}

// ---------------------------------------------------------------------------
// Lines
// ---------------------------------------------------------------------------

/// A problem in a `.model` file.
#[derive(Debug)]
pub enum ModelParseError {
    /// A line of unexpected shape.
    Syntax {
        /// Line number, from one.
        line: usize,
        /// What was expected.
        message: String,
    },
    /// An element that no header names.
    UnknownElement {
        /// Line number, from one.
        line: usize,
        /// The element.
        name: String,
    },
    /// A sort, relation or function the signature lacks.
    UnknownSymbol {
        /// Line number, from one.
        line: usize,
        /// `"sort"`, or `"symbol"` for a relation or function.
        kind: String,
        /// The name.
        name: String,
    },
    /// No header came before the first interpretation line, or none at all.
    MissingHeader,
}

/// Abstract value of a [`ModelParseError`].
pub enum ErrV {
    /// Line and message.
    Syntax(nat, Seq<char>),
    /// Line and element.
    UnknownElement(nat, Seq<char>),
    /// Line, kind and name.
    UnknownSymbol(nat, Seq<char>, Seq<char>),
    /// No header.
    MissingHeader,
}

/// Abstract value of an error.
pub open spec fn err_view(e: ModelParseError) -> ErrV {
    match e {
        ModelParseError::Syntax { line, message } => ErrV::Syntax(line as nat, message@),
        ModelParseError::UnknownElement { line, name } => ErrV::UnknownElement(line as nat, name@),
        ModelParseError::UnknownSymbol { line, kind, name } => ErrV::UnknownSymbol(line as nat, kind@, name@),
        ModelParseError::MissingHeader => ErrV::MissingHeader,
    }
}

/// What a line does to the state.
pub enum Step {
    /// The state after the line.
    Next(PState),
    /// The line is in error.
    Fail(ErrV),
    /// A body line whose last `)` comes before its first `(`.
    Crash,
}

/// Names numbered by position; a name given twice keeps its last number.
pub open spec fn index_names(m: Map<Seq<char>, usize>, ns: Seq<Seq<char>>) -> Map<Seq<char>, usize>
    decreases ns.len(),
{
    if ns.len() == 0 {
        m
    } else {
        index_names(m, ns.drop_last()).insert(ns.last(), (ns.len() - 1) as usize)
    }
}

/// The numbers of `ns`, or the first name without one.
pub open spec fn lookup_all(m: Map<Seq<char>, usize>, ns: Seq<Seq<char>>) -> Result<Seq<usize>, Seq<char>>
    decreases ns.len(),
{
    if ns.len() == 0 {
        Ok(seq![])
    } else {
        match lookup_all(m, ns.drop_last()) {
            Err(b) => Err(b),
            Ok(v) => if m.dom().contains(ns.last()) {
                Ok(v.push(m[ns.last()]))
            } else {
                Err(ns.last())
            },
        }
    }
}

/// A header line, `rest` following `model `.
#[verifier::opaque]
pub open spec fn header_step(sig: Signature, st: PState, ln: nat, rest: Seq<char>) -> Step {
    match first_index_of(rest, '=') {
        None => Step::Fail(ErrV::Syntax(ln, "expected '=' in model header"@)),
        Some(e) => {
            let sort = trim(rest.take(e));
            let et = trim(rest.skip(e + 1));
            if !(et.len() >= 2 && et[0] == '{' && et[et.len() - 1] == '}') {
                Step::Fail(ErrV::Syntax(ln, "expected '{...}' in model header"@))
            } else {
                let names = nonempty(trim_each(split_on(et.subrange(1, et.len() - 1), ',')));
                if !sort_names(sig.sorts@).contains(sort) {
                    Step::Fail(ErrV::UnknownSymbol(ln, "sort"@, sort))
                } else {
                    Step::Next(
                        PState {
                            carriers: st.carriers.insert(sort, names.len() as usize),
                            elements: index_names(st.elements, names),
                            header: true,
                            ..st
                        },
                    )
                }
            }
        },
    }
}

/// The argument names of `args_text`: none if it is blank, else its
/// trimmed pieces between commas.
pub open spec fn arg_list(args_text: Seq<char>) -> Seq<Seq<char>> {
    if trim(args_text).len() == 0 {
        seq![]
    } else {
        trim_each(split_on(args_text, ','))
    }
}

/// An interpretation line `name(args) = rhs`, its parts found.
#[verifier::opaque]
pub open spec fn body_apply(sig: Signature, st: PState, ln: nat, name: Seq<char>, args_text: Seq<char>, rhs: Seq<char>) -> Step {
    match lookup_all(st.elements, arg_list(args_text)) {
        Err(bad) => Step::Fail(ErrV::UnknownElement(ln, bad)),
        Ok(idx) => if rel_names(sig.relations@).contains(name) {
            if rhs == "true"@ {
                Step::Next(PState { rels: st.rels.insert(name, set_at(st.rels, name).insert(idx)), ..st })
            } else {
                Step::Next(st)
            }
        } else if fun_names(sig.functions@).contains(name) {
            if st.elements.dom().contains(rhs) {
                Step::Next(PState { funs: st.funs.insert(name, table_at(st.funs, name).insert(idx, st.elements[rhs])), ..st })
            } else {
                Step::Fail(ErrV::UnknownElement(ln, rhs))
            }
        } else {
            Step::Fail(ErrV::UnknownSymbol(ln, "symbol"@, name))
        },
    }
}

/// An interpretation line split at its `=`: the symbol and its
/// arguments on the left.
#[verifier::opaque]
pub open spec fn body_lhs(sig: Signature, st: PState, ln: nat, lhs: Seq<char>, rhs: Seq<char>) -> Step {
    match first_index_of(lhs, '(') {
        Some(o) => match last_index_of(lhs, ')') {
            None => Step::Fail(ErrV::Syntax(ln, "missing ')'"@)),
            Some(c) => if c < o {
                Step::Crash
            } else {
                body_apply(sig, st, ln, trim(lhs.take(o)), lhs.subrange(o + 1, c), rhs)
            },
        },
        None => body_apply(sig, st, ln, lhs, seq![], rhs),
    }
}

/// An interpretation line.
#[verifier::opaque]
pub open spec fn body_step(sig: Signature, st: PState, ln: nat, t: Seq<char>) -> Step {
    match first_index_of(t, '=') {
        None => Step::Fail(ErrV::Syntax(ln, "expected '=' in body line"@)),
        Some(e) => body_lhs(sig, st, ln, trim(t.take(e)), trim(t.skip(e + 1))),
    }
}

/// Line `ln` (from one) of the file.
#[verifier::opaque]
pub open spec fn line_step(sig: Signature, st: PState, ln: nat, line: Seq<char>) -> Step {
    let content = trim(strip_comment(line));
    if content.len() == 0 {
        Step::Next(st)
    } else {
        let t = strip_dots(content);
        if has_prefix(t, "model "@) {
            header_step(sig, st, ln, t.skip("model "@.len() as int))
        } else if !st.header {
            Step::Fail(ErrV::MissingHeader)
        } else {
            body_step(sig, st, ln, t)
        }
    }
}

/// The state before any line: every relation of the signature holds
/// nowhere.
pub open spec fn init_state(sig: Signature) -> PState {
    PState {
        carriers: Map::empty(),
        elements: Map::empty(),
        funs: Map::empty(),
        rels: Map::new(|x: Seq<char>| rel_names(sig.relations@).contains(x), |x: Seq<char>| Set::empty()),
        header: false,
    }
}

/// The lines in order, from the initial state.
pub open spec fn run_lines(sig: Signature, ls: Seq<Seq<char>>) -> Step
    decreases ls.len(),
{
    if ls.len() == 0 {
        Step::Next(init_state(sig))
    } else {
        match run_lines(sig, ls.drop_last()) {
            Step::Next(st) => line_step(sig, st, ls.len() as nat, ls.last()),
            other => other,
        }
    }
}

/// The whole file: its lines (split at `\n`; a `\r` before it, being
/// white space, is trimmed with the rest), then a header check.
pub open spec fn parse_spec(source: Seq<char>, sig: Signature) -> Step {
    match run_lines(sig, split_on(source, '\n')) {
        Step::Next(st) => if st.header {
            Step::Next(st)
        } else {
            Step::Fail(ErrV::MissingHeader)
        },
        other => other,
    }
}

struct Parser {
    carriers: Vec<(SortSymbol, usize)>,
    elements: Vec<(String, usize)>,
    rels: Vec<RelationInterp>,
    funs: Vec<FunctionInterp>,
    header: bool,
}

impl Parser {
    spec fn agrees(&self, st: PState) -> bool {
        &&& carriers_agree(self.carriers@, st.carriers)
        &&& elements_agree(self.elements@, st.elements)
        &&& rels_agree(self.rels@, st.rels)
        &&& funs_agree(self.funs@, st.funs)
        &&& self.header == st.header
    }
}

enum LineResult {
    Continue,
    Stop(ModelParseError),
    Crash,
}

fn range_string(source: &str, a: usize, b: usize) -> (r: String)
    requires
        a <= b <= source@.len(),
    ensures
        r@ == source@.subrange(a as int, b as int),
{
    String::from_str(source.substring_char(a, b))
}

fn syntax(line: usize, message: &str) -> (r: ModelParseError)
    ensures
        err_view(r) == ErrV::Syntax(line as nat, message@),
{
    ModelParseError::Syntax { line, message: String::from_str(message) }
}

/// Trimmed, non-empty pieces of `cs[lo..hi]` between commas.
fn header_names(source: &str, cs: &Vec<char>, lo: usize, hi: usize) -> (r: Vec<String>)
    requires
        cs@ == source@,
        lo <= hi <= cs@.len(),
    ensures
        crate::ir_types::strings_view(r@) == nonempty(trim_each(split_on(cs@.subrange(lo as int, hi as int), ','))),
{
    let ghost ps = trim_each(split_on(cs@.subrange(lo as int, hi as int), ','));
    let pieces = split_in(cs, lo, hi, ',');
    let mut out: Vec<String> = Vec::new();
    let mut k: usize = 0;
    while k < pieces.len()
        invariant
            cs@ == source@,
            lo <= hi <= cs@.len(),
            k <= pieces@.len(),
            pieces@.len() == ps.len(),
            ps == trim_each(split_on(cs@.subrange(lo as int, hi as int), ',')),
            forall|q: int| 0 <= q < pieces@.len() ==> lo <= (#[trigger] pieces@[q]).0 <= pieces@[q].1 <= hi
                && cs@.subrange(pieces@[q].0 as int, pieces@[q].1 as int) == split_on(cs@.subrange(lo as int, hi as int), ',')[q],
            crate::ir_types::strings_view(out@) == nonempty(ps.take(k as int)),
        decreases pieces.len() - k,
    {
        let (a, b) = trim_range(cs, pieces[k].0, pieces[k].1);
        proof {
            assert(ps[k as int] == cs@.subrange(a as int, b as int));
            assert(ps.take(k + 1).drop_last() =~= ps.take(k as int));
            assert(ps.take(k + 1).last() == ps[k as int]);
        }
        if a < b {
            let ghost before = out@;
            out.push(range_string(source, a, b));
            proof {
                assert(crate::ir_types::strings_view(out@) =~= crate::ir_types::strings_view(before).push(ps[k as int]));
            }
        }
        k = k + 1;
    }
    proof {
        assert(ps.take(k as int) =~= ps);
    }
    out
}

/// Trimmed pieces of `cs[lo..hi]` between commas; none if it is blank.
fn arg_names(source: &str, cs: &Vec<char>, lo: usize, hi: usize) -> (r: Vec<String>)
    requires
        cs@ == source@,
        lo <= hi <= cs@.len(),
    ensures
        crate::ir_types::strings_view(r@) == arg_list(cs@.subrange(lo as int, hi as int)),
{
    let (q0, q1) = trim_range(cs, lo, hi);
    let mut out: Vec<String> = Vec::new();
    if q0 == q1 {
        proof {
            assert(crate::ir_types::strings_view(out@) =~= seq![]);
        }
        return out;
    }
    let ghost ps = trim_each(split_on(cs@.subrange(lo as int, hi as int), ','));
    let pieces = split_in(cs, lo, hi, ',');
    let mut k: usize = 0;
    while k < pieces.len()
        invariant
            cs@ == source@,
            lo <= hi <= cs@.len(),
            k <= pieces@.len(),
            pieces@.len() == ps.len(),
            ps == trim_each(split_on(cs@.subrange(lo as int, hi as int), ',')),
            forall|q: int| 0 <= q < pieces@.len() ==> lo <= (#[trigger] pieces@[q]).0 <= pieces@[q].1 <= hi
                && cs@.subrange(pieces@[q].0 as int, pieces@[q].1 as int) == split_on(cs@.subrange(lo as int, hi as int), ',')[q],
            out@.len() == k,
            crate::ir_types::strings_view(out@) == ps.take(k as int),
        decreases pieces.len() - k,
    {
        let (a, b) = trim_range(cs, pieces[k].0, pieces[k].1);
        let ghost before = out@;
        out.push(range_string(source, a, b));
        proof {
            assert(ps[k as int] == cs@.subrange(a as int, b as int));
            assert(crate::ir_types::strings_view(out@) =~= crate::ir_types::strings_view(before).push(ps[k as int]));
            assert(crate::ir_types::strings_view(out@) =~= ps.take(k + 1));
        }
        k = k + 1;
    }
    proof {
        assert(ps.take(k as int) =~= ps);
    }
    out
}

fn has_sort(sig: &Signature, name: &str) -> (r: bool)
    ensures
        r == sort_names(sig.sorts@).contains(name@),
{
    let mut i: usize = 0;
    while i < sig.sorts.len()
        invariant
            i <= sig.sorts@.len(),
            forall|j: int| 0 <= j < i ==> sort_names(sig.sorts@)[j] != name@,
        decreases sig.sorts.len() - i,
    {
        if str_eq(sig.sorts[i].name.as_str(), name) {
            proof {
                assert(sort_names(sig.sorts@)[i as int] == name@);
            }
            return true;
        }
        i = i + 1;
    }
    false
}

fn has_relation(sig: &Signature, name: &str) -> (r: bool)
    ensures
        r == rel_names(sig.relations@).contains(name@),
{
    let mut i: usize = 0;
    while i < sig.relations.len()
        invariant
            i <= sig.relations@.len(),
            forall|j: int| 0 <= j < i ==> rel_names(sig.relations@)[j] != name@,
        decreases sig.relations.len() - i,
    {
        if str_eq(sig.relations[i].name.as_str(), name) {
            proof {
                assert(rel_names(sig.relations@)[i as int] == name@);
            }
            return true;
        }
        proof {
            assert(rel_names(sig.relations@)[i as int] == sig.relations@[i as int].name@);
        }
        i = i + 1;
    }
    false
}

fn has_function(sig: &Signature, name: &str) -> (r: bool)
    ensures
        r == fun_names(sig.functions@).contains(name@),
{
    let mut i: usize = 0;
    while i < sig.functions.len()
        invariant
            i <= sig.functions@.len(),
            forall|j: int| 0 <= j < i ==> fun_names(sig.functions@)[j] != name@,
        decreases sig.functions.len() - i,
    {
        if str_eq(sig.functions[i].name.as_str(), name) {
            proof {
                assert(fun_names(sig.functions@)[i as int] == name@);
            }
            return true;
        }
        proof {
            assert(fun_names(sig.functions@)[i as int] == sig.functions@[i as int].name@);
        }
        i = i + 1;
    }
    false
}

proof fn lemma_lookup_prefix_err(m: Map<Seq<char>, usize>, ns: Seq<Seq<char>>, k: int)
    requires
        0 <= k <= ns.len(),
        lookup_all(m, ns.take(k)) is Err,
    ensures
        lookup_all(m, ns) == lookup_all(m, ns.take(k)),
    decreases ns.len(),
{
    if k == ns.len() {
        assert(ns.take(k) =~= ns);
    } else {
        assert(ns.drop_last().take(k) =~= ns.take(k));
        lemma_lookup_prefix_err(m, ns.drop_last(), k);
    }
}

fn number_elements(v: &mut Vec<(String, usize)>, names: &Vec<String>, Ghost(m): Ghost<Map<Seq<char>, usize>>)
    requires
        elements_agree(old(v)@, m),
    ensures
        elements_agree(final(v)@, index_names(m, crate::ir_types::strings_view(names@))),
{
    let ghost nv = crate::ir_types::strings_view(names@);
    let mut k: usize = 0;
    proof {
        assert(nv.take(0) =~= Seq::<Seq<char>>::empty());
    }
    while k < names.len()
        invariant
            k <= names@.len(),
            nv == crate::ir_types::strings_view(names@),
            elements_agree(v@, index_names(m, nv.take(k as int))),
        decreases names.len() - k,
    {
        set_element(v, &names[k], k, Ghost(index_names(m, nv.take(k as int))));
        proof {
            assert(nv.take(k + 1).drop_last() =~= nv.take(k as int));
            assert(nv.take(k + 1).last() == names@[k as int]@);
        }
        k = k + 1;
    }
    proof {
        assert(nv.take(k as int) =~= nv);
    }
}

fn process_header(
    p: &mut Parser,
    source: &str,
    cs: &Vec<char>,
    r0: usize,
    d: usize,
    ln: usize,
    sig: &Signature,
    Ghost(st): Ghost<PState>,
) -> (r: LineResult)
    requires
        old(p).agrees(st),
        cs@ == source@,
        r0 <= d <= cs@.len(),
    ensures
        match header_step(*sig, st, ln as nat, cs@.subrange(r0 as int, d as int)) {
            Step::Next(st2) => r is Continue && final(p).agrees(st2),
            Step::Fail(e) => r matches LineResult::Stop(x) && err_view(x) == e,
            Step::Crash => false,
        },
{
    proof {
        reveal(header_step);
    }
    let ghost rest = cs@.subrange(r0 as int, d as int);
    let e = match find_in(cs, r0, d, '=') {
        Some(e) => e,
        None => {
            return LineResult::Stop(syntax(ln, "expected '=' in model header"));
        },
    };
    proof {
        let i = e - r0;
        assert(rest.take(i) =~= cs@.subrange(r0 as int, e as int));
        assert(rest.skip(i + 1) =~= cs@.subrange(e + 1, d as int));
    }
    let (s0, s1) = trim_range(cs, r0, e);
    let (t0, t1) = trim_range(cs, e + 1, d);
    if !(t1 - t0 >= 2 && cs[t0] == '{' && cs[t1 - 1] == '}') {
        return LineResult::Stop(syntax(ln, "expected '{...}' in model header"));
    }
    proof {
        let et = cs@.subrange(t0 as int, t1 as int);
        assert(et.subrange(1, et.len() - 1) =~= cs@.subrange(t0 + 1, t1 - 1));
    }
    let names = header_names(source, cs, t0 + 1, t1 - 1);
    let sort = range_string(source, s0, s1);
    if !has_sort(sig, sort.as_str()) {
        return LineResult::Stop(ModelParseError::UnknownSymbol { line: ln, kind: String::from_str("sort"), name: sort });
    }
    number_elements(&mut p.elements, &names, Ghost(st.elements));
    set_carrier(&mut p.carriers, sort.as_str(), names.len(), Ghost(st.carriers));
    p.header = true;
    LineResult::Continue
}

fn process_body(
    p: &mut Parser,
    source: &str,
    cs: &Vec<char>,
    a: usize,
    d: usize,
    ln: usize,
    sig: &Signature,
    Ghost(st): Ghost<PState>,
) -> (r: LineResult)
    requires
        old(p).agrees(st),
        cs@ == source@,
        a <= d <= cs@.len(),
    ensures
        match body_step(*sig, st, ln as nat, cs@.subrange(a as int, d as int)) {
            Step::Next(st2) => r is Continue && final(p).agrees(st2),
            Step::Fail(e) => r matches LineResult::Stop(x) && err_view(x) == e,
            Step::Crash => r is Crash,
        },
{
    proof {
        reveal(body_step);
    }
    let ghost t = cs@.subrange(a as int, d as int);
    let e = match find_in(cs, a, d, '=') {
        Some(e) => e,
        None => {
            return LineResult::Stop(syntax(ln, "expected '=' in body line"));
        },
    };
    proof {
        let i = e - a;
        assert(t.take(i) =~= cs@.subrange(a as int, e as int));
        assert(t.skip(i + 1) =~= cs@.subrange(e + 1, d as int));
    }
    let (l0, l1) = trim_range(cs, a, e);
    let (r0, r1) = trim_range(cs, e + 1, d);
    let rhs = range_string(source, r0, r1);
    lhs_exec(p, source, cs, l0, l1, rhs, ln, sig, Ghost(st))
}

fn lhs_exec(
    p: &mut Parser,
    source: &str,
    cs: &Vec<char>,
    l0: usize,
    l1: usize,
    rhs: String,
    ln: usize,
    sig: &Signature,
    Ghost(st): Ghost<PState>,
) -> (r: LineResult)
    requires
        old(p).agrees(st),
        cs@ == source@,
        l0 <= l1 <= cs@.len(),
    ensures
        match body_lhs(*sig, st, ln as nat, cs@.subrange(l0 as int, l1 as int), rhs@) {
            Step::Next(st2) => r is Continue && final(p).agrees(st2),
            Step::Fail(e) => r matches LineResult::Stop(x) && err_view(x) == e,
            Step::Crash => r is Crash,
        },
{
    proof {
        reveal(body_lhs);
    }
    let ghost lhs = cs@.subrange(l0 as int, l1 as int);
    match find_in(cs, l0, l1, '(') {
        Some(o) => match rfind_in(cs, l0, l1, ')') {
            None => LineResult::Stop(syntax(ln, "missing ')'")),
            Some(c) => {
                if c < o {
                    return LineResult::Crash;
                }
                proof {
                    assert(c != o);
                    assert(lhs.take(o - l0) =~= cs@.subrange(l0 as int, o as int));
                    assert(lhs.subrange(o + 1 - l0, c - l0) =~= cs@.subrange(o + 1, c as int));
                }
                let (n0, n1) = trim_range(cs, l0, o);
                let name = range_string(source, n0, n1);
                apply_exec(p, source, cs, name, o + 1, c, rhs, ln, sig, Ghost(st))
            },
        },
        None => {
            proof {
                assert(cs@.subrange(l1 as int, l1 as int) =~= seq![]);
            }
            let name = range_string(source, l0, l1);
            apply_exec(p, source, cs, name, l1, l1, rhs, ln, sig, Ghost(st))
        },
    }
}

fn lookup_args(elements: &Vec<(String, usize)>, args: &Vec<String>, Ghost(m): Ghost<Map<Seq<char>, usize>>) -> (r: Result<Vec<usize>, usize>)
    requires
        elements_agree(elements@, m),
    ensures
        match lookup_all(m, crate::ir_types::strings_view(args@)) {
            Ok(v) => r matches Ok(x) && x@ == v,
            Err(b) => r matches Err(k) && k < args@.len() && args@[k as int]@ == b,
        },
{
    let ghost av = crate::ir_types::strings_view(args@);
    let mut idx: Vec<usize> = Vec::new();
    let mut k: usize = 0;
    proof {
        assert(av.take(0) =~= Seq::<Seq<char>>::empty());
    }
    while k < args.len()
        invariant
            k <= args@.len(),
            av == crate::ir_types::strings_view(args@),
            elements_agree(elements@, m),
            lookup_all(m, av.take(k as int)) == Ok::<Seq<usize>, Seq<char>>(idx@),
        decreases args.len() - k,
    {
        proof {
            assert(av.take(k + 1).drop_last() =~= av.take(k as int));
            assert(av.take(k + 1).last() == args@[k as int]@);
        }
        match find_element(elements, &args[k], Ghost(m)) {
            None => {
                proof {
                    lemma_lookup_prefix_err(m, av, k + 1);
                }
                return Err(k);
            },
            Some(v) => {
                idx.push(v);
            },
        }
        k = k + 1;
    }
    proof {
        assert(av.take(k as int) =~= av);
    }
    Ok(idx)
}

fn apply_exec(
    p: &mut Parser,
    source: &str,
    cs: &Vec<char>,
    name: String,
    g0: usize,
    g1: usize,
    rhs: String,
    ln: usize,
    sig: &Signature,
    Ghost(st): Ghost<PState>,
) -> (r: LineResult)
    requires
        old(p).agrees(st),
        cs@ == source@,
        g0 <= g1 <= cs@.len(),
    ensures
        match body_apply(*sig, st, ln as nat, name@, cs@.subrange(g0 as int, g1 as int), rhs@) {
            Step::Next(st2) => r is Continue && final(p).agrees(st2),
            Step::Fail(e) => r matches LineResult::Stop(x) && err_view(x) == e,
            Step::Crash => false,
        },
{
    proof {
        reveal(body_apply);
    }
    let args = arg_names(source, cs, g0, g1);
    let idx = match lookup_args(&p.elements, &args, Ghost(st.elements)) {
        Ok(idx) => idx,
        Err(k) => {
            return LineResult::Stop(
                ModelParseError::UnknownElement { line: ln, name: crate::signature::copy_string(&args[k]) },
            );
        },
    };
    if has_relation(sig, name.as_str()) {
        if str_eq(rhs.as_str(), "true") {
            add_tuple(&mut p.rels, name.as_str(), idx, Ghost(st.rels));
        }
        LineResult::Continue
    } else if has_function(sig, name.as_str()) {
        match find_element(&p.elements, &rhs, Ghost(st.elements)) {
            None => LineResult::Stop(ModelParseError::UnknownElement { line: ln, name: rhs }),
            Some(v) => {
                set_entry(&mut p.funs, name.as_str(), idx, v, Ghost(st.funs));
                LineResult::Continue
            },
        }
    } else {
        LineResult::Stop(ModelParseError::UnknownSymbol { line: ln, kind: String::from_str("symbol"), name })
    }
}

fn process_line(
    p: &mut Parser,
    source: &str,
    cs: &Vec<char>,
    lo: usize,
    hi: usize,
    ln: usize,
    sig: &Signature,
    Ghost(st): Ghost<PState>,
) -> (r: LineResult)
    requires
        old(p).agrees(st),
        cs@ == source@,
        lo <= hi <= cs@.len(),
    ensures
        match line_step(*sig, st, ln as nat, cs@.subrange(lo as int, hi as int)) {
            Step::Next(st2) => r is Continue && final(p).agrees(st2),
            Step::Fail(e) => r matches LineResult::Stop(x) && err_view(x) == e,
            Step::Crash => r is Crash,
        },
{
    proof {
        reveal(line_step);
    }
    let e0 = comment_end(cs, lo, hi);
    let (a, b) = trim_range(cs, lo, e0);
    if a == b {
        return LineResult::Continue;
    }
    let d = dots_end(cs, a, b);
    if crate::names::starts_with(source.substring_char(a, d), "model ") {
        proof {
            reveal_strlit("model ");
            assert(cs@.subrange(a as int, d as int).skip(6) =~= cs@.subrange(a + 6, d as int));
        }
        process_header(p, source, cs, a + 6, d, ln, sig, Ghost(st))
    } else if !p.header {
        LineResult::Stop(ModelParseError::MissingHeader)
    } else {
        process_body(p, source, cs, a, d, ln, sig, Ghost(st))
    }
}

// ---------------------------------------------------------------------------
// The file
// ---------------------------------------------------------------------------

proof fn lemma_run_prefix_stop(sig: Signature, ls: Seq<Seq<char>>, k: int)
    requires
        0 <= k <= ls.len(),
        !(run_lines(sig, ls.take(k)) is Next),
    ensures
        run_lines(sig, ls) == run_lines(sig, ls.take(k)),
    decreases ls.len(),
{
    if k == ls.len() {
        assert(ls.take(k) =~= ls);
    } else {
        assert(ls.drop_last().take(k) =~= ls.take(k));
        lemma_run_prefix_stop(sig, ls.drop_last(), k);
    }
}

proof fn lemma_carrier_lookup(v: Seq<(SortSymbol, usize)>, m: Map<Seq<char>, usize>, x: Seq<char>)
    requires
        carriers_agree(v, m),
    ensures
        carrier_lookup(v, x) == lookup(m, x),
    decreases v.len(),
{
    if v.len() > 0 {
        let k0 = v[0].0.name@;
        if k0 == x {
            assert(m.dom().contains(x));
        } else {
            let w = v.drop_first();
            let m2 = m.remove(k0);
            assert forall|y: Seq<char>| #[trigger] m2.dom().contains(y) <==> exists|i: int| 0 <= i < w.len() && (#[trigger] w[i]).0.name@ == y by {
                if m2.dom().contains(y) {
                    let i = choose|i: int| 0 <= i < v.len() && (#[trigger] v[i]).0.name@ == y;
                    assert(i != 0);
                    assert(w[i - 1] == v[i]);
                }
                if exists|i: int| 0 <= i < w.len() && (#[trigger] w[i]).0.name@ == y {
                    let i = choose|i: int| 0 <= i < w.len() && (#[trigger] w[i]).0.name@ == y;
                    assert(v[i + 1] == w[i]);
                }
            }
            assert forall|i: int| 0 <= i < w.len() implies m2[(#[trigger] w[i]).0.name@] == w[i].1 by {
                assert(v[i + 1] == w[i]);
            }
            assert forall|i: int, j: int| 0 <= i < j < w.len() implies (#[trigger] w[i]).0.name@ != (#[trigger] w[j]).0.name@ by {
                assert(v[i + 1] == w[i]);
                assert(v[j + 1] == w[j]);
            }
            lemma_carrier_lookup(w, m2, x);
        }
    } else {
        if m.dom().contains(x) {
            let i = choose|i: int| 0 <= i < v.len() && (#[trigger] v[i]).0.name@ == x;
        }
    }
}

proof fn lemma_relation_lookup(v: Seq<RelationInterp>, m: Map<Seq<char>, Set<Seq<usize>>>, x: Seq<char>)
    requires
        rels_agree(v, m),
    ensures
        match relation_lookup(v, x) {
            Some(ts) => m.dom().contains(x) && ts.to_set() == m[x],
            None => !m.dom().contains(x),
        },
    decreases v.len(),
{
    if v.len() > 0 {
        let k0 = v[0].name@;
        if k0 == x {
            assert(m.dom().contains(x));
        } else {
            let w = v.drop_first();
            let m2 = m.remove(k0);
            assert forall|y: Seq<char>| #[trigger] m2.dom().contains(y) <==> exists|i: int| 0 <= i < w.len() && (#[trigger] w[i]).name@ == y by {
                if m2.dom().contains(y) {
                    let i = choose|i: int| 0 <= i < v.len() && (#[trigger] v[i]).name@ == y;
                    assert(i != 0);
                    assert(w[i - 1] == v[i]);
                }
                if exists|i: int| 0 <= i < w.len() && (#[trigger] w[i]).name@ == y {
                    let i = choose|i: int| 0 <= i < w.len() && (#[trigger] w[i]).name@ == y;
                    assert(v[i + 1] == w[i]);
                }
            }
            assert forall|i: int| 0 <= i < w.len() implies tuples_view((#[trigger] w[i]).tuples@).to_set() == m2[w[i].name@] by {
                assert(v[i + 1] == w[i]);
            }
            assert forall|i: int, j: int| 0 <= i < j < w.len() implies (#[trigger] w[i]).name@ != (#[trigger] w[j]).name@ by {
                assert(v[i + 1] == w[i]);
                assert(v[j + 1] == w[j]);
            }
            lemma_relation_lookup(w, m2, x);
        }
    } else {
        if m.dom().contains(x) {
            let i = choose|i: int| 0 <= i < v.len() && (#[trigger] v[i]).name@ == x;
        }
    }
}

proof fn lemma_function_lookup(v: Seq<FunctionInterp>, m: Map<Seq<char>, Map<Seq<usize>, usize>>, x: Seq<char>)
    requires
        funs_agree(v, m),
    ensures
        match function_lookup(v, x) {
            Some(tab) => m.dom().contains(x) && table_agrees(tab, m[x]),
            None => !m.dom().contains(x),
        },
    decreases v.len(),
{
    if v.len() > 0 {
        let k0 = v[0].name@;
        if k0 == x {
            assert(m.dom().contains(x));
        } else {
            let w = v.drop_first();
            let m2 = m.remove(k0);
            assert forall|y: Seq<char>| #[trigger] m2.dom().contains(y) <==> exists|i: int| 0 <= i < w.len() && (#[trigger] w[i]).name@ == y by {
                if m2.dom().contains(y) {
                    let i = choose|i: int| 0 <= i < v.len() && (#[trigger] v[i]).name@ == y;
                    assert(i != 0);
                    assert(w[i - 1] == v[i]);
                }
                if exists|i: int| 0 <= i < w.len() && (#[trigger] w[i]).name@ == y {
                    let i = choose|i: int| 0 <= i < w.len() && (#[trigger] w[i]).name@ == y;
                    assert(v[i + 1] == w[i]);
                }
            }
            assert forall|i: int| 0 <= i < w.len() implies table_agrees((#[trigger] w[i]).table@, m2[w[i].name@]) by {
                assert(v[i + 1] == w[i]);
            }
            assert forall|i: int, j: int| 0 <= i < j < w.len() implies (#[trigger] w[i]).name@ != (#[trigger] w[j]).name@ by {
                assert(v[i + 1] == w[i]);
                assert(v[j + 1] == w[j]);
            }
            lemma_function_lookup(w, m2, x);
        }
    } else {
        if m.dom().contains(x) {
            let i = choose|i: int| 0 <= i < v.len() && (#[trigger] v[i]).name@ == x;
        }
    }
}

proof fn lemma_table_lookup(tab: Seq<(Vec<usize>, usize)>, m: Map<Seq<usize>, usize>, t: Seq<usize>)
    requires
        table_agrees(tab, m),
    ensures
        table_lookup(tab, t) == lookup(m, t),
    decreases tab.len(),
{
    if tab.len() > 0 {
        let k0 = tab[0].0@;
        if k0 == t {
            assert(m.dom().contains(t));
        } else {
            let w = tab.drop_first();
            let m2 = m.remove(k0);
            assert forall|y: Seq<usize>| #[trigger] m2.dom().contains(y) <==> exists|i: int| 0 <= i < w.len() && (#[trigger] w[i]).0@ == y by {
                if m2.dom().contains(y) {
                    let i = choose|i: int| 0 <= i < tab.len() && (#[trigger] tab[i]).0@ == y;
                    assert(i != 0);
                    assert(w[i - 1] == tab[i]);
                }
                if exists|i: int| 0 <= i < w.len() && (#[trigger] w[i]).0@ == y {
                    let i = choose|i: int| 0 <= i < w.len() && (#[trigger] w[i]).0@ == y;
                    assert(tab[i + 1] == w[i]);
                }
            }
            assert forall|i: int| 0 <= i < w.len() implies m2[(#[trigger] w[i]).0@] == w[i].1 by {
                assert(tab[i + 1] == w[i]);
            }
            assert forall|i: int, j: int| 0 <= i < j < w.len() implies (#[trigger] w[i]).0@ != (#[trigger] w[j]).0@ by {
                assert(tab[i + 1] == w[i]);
                assert(tab[j + 1] == w[j]);
            }
            lemma_table_lookup(w, m2, t);
        }
    } else {
        if m.dom().contains(t) {
            let i = choose|i: int| 0 <= i < tab.len() && (#[trigger] tab[i]).0@ == t;
        }
    }
}

/// `m` is the model that state `st` describes over `sig`: the signature,
/// the carrier list, one relation entry per relation key with exactly its
/// tuples, one function table per function key with exactly its entries
/// (so a missing entry reads as element 0).
pub open spec fn model_agrees(m: FiniteModel, sig: Signature, st: PState) -> bool {
    &&& m.signature.same_as(&sig)
    &&& carriers_agree(m.carriers@, st.carriers)
    &&& rels_agree(m.relation_interps@, st.rels)
    &&& funs_agree(m.function_interps@, st.funs)
    &&& forall|x: Seq<char>| #[trigger] m.carrier_of(x) == lookup(st.carriers, x)
    &&& forall|x: Seq<char>, t: Seq<usize>| #[trigger] m.holds(x, t) == set_at(st.rels, x).contains(t)
    &&& forall|x: Seq<char>, t: Seq<usize>| #[trigger] m.apply(x, t) == (match lookup(table_at(st.funs, x), t) {
        Some(v) => v,
        None => 0,
    })
}

fn init_rels(sig: &Signature) -> (r: Vec<RelationInterp>)
    ensures
        rels_agree(r@, init_state(*sig).rels),
{
    let mut out: Vec<RelationInterp> = Vec::new();
    let mut i: usize = 0;
    while i < sig.relations.len()
        invariant
            i <= sig.relations@.len(),
            rels_agree(out@, Map::new(|x: Seq<char>| rel_names(sig.relations@).take(i as int).contains(x), |x: Seq<char>| Set::<Seq<usize>>::empty())),
        decreases sig.relations.len() - i,
    {
        let ghost m = Map::new(|x: Seq<char>| rel_names(sig.relations@).take(i as int).contains(x), |x: Seq<char>| Set::<Seq<usize>>::empty());
        let ghost m2 = Map::new(|x: Seq<char>| rel_names(sig.relations@).take(i + 1).contains(x), |x: Seq<char>| Set::<Seq<usize>>::empty());
        let nm = sig.relations[i].name.as_str();
        proof {
            assert(rel_names(sig.relations@)[i as int] == nm@);
            assert(rel_names(sig.relations@).take(i + 1) =~= rel_names(sig.relations@).take(i as int).push(nm@));
        }
        let mut k: usize = 0;
        let mut found = false;
        while k < out.len()
            invariant_except_break
                !found,
            invariant
                k <= out@.len(),
                forall|q: int| 0 <= q < k ==> (#[trigger] out@[q]).name@ != nm@,
            ensures
                found ==> exists|q: int| 0 <= q < out@.len() && (#[trigger] out@[q]).name@ == nm@,
                !found ==> forall|q: int| 0 <= q < out@.len() ==> (#[trigger] out@[q]).name@ != nm@,
            decreases out.len() - k,
        {
            if str_eq(out[k].name.as_str(), nm) {
                found = true;
                break;
            }
            k = k + 1;
        }
        let ghost before = out@;
        proof {
            assert(rel_names(sig.relations@)[i as int] == nm@);
            assert(rel_names(sig.relations@).take(i + 1) =~= rel_names(sig.relations@).take(i as int).push(nm@));
            assert forall|x: Seq<char>| rel_names(sig.relations@).take(i + 1).contains(x) <==> (rel_names(
                sig.relations@,
            ).take(i as int).contains(x) || x == nm@) by {
                crate::translator::lemma_push_contains(rel_names(sig.relations@).take(i as int), nm@, x);
            }
        }
        if found {
            proof {
                assert(m.dom().contains(nm@));
                assert(m2 =~= m);
            }
        } else {
            out.push(RelationInterp { name: String::from_str(nm), tuples: Vec::new() });
            proof {
                assert(tuples_view(out@[before.len() as int].tuples@) =~= seq![]);
                assert(Seq::<Seq<usize>>::empty().to_set() =~= Set::<Seq<usize>>::empty());
                assert forall|x: Seq<char>| #[trigger] m2.dom().contains(x) <==> exists|q: int| 0 <= q < out@.len() && (#[trigger] out@[q]).name@ == x by {
                    assert(m2.dom().contains(x) == rel_names(sig.relations@).take(i + 1).contains(x));
                    assert(m.dom().contains(x) == rel_names(sig.relations@).take(i as int).contains(x));
                    if m2.dom().contains(x) && x != nm@ {
                        assert(m.dom().contains(x));
                        let q = choose|q: int| 0 <= q < before.len() && (#[trigger] before[q]).name@ == x;
                        assert(out@[q] == before[q]);
                    }
                    if m2.dom().contains(x) && x == nm@ {
                        assert(out@[before.len() as int].name@ == x);
                    }
                    if exists|q: int| 0 <= q < out@.len() && (#[trigger] out@[q]).name@ == x {
                        let q = choose|q: int| 0 <= q < out@.len() && (#[trigger] out@[q]).name@ == x;
                        if q < before.len() {
                            assert(out@[q] == before[q]);
                            assert(m.dom().contains(x));
                        }
                    }
                }
                assert forall|q: int| 0 <= q < out@.len() implies tuples_view((#[trigger] out@[q]).tuples@).to_set() == m2[out@[q].name@] by {
                    assert(m2.dom().contains(out@[q].name@));
                    assert(m2[out@[q].name@] == Set::<Seq<usize>>::empty());
                    if q < before.len() {
                        assert(out@[q] == before[q]);
                        assert(m.dom().contains(out@[q].name@));
                    }
                }
                assert forall|a: int, b: int| 0 <= a < b < out@.len() implies (#[trigger] out@[a]).name@ != (#[trigger] out@[b]).name@ by {
                    assert(out@[a] == before[a]);
                    if b < before.len() {
                        assert(out@[b] == before[b]);
                    }
                }
            }
        }
        i = i + 1;
    }
    proof {
        assert(rel_names(sig.relations@).take(i as int) =~= rel_names(sig.relations@));
        assert(Map::new(|x: Seq<char>| rel_names(sig.relations@).take(i as int).contains(x), |x: Seq<char>| Set::<Seq<usize>>::empty())
            =~= init_state(*sig).rels);
    }
    out
}

fn parse_checked(source: &str, sig: &Signature) -> (r: Option<Result<FiniteModel, ModelParseError>>)
    ensures
        match parse_spec(source@, *sig) {
            Step::Next(st) => r matches Some(Ok(m)) && model_agrees(m, *sig, st),
            Step::Fail(e) => r matches Some(Err(x)) && err_view(x) == e,
            Step::Crash => r is None,
        },
{
    let cs = chars_of(source);
    let n = cs.len();
    let lines = split_in(&cs, 0, n, '\n');
    let ghost ls = split_on(source@, '\n');
    proof {
        assert(cs@.subrange(0, n as int) =~= source@);
    }
    let mut p = Parser { carriers: Vec::new(), elements: Vec::new(), rels: init_rels(sig), funs: Vec::new(), header: false };
    let ghost mut st = init_state(*sig);
    proof {
        assert(carriers_agree(p.carriers@, st.carriers));
        assert(elements_agree(p.elements@, st.elements));
        assert(funs_agree(p.funs@, st.funs));
        assert(ls.take(0) =~= Seq::<Seq<char>>::empty());
    }
    let mut k: usize = 0;
    while k < lines.len()
        invariant
            cs@ == source@,
            n == cs@.len(),
            ls == split_on(source@, '\n'),
            lines@.len() == ls.len(),
            forall|q: int| 0 <= q < lines@.len() ==> 0 <= (#[trigger] lines@[q]).0 <= lines@[q].1 <= n
                && cs@.subrange(lines@[q].0 as int, lines@[q].1 as int) == ls[q],
            k <= lines@.len(),
            p.agrees(st),
            run_lines(*sig, ls.take(k as int)) == Step::Next(st),
        decreases lines.len() - k,
    {
        let res = process_line(&mut p, source, &cs, lines[k].0, lines[k].1, k + 1, sig, Ghost(st));
        proof {
            assert(ls.take(k + 1).drop_last() =~= ls.take(k as int));
            assert(ls.take(k + 1).last() == ls[k as int]);
            assert(run_lines(*sig, ls.take(k + 1)) == line_step(*sig, st, (k + 1) as nat, ls[k as int]));
        }
        match res {
            LineResult::Continue => {
                proof {
                    st = match line_step(*sig, st, (k + 1) as nat, ls[k as int]) {
                        Step::Next(s2) => s2,
                        _ => st,
                    };
                }
            },
            LineResult::Stop(e) => {
                proof {
                    lemma_run_prefix_stop(*sig, ls, k + 1);
                }
                return Some(Err(e));
            },
            LineResult::Crash => {
                proof {
                    lemma_run_prefix_stop(*sig, ls, k + 1);
                }
                return None;
            },
        }
        k = k + 1;
    }
    proof {
        assert(ls.take(k as int) =~= ls);
    }
    if !p.header {
        return Some(Err(ModelParseError::MissingHeader));
    }
    let m = FiniteModel { signature: sig.copy(), carriers: p.carriers, function_interps: p.funs, relation_interps: p.rels };
    proof {
        assert forall|x: Seq<char>| #[trigger] m.carrier_of(x) == lookup(st.carriers, x) by {
            lemma_carrier_lookup(m.carriers@, st.carriers, x);
        }
        assert forall|x: Seq<char>, t: Seq<usize>| #[trigger] m.holds(x, t) == set_at(st.rels, x).contains(t) by {
            lemma_relation_lookup(m.relation_interps@, st.rels, x);
        }
        assert forall|x: Seq<char>, t: Seq<usize>| #[trigger] m.apply(x, t) == (match lookup(table_at(st.funs, x), t) {
            Some(v) => v,
            None => 0,
        }) by {
            lemma_function_lookup(m.function_interps@, st.funs, x);
            match function_lookup(m.function_interps@, x) {
                Some(tab) => {
                    lemma_table_lookup(tab, st.funs[x], t);
                },
                None => {},
            }
        }
    }
    Some(Ok(m))
}

/// Parse a `.model` file into a finite model of `sig`.
///
/// Lines are read in order: blank ones (after the comment is cut) are
/// skipped, a header sets a carrier and numbers its elements, every other
/// line before any header is [`ModelParseError::MissingHeader`], and an
/// interpretation line adds a relation tuple or a function entry.  The
/// first line in error decides the error; a file without any header is
/// [`ModelParseError::MissingHeader`].
pub fn parse_model_file(source: &str, sig: &Signature) -> (r: Result<FiniteModel, ModelParseError>)
    requires
        !(parse_spec(source@, *sig) is Crash),
    ensures
        match parse_spec(source@, *sig) {
            Step::Next(st) => r matches Ok(m) && model_agrees(m, *sig, st),
            Step::Fail(e) => r matches Err(x) && err_view(x) == e,
            Step::Crash => false,
        },
{
    match parse_checked(source, sig) {
        Some(res) => res,
        None => Err(ModelParseError::MissingHeader),
    }
}

/// True iff [`parse_model_file`] cannot take `source`: an interpretation
/// line it reaches has its last `)` before its first `(`.
pub fn model_file_is_malformed(source: &str, sig: &Signature) -> (r: bool)
    ensures
        r == (parse_spec(source@, *sig) is Crash),
{
    parse_checked(source, sig).is_none()
}

} // verus!
