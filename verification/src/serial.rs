//! The canonical byte serialization of formulas and the canonical form of
//! a formula tree.
//!
//! Tags: `Top` 0x00, `Bot` 0x01, `Atom` 0x02, `NegAtom` 0x03, `Eq` 0x04,
//! `Neq` 0x05, `And` 0x06, `Or` 0x07, `Forall` 0x08, `Exists` 0x09, `Not`
//! 0x0A, variable 0x10 (then a 4-byte big-endian index), application 0x11.
//! A name is its UTF-8 bytes followed by 0x00; an argument count is 2
//! big-endian bytes.  Counts and indices that do not fit saturate.  The
//! two children of `And` / `Or` are emitted in byte order.
use vstd::prelude::*;
use crate::formula::{terms_view, Formula, FormulaV, Term, TermV};

verus! {

broadcast use vstd::std_specs::vec::group_vec_axioms;

// ---------------------------------------------------------------------------
// Byte strings
// ---------------------------------------------------------------------------

/// Lexicographic three-way comparison of byte strings: -1, 0 or 1.
pub open spec fn bytes_order(a: Seq<u8>, b: Seq<u8>) -> int
    decreases a.len(),
{
    if a.len() == 0 {
        if b.len() == 0 {
            0
        } else {
            -1
        }
    } else if b.len() == 0 {
        1
    } else if a[0] < b[0] {
        -1
    } else if a[0] > b[0] {
        1
    } else {
        bytes_order(a.drop_first(), b.drop_first())
    }
}

/// `a` sorts before or equal to `b`.
pub open spec fn bytes_le(a: Seq<u8>, b: Seq<u8>) -> bool {
    bytes_order(a, b) <= 0
}

pub proof fn lemma_bytes_order_facts(a: Seq<u8>, b: Seq<u8>)
    ensures
        bytes_order(a, b) == -bytes_order(b, a),
        -1 <= bytes_order(a, b) <= 1,
        bytes_order(a, b) == 0 <==> a == b,
    decreases a.len(),
{
    if a.len() > 0 && b.len() > 0 && a[0] == b[0] {
        lemma_bytes_order_facts(a.drop_first(), b.drop_first());
        if a.drop_first() == b.drop_first() {
            assert(a =~= seq![a[0]] + a.drop_first());
            assert(b =~= seq![b[0]] + b.drop_first());
        }
    } else if a.len() == 0 && b.len() == 0 {
        assert(a =~= b);
    }
}

pub proof fn lemma_bytes_order_trans(a: Seq<u8>, b: Seq<u8>, c: Seq<u8>)
    requires
        bytes_order(a, b) <= 0,
        bytes_order(b, c) <= 0,
    ensures
        bytes_order(a, c) <= 0,
    decreases a.len(),
{
    lemma_bytes_order_facts(a, b);
    lemma_bytes_order_facts(b, c);
    lemma_bytes_order_facts(a, c);
    if a.len() > 0 && b.len() > 0 && c.len() > 0 && a[0] == b[0] && b[0] == c[0] {
        lemma_bytes_order_trans(a.drop_first(), b.drop_first(), c.drop_first());
    }
}

/// Three-way byte-string comparison.
pub fn compare_bytes(a: &[u8], b: &[u8]) -> (r: i8)
    ensures
        r as int == bytes_order(a@, b@),
{
    let mut i: usize = 0;
    assert(a@.skip(0) =~= a@);
    assert(b@.skip(0) =~= b@);
    while i < a.len() && i < b.len()
        invariant
            i <= a@.len(),
            i <= b@.len(),
            bytes_order(a@, b@) == bytes_order(a@.skip(i as int), b@.skip(i as int)),
        decreases a.len() - i,
    {
        if a[i] < b[i] {
            return -1;
        } else if a[i] > b[i] {
            return 1;
        }
        assert(a@.skip(i as int).drop_first() =~= a@.skip(i + 1));
        assert(b@.skip(i as int).drop_first() =~= b@.skip(i + 1));
        i = i + 1;
    }
    if i < b.len() {
        -1
    } else if i < a.len() {
        1
    } else {
        0
    }
}

/// Append the bytes of `src` to `out`.
pub fn append_bytes(out: &mut Vec<u8>, src: &[u8])
    ensures
        final(out)@ == old(out)@ + src@,
{
    let ghost start = out@;
    let mut i: usize = 0;
    while i < src.len()
        invariant
            i <= src@.len(),
            out@ == start + src@.subrange(0, i as int),
        decreases src.len() - i,
    {
        out.push(src[i]);
        assert(src@.subrange(0, i + 1) =~= src@.subrange(0, i as int).push(src@[i as int]));
        i = i + 1;
    }
    assert(src@.subrange(0, i as int) =~= src@);
}

// ---------------------------------------------------------------------------
// Serialization
// ---------------------------------------------------------------------------

/// A name: its UTF-8 bytes, then 0x00.
pub open spec fn name_bytes(s: Seq<char>) -> Seq<u8> {
    vstd::utf8::encode_utf8(s).push(0)
}

/// An argument count as 2 big-endian bytes, saturating at 0xFFFF.
pub open spec fn count_bytes(n: nat) -> Seq<u8> {
    let v = if n > 0xFFFF { 0xFFFFnat } else { n };
    seq![(v / 256) as u8, (v % 256) as u8]
}

/// A variable index as 4 big-endian bytes, saturating at 0xFFFF_FFFF.
pub open spec fn index_bytes(n: nat) -> Seq<u8> {
    let v = if n > 0xFFFF_FFFF { 0xFFFF_FFFFnat } else { n };
    seq![(v / 0x100_0000) as u8, ((v / 0x1_0000) % 256) as u8, ((v / 256) % 256) as u8, (v % 256) as u8]
}

/// Serialization of a term.
pub open spec fn ser_term(t: TermV) -> Seq<u8>
    decreases t, 0nat,
{
    match t {
        TermV::Var(i) => seq![0x10u8] + index_bytes(i),
        TermV::App(f, args) => seq![0x11u8] + name_bytes(f.name) + count_bytes(args.len()) + ser_args(args),
    }
}

/// Serialization of a list of terms, one after the other.
pub open spec fn ser_args(args: Seq<TermV>) -> Seq<u8>
    decreases args, 1nat,
{
    if args.len() == 0 {
        seq![]
    } else {
        ser_term(args[0]) + ser_args(args.subrange(1, args.len() as int))
    }
}

/// Two serializations, the smaller (in byte order) first.
pub open spec fn ordered_pair(a: Seq<u8>, b: Seq<u8>) -> Seq<u8> {
    if bytes_le(a, b) {
        a + b
    } else {
        b + a
    }
}

/// The canonical serialization of a formula.
pub open spec fn ser(f: FormulaV) -> Seq<u8>
    decreases f,
{
    match f {
        FormulaV::Top => seq![0x00u8],
        FormulaV::Bot => seq![0x01u8],
        FormulaV::Atom(r, args) => seq![0x02u8] + name_bytes(r.name) + count_bytes(args.len()) + ser_args(args),
        FormulaV::NegAtom(r, args) => seq![0x03u8] + name_bytes(r.name) + count_bytes(args.len()) + ser_args(args),
        FormulaV::Eq(a, b) => seq![0x04u8] + ser_term(a) + ser_term(b),
        FormulaV::Neq(a, b) => seq![0x05u8] + ser_term(a) + ser_term(b),
        FormulaV::And(l, r) => seq![0x06u8] + ordered_pair(ser(*l), ser(*r)),
        FormulaV::Or(l, r) => seq![0x07u8] + ordered_pair(ser(*l), ser(*r)),
        FormulaV::Forall(s, b) => seq![0x08u8] + name_bytes(s) + ser(*b),
        FormulaV::Exists(s, b) => seq![0x09u8] + name_bytes(s) + ser(*b),
        FormulaV::Not(g) => seq![0x0Au8] + ser(*g),
    }
}

fn serialize_name(name: &str, out: &mut Vec<u8>)
    ensures
        final(out)@ == old(out)@ + name_bytes(name@),
{
    let bytes = name.as_bytes();
    append_bytes(out, bytes);
    out.push(0);
}

fn serialize_arg_count(n: usize, out: &mut Vec<u8>)
    ensures
        final(out)@ == old(out)@ + count_bytes(n as nat),
{
    let v: usize = if n > 0xFFFF { 0xFFFF } else { n };
    out.push((v / 256) as u8);
    out.push((v % 256) as u8);
}

fn serialize_index(n: usize, out: &mut Vec<u8>)
    ensures
        final(out)@ == old(out)@ + index_bytes(n as nat),
{
    let v: u64 = if n as u64 > 0xFFFF_FFFF { 0xFFFF_FFFF } else { n as u64 };
    out.push((v / 0x100_0000) as u8);
    out.push(((v / 0x1_0000) % 256) as u8);
    out.push(((v / 256) % 256) as u8);
    out.push((v % 256) as u8);
}

fn serialize_term(t: &Term, out: &mut Vec<u8>)
    ensures
        final(out)@ == old(out)@ + ser_term(t@),
    decreases t, 0nat,
{
    let ghost start = out@;
    match t {
        Term::Var(idx) => {
            out.push(0x10);
            serialize_index(*idx, out);
            assert(out@ =~= start + ser_term(t@));
        },
        Term::App { function, args } => {
            out.push(0x11);
            serialize_name(function.name.as_str(), out);
            serialize_arg_count(args.len(), out);
            serialize_terms(args, out);
            assert(out@ =~= start + ser_term(t@));
        },
    }
}

fn serialize_terms(args: &Vec<Term>, out: &mut Vec<u8>)
    ensures
        final(out)@ == old(out)@ + ser_args(terms_view(args@)),
    decreases args, 1nat,
{
    let ghost start = out@;
    let ghost tv = terms_view(args@);
    let mut i: usize = 0;
    assert(tv.skip(0) =~= tv);
    assert(start =~= start + Seq::<u8>::empty());
    while i < args.len()
        invariant
            i <= args@.len(),
            tv == terms_view(args@),
            out@ + ser_args(tv.skip(i as int)) == start + ser_args(tv),
        decreases args.len() - i,
    {
        proof {
            assert(decreases_to!(args => args[i as int]));
        }
        let ghost before = out@;
        serialize_term(&args[i], out);
        proof {
            let rest = tv.skip(i as int);
            assert(rest.subrange(1, rest.len() as int) =~= tv.skip(i + 1));
            assert(rest[0] == args@[i as int]@);
            assert(ser_args(rest) == ser_term(rest[0]) + ser_args(tv.skip(i + 1)));
            assert(out@ + ser_args(tv.skip(i + 1)) =~= before + ser_args(rest));
        }
        i = i + 1;
    }
    assert(tv.skip(i as int) =~= Seq::<TermV>::empty());
    assert(out@ + ser_args(tv.skip(i as int)) =~= out@);
}

fn serialize_formula(f: &Formula, out: &mut Vec<u8>)
    ensures
        final(out)@ == old(out)@ + ser(f@),
    decreases f, 1nat,
{
    let ghost start = out@;
    match f {
        Formula::Top => out.push(0x00),
        Formula::Bot => out.push(0x01),
        Formula::Atom { relation, args } => {
            out.push(0x02);
            serialize_name(relation.name.as_str(), out);
            serialize_arg_count(args.len(), out);
            serialize_terms(args, out);
        },
        Formula::NegAtom { relation, args } => {
            out.push(0x03);
            serialize_name(relation.name.as_str(), out);
            serialize_arg_count(args.len(), out);
            serialize_terms(args, out);
        },
        Formula::Eq(a, b) => {
            out.push(0x04);
            serialize_term(a, out);
            serialize_term(b, out);
        },
        Formula::Neq(a, b) => {
            out.push(0x05);
            serialize_term(a, out);
            serialize_term(b, out);
        },
        Formula::And(l, r) => {
            let lb = canonical_bytes(l);
            let rb = canonical_bytes(r);
            out.push(0x06);
            if compare_bytes(lb.as_slice(), rb.as_slice()) <= 0 {
                append_bytes(out, lb.as_slice());
                append_bytes(out, rb.as_slice());
            } else {
                append_bytes(out, rb.as_slice());
                append_bytes(out, lb.as_slice());
            }
        },
        Formula::Or(l, r) => {
            let lb = canonical_bytes(l);
            let rb = canonical_bytes(r);
            out.push(0x07);
            if compare_bytes(lb.as_slice(), rb.as_slice()) <= 0 {
                append_bytes(out, lb.as_slice());
                append_bytes(out, rb.as_slice());
            } else {
                append_bytes(out, rb.as_slice());
                append_bytes(out, lb.as_slice());
            }
        },
        Formula::Forall { sort, body } => {
            out.push(0x08);
            serialize_name(sort.name.as_str(), out);
            serialize_formula(body, out);
        },
        Formula::Exists { sort, body } => {
            out.push(0x09);
            serialize_name(sort.name.as_str(), out);
            serialize_formula(body, out);
        },
        Formula::Not(inner) => {
            out.push(0x0A);
            serialize_formula(inner, out);
        },
    }
    assert(out@ =~= start + ser(f@));
}

/// The canonical serialization of a formula.
pub fn canonical_bytes(f: &Formula) -> (r: Vec<u8>)
    ensures
        r@ == ser(f@),
    decreases f, 2nat,
{
    let mut out: Vec<u8> = Vec::new();
    serialize_formula(f, &mut out);
    assert(out@ =~= ser(f@));
    out
}

// ---------------------------------------------------------------------------
// Canonical form
// ---------------------------------------------------------------------------

/// The canonical form of a formula tree: the children of every `And` / `Or`
/// are put in byte order of their (canonical) serializations.
pub open spec fn canon(f: FormulaV) -> FormulaV
    decreases f,
{
    match f {
        FormulaV::And(l, r) => {
            let l2 = canon(*l);
            let r2 = canon(*r);
            if bytes_le(ser(l2), ser(r2)) {
                FormulaV::And(Box::new(l2), Box::new(r2))
            } else {
                FormulaV::And(Box::new(r2), Box::new(l2))
            }
        },
        FormulaV::Or(l, r) => {
            let l2 = canon(*l);
            let r2 = canon(*r);
            if bytes_le(ser(l2), ser(r2)) {
                FormulaV::Or(Box::new(l2), Box::new(r2))
            } else {
                FormulaV::Or(Box::new(r2), Box::new(l2))
            }
        },
        FormulaV::Forall(s, b) => FormulaV::Forall(s, Box::new(canon(*b))),
        FormulaV::Exists(s, b) => FormulaV::Exists(s, Box::new(canon(*b))),
        FormulaV::Not(g) => FormulaV::Not(Box::new(canon(*g))),
        _ => f,
    }
}

/// Reorder the children of every `And` / `Or` so that the one with the
/// smaller serialization comes first.
pub fn canonicalize_tree(f: Formula) -> (r: Formula)
    ensures
        r@ == canon(f@),
    decreases f,
{
    match f {
        Formula::And(l, r) => {
            let l = canonicalize_tree(*l);
            let r = canonicalize_tree(*r);
            let lb = canonical_bytes(&l);
            let rb = canonical_bytes(&r);
            if compare_bytes(lb.as_slice(), rb.as_slice()) <= 0 {
                Formula::And(Box::new(l), Box::new(r))
            } else {
                Formula::And(Box::new(r), Box::new(l))
            }
        },
        Formula::Or(l, r) => {
            let l = canonicalize_tree(*l);
            let r = canonicalize_tree(*r);
            let lb = canonical_bytes(&l);
            let rb = canonical_bytes(&r);
            if compare_bytes(lb.as_slice(), rb.as_slice()) <= 0 {
                Formula::Or(Box::new(l), Box::new(r))
            } else {
                Formula::Or(Box::new(r), Box::new(l))
            }
        },
        Formula::Forall { sort, body } => Formula::Forall { sort, body: Box::new(canonicalize_tree(*body)) },
        Formula::Exists { sort, body } => Formula::Exists { sort, body: Box::new(canonicalize_tree(*body)) },
        Formula::Not(inner) => Formula::Not(Box::new(canonicalize_tree(*inner))),
        other => other,
    }
}

} // verus!
