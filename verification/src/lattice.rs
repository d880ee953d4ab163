//! The specification lattice.
//!
//! Ordering convention: `leq(a, b)` holds iff `b` entails `a`, i.e. every
//! model of `b` is a model of `a` ("b is stronger").  The least element is
//! the empty specification (satisfied by every model) and the greatest is
//! the inconsistent one (`⊥`).  `meet(a, b)` is the union of the axiom
//! sets (the conjunction) and `join(a, b)` their intersection.
use vstd::prelude::*;
use vstd::relations::{sorted_by, total_ordering};
use crate::formula::{
    terms_view, TermV, Term, compare_formulas, copy_formula, copy_formulas, formula_order, formulas_view, lemma_formula_order_antisym,
    lemma_formula_order_trans, lemma_formula_order_zero, nnf, Formula, FormulaV,
};
use crate::model::FiniteModel;
use crate::signature::{FunctionSymbol, RelSym, RelationSymbol, Signature};
use crate::serial::{
    append_bytes, bytes_le, bytes_order, canon, canonical_bytes, canonicalize_tree, compare_bytes,
    lemma_bytes_order_facts, lemma_bytes_order_trans, ser,
};

verus! {

broadcast use vstd::std_specs::vec::group_vec_axioms;

// ---------------------------------------------------------------------------
// Normal forms and canonical keys
// ---------------------------------------------------------------------------

/// The normal form of an axiom: negation normal form, then canonical child
/// order.
pub open spec fn normal_form(f: FormulaV) -> FormulaV {
    canon(nnf(f))
}

/// Strictly increasing in the canonical formula order (so without
/// repetition).
pub open spec fn strictly_ordered(s: Seq<FormulaV>) -> bool {
    forall|i: int, j: int| 0 <= i < j < s.len() ==> formula_order(#[trigger] s[i], #[trigger] s[j]) < 0
}

/// Byte order as a relation.
pub open spec fn bytes_leq() -> spec_fn(Seq<u8>, Seq<u8>) -> bool {
    |a: Seq<u8>, b: Seq<u8>| bytes_le(a, b)
}

/// The serializations of `axs`, sorted in byte order.
pub open spec fn sorted_serializations(axs: Seq<FormulaV>) -> Seq<Seq<u8>> {
    axs.map_values(|f: FormulaV| ser(f)).sort_by(bytes_leq())
}

/// The canonical key of an axiom list: its sorted serializations,
/// concatenated.
pub open spec fn key_of(axs: Seq<FormulaV>) -> Seq<u8> {
    sorted_serializations(axs).flatten()
}

/// Byte order is a total order.
pub proof fn lemma_bytes_leq_total()
    ensures
        total_ordering(bytes_leq()),
{
    let r = bytes_leq();
    assert forall|x: Seq<u8>| #[trigger] r(x, x) by {
        lemma_bytes_order_facts(x, x);
    }
    assert forall|x: Seq<u8>, y: Seq<u8>| #[trigger] r(x, y) && #[trigger] r(y, x) implies x == y by {
        lemma_bytes_order_facts(x, y);
    }
    assert forall|x: Seq<u8>, y: Seq<u8>, z: Seq<u8>| #[trigger] r(x, y) && #[trigger] r(y, z) implies r(x, z) by {
        lemma_bytes_order_trans(x, y, z);
    }
    assert forall|x: Seq<u8>, y: Seq<u8>| #[trigger] r(x, y) || #[trigger] r(y, x) by {
        lemma_bytes_order_facts(x, y);
    }
}

/// Views of a list of byte strings.
pub open spec fn segments_view(v: Seq<Vec<u8>>) -> Seq<Seq<u8>> {
    v.map_values(|b: Vec<u8>| b@)
}

/// Insert `x` into the byte-sorted list `v`, after every element not
/// greater than it.
fn insert_segment(v: &mut Vec<Vec<u8>>, x: Vec<u8>)
    requires
        sorted_by(segments_view(old(v)@), bytes_leq()),
    ensures
        sorted_by(segments_view(final(v)@), bytes_leq()),
        segments_view(final(v)@).to_multiset() == segments_view(old(v)@).to_multiset().insert(x@),
{
    broadcast use vstd::seq_lib::group_to_multiset_ensures;

    let ghost before = segments_view(v@);
    let mut pos: usize = 0;
    while pos < v.len() && compare_bytes(v[pos].as_slice(), x.as_slice()) <= 0
        invariant
            pos <= v@.len(),
            v@ == old(v)@,
            before == segments_view(v@),
            forall|k: int| 0 <= k < pos ==> bytes_le(#[trigger] before[k], x@),
        decreases v.len() - pos,
    {
        pos = pos + 1;
    }
    proof {
        if pos < v@.len() {
            lemma_bytes_order_facts(before[pos as int], x@);
        }
    }
    let ghost xv = x@;
    v.insert(pos, x);
    proof {
        assert(segments_view(v@) =~= before.insert(pos as int, xv));
        let after = segments_view(v@);
        lemma_bytes_leq_total();
        assert forall|i: int, j: int| 0 <= i < j < after.len() implies #[trigger] bytes_leq()(
            after[i],
            after[j],
        ) by {
            if j < pos {
                assert(after[i] == before[i] && after[j] == before[j]);
            } else if j == pos {
                assert(after[i] == before[i]);
            } else if i < pos {
                assert(after[i] == before[i] && after[j] == before[j - 1]);
                if j - 1 > pos {
                    assert(bytes_leq()(before[pos as int], before[j - 1]));
                } else {
                    lemma_bytes_order_facts(before[pos as int], before[pos as int]);
                }
                lemma_bytes_order_trans(xv, before[pos as int], before[j - 1]);
                lemma_bytes_order_trans(before[i], xv, before[j - 1]);
            } else if i == pos {
                assert(after[j] == before[j - 1]);
                if j - 1 > pos {
                    assert(bytes_leq()(before[pos as int], before[j - 1]));
                } else {
                    lemma_bytes_order_facts(before[pos as int], before[pos as int]);
                }
                lemma_bytes_order_trans(xv, before[pos as int], before[j - 1]);
            } else {
                assert(after[i] == before[i - 1] && after[j] == before[j - 1]);
            }
        }
        vstd::seq_lib::to_multiset_insert(before, pos as int, xv);
    }
}

/// Insert `x` into the strictly ordered list `v` unless an equal formula is
/// already there.
fn insert_axiom(v: &mut Vec<Formula>, x: Formula)
    requires
        strictly_ordered(formulas_view(old(v)@)),
    ensures
        strictly_ordered(formulas_view(final(v)@)),
        forall|g: FormulaV| #[trigger] formulas_view(final(v)@).contains(g) <==> (formulas_view(old(v)@).contains(g) || g == x@),
{
    let ghost before = formulas_view(v@);
    let mut pos: usize = 0;
    while pos < v.len() && compare_formulas(&v[pos], &x) < 0
        invariant
            pos <= v@.len(),
            v@ == old(v)@,
            before == formulas_view(v@),
            forall|k: int| 0 <= k < pos ==> formula_order(#[trigger] before[k], x@) < 0,
        decreases v.len() - pos,
    {
        pos = pos + 1;
    }
    if pos < v.len() && compare_formulas(&v[pos], &x) == 0 {
        proof {
            lemma_formula_order_zero(before[pos as int], x@);
            assert(before[pos as int] == x@);
        }
    } else {
        proof {
            if pos < v@.len() {
                lemma_formula_order_antisym(before[pos as int], x@);
            }
        }
        let ghost xv = x@;
        v.insert(pos, x);
        proof {
            assert(formulas_view(v@) =~= before.insert(pos as int, xv));
            let after = formulas_view(v@);
            assert forall|i: int, j: int| 0 <= i < j < after.len() implies formula_order(
                #[trigger] after[i],
                #[trigger] after[j],
            ) < 0 by {
                if j < pos {
                    assert(after[i] == before[i] && after[j] == before[j]);
                } else if j == pos {
                    assert(after[i] == before[i]);
                } else if i < pos {
                    assert(after[i] == before[i] && after[j] == before[j - 1]);
                    if j - 1 > pos {
                        assert(formula_order(before[pos as int], before[j - 1]) < 0);
                        lemma_formula_order_trans(xv, before[pos as int], before[j - 1]);
                    }
                    lemma_formula_order_trans(before[i], xv, before[j - 1]);
                } else if i == pos {
                    assert(after[j] == before[j - 1]);
                    if j - 1 > pos {
                        assert(formula_order(before[pos as int], before[j - 1]) < 0);
                        lemma_formula_order_trans(xv, before[pos as int], before[j - 1]);
                    }
                } else {
                    assert(after[i] == before[i - 1] && after[j] == before[j - 1]);
                }
            }
            assert forall|g: FormulaV| #[trigger] after.contains(g) <==> (before.contains(g) || g == xv) by {
                if after.contains(g) {
                    let k = choose|k: int| 0 <= k < after.len() && after[k] == g;
                    if k < pos {
                        assert(before[k] == g);
                    } else if k > pos {
                        assert(before[k - 1] == g);
                    }
                }
                if before.contains(g) {
                    let k = choose|k: int| 0 <= k < before.len() && before[k] == g;
                    if k < pos {
                        assert(after[k] == g);
                    } else {
                        assert(after[k + 1] == g);
                    }
                }
                if g == xv {
                    assert(after[pos as int] == g);
                }
            }
        }
    }
}

/// The canonical key of a strictly ordered axiom list.
fn compute_key(axioms: &Vec<Formula>) -> (r: Vec<u8>)
    ensures
        r@ == key_of(formulas_view(axioms@)),
{
    broadcast use vstd::seq_lib::group_to_multiset_ensures;

    let ghost fv = formulas_view(axioms@);
    let ghost sers = fv.map_values(|f: FormulaV| ser(f));
    let mut segs: Vec<Vec<u8>> = Vec::new();
    let mut i: usize = 0;
    assert(sers.take(0) =~= Seq::<Seq<u8>>::empty());
    while i < axioms.len()
        invariant
            i <= axioms@.len(),
            fv == formulas_view(axioms@),
            sers == fv.map_values(|f: FormulaV| ser(f)),
            sorted_by(segments_view(segs@), bytes_leq()),
            segments_view(segs@).to_multiset() == sers.take(i as int).to_multiset(),
        decreases axioms.len() - i,
    {
        let b = canonical_bytes(&axioms[i]);
        let ghost bv = b@;
        proof {
            assert(sers.take(i + 1) =~= sers.take(i as int).push(bv));
        }
        insert_segment(&mut segs, b);
        proof {
            vstd::seq_lib::to_multiset_build(sers.take(i as int), bv);
        }
        i = i + 1;
    }
    proof {
        assert(sers.take(i as int) =~= sers);
        lemma_bytes_leq_total();
        sers.lemma_sort_by_ensures(bytes_leq());
        vstd::seq_lib::lemma_sorted_unique(segments_view(segs@), sers.sort_by(bytes_leq()), bytes_leq());
    }
    let mut key: Vec<u8> = Vec::new();
    let mut j: usize = 0;
    let ghost sv = segments_view(segs@);
    assert(sv.take(0) =~= Seq::<Seq<u8>>::empty());
    while j < segs.len()
        invariant
            j <= segs@.len(),
            sv == segments_view(segs@),
            key@ == sv.take(j as int).flatten(),
        decreases segs.len() - j,
    {
        append_bytes(&mut key, segs[j].as_slice());
        proof {
            assert(sv.take(j + 1) =~= sv.take(j as int).push(sv[j as int]));
            sv.take(j as int).lemma_flatten_push(sv[j as int]);
        }
        j = j + 1;
    }
    assert(sv.take(j as int) =~= sv);
    key
}

/// `s` holds exactly the normal forms of the formulas of `fs`.
pub open spec fn holds_normal_forms(s: Seq<FormulaV>, fs: Seq<FormulaV>) -> bool {
    forall|g: FormulaV| #[trigger] s.contains(g) <==> exists|i: int| 0 <= i < fs.len() && g == normal_form(#[trigger] fs[i])
}

/// The normal forms of `fs`, in canonical order and without repetition.
pub open spec fn normalize_all(fs: Seq<FormulaV>) -> Seq<FormulaV> {
    choose|s: Seq<FormulaV>| strictly_ordered(s) && holds_normal_forms(s, fs)
}

/// Two strictly ordered sequences with the same elements are equal.
pub proof fn lemma_strictly_ordered_unique(a: Seq<FormulaV>, b: Seq<FormulaV>)
    requires
        strictly_ordered(a),
        strictly_ordered(b),
        forall|g: FormulaV| #[trigger] a.contains(g) <==> b.contains(g),
    ensures
        a == b,
    decreases a.len(),
{
    if a.len() == 0 {
        if b.len() > 0 {
            assert(b.contains(b[0]));
            assert(a.contains(b[0]));
        }
        assert(a =~= b);
    } else {
        assert(a.contains(a[0]));
        assert(b.contains(a[0]));
        let k = choose|k: int| 0 <= k < b.len() && b[k] == a[0];
        assert(b.contains(b[0]));
        assert(a.contains(b[0]));
        let m = choose|m: int| 0 <= m < a.len() && a[m] == b[0];
        if k > 0 && m > 0 {
            assert(formula_order(b[0], b[k]) < 0);
            assert(formula_order(a[0], a[m]) < 0);
            lemma_formula_order_antisym(a[0], b[0]);
        }
        if k > 0 && m == 0 {
            assert(formula_order(b[0], b[k]) < 0);
            lemma_formula_order_zero(b[0], b[0]);
        }
        if k == 0 && m > 0 {
            assert(formula_order(a[0], a[m]) < 0);
            lemma_formula_order_zero(a[0], a[0]);
        }
        assert(a[0] == b[0]);
        let ra = a.drop_first();
        let rb = b.drop_first();
        assert forall|g: FormulaV| #[trigger] ra.contains(g) <==> rb.contains(g) by {
            if ra.contains(g) {
                let i = choose|i: int| 0 <= i < ra.len() && ra[i] == g;
                assert(a[i + 1] == g);
                assert(a.contains(g));
                assert(b.contains(g));
                let j = choose|j: int| 0 <= j < b.len() && b[j] == g;
                if j == 0 {
                    assert(formula_order(a[0], a[i + 1]) < 0);
                    lemma_formula_order_zero(a[0], a[0]);
                }
                assert(rb[j - 1] == g);
            }
            if rb.contains(g) {
                let i = choose|i: int| 0 <= i < rb.len() && rb[i] == g;
                assert(b[i + 1] == g);
                assert(b.contains(g));
                assert(a.contains(g));
                let j = choose|j: int| 0 <= j < a.len() && a[j] == g;
                if j == 0 {
                    assert(formula_order(b[0], b[i + 1]) < 0);
                    lemma_formula_order_zero(b[0], b[0]);
                }
                assert(ra[j - 1] == g);
            }
        }
        lemma_strictly_ordered_unique(ra, rb);
        assert(a =~= seq![a[0]] + ra);
        assert(b =~= seq![b[0]] + rb);
    }
}

/// A strictly ordered sequence holding exactly the normal forms of `fs` is
/// `normalize_all(fs)`.
pub proof fn lemma_normalize_all(s: Seq<FormulaV>, fs: Seq<FormulaV>)
    requires
        strictly_ordered(s),
        holds_normal_forms(s, fs),
    ensures
        normalize_all(fs) == s,
{
    let t = normalize_all(fs);
    assert(strictly_ordered(t) && holds_normal_forms(t, fs));
    assert forall|g: FormulaV| #[trigger] t.contains(g) <==> s.contains(g) by {}
    lemma_strictly_ordered_unique(t, s);
}

// ---------------------------------------------------------------------------
// Lattice elements
// ---------------------------------------------------------------------------

/// An element of the specification lattice: a set of normalized axioms,
/// identified by its canonical key.
///
/// Every axiom is passed through negation normal form and then through the
/// canonical child order; the axioms are kept in the canonical formula
/// order without repetition.  The key is the byte-sorted concatenation of
/// the axioms' serializations; two elements are equal iff their keys are.
#[derive(Debug, Clone)]
pub struct SpecElement {
    /// The normalized axioms, in canonical order.
    pub axioms: Vec<Formula>,
    /// The canonical key (see [`SpecElement::wf`]).
    pub canonical_key: Vec<u8>,
}

impl SpecElement {
    /// The canonical key.
    pub open spec fn key(&self) -> Seq<u8> {
        self.canonical_key@
    }

    /// Abstract values of the axioms.
    pub open spec fn axiom_views(&self) -> Seq<FormulaV> {
        formulas_view(self.axioms@)
    }

    /// The invariant every constructor establishes.
    pub open spec fn wf(&self) -> bool {
        &&& strictly_ordered(self.axiom_views())
        &&& self.key() == key_of(self.axiom_views())
    }

    /// Build an element from a list of axioms: each axiom is normalized,
    /// duplicates (after normalization) are merged, and the key is
    /// computed.
    pub fn new(axioms: Vec<Formula>) -> (r: SpecElement)
        ensures
            r.wf(),
            r.axiom_views() == normalize_all(formulas_view(axioms@)),
            holds_normal_forms(r.axiom_views(), formulas_view(axioms@)),
    {
        let mut normalized: Vec<Formula> = Vec::new();
        let mut i: usize = 0;
        while i < axioms.len()
            invariant
                i <= axioms@.len(),
                strictly_ordered(formulas_view(normalized@)),
                forall|g: FormulaV|
                    #[trigger] formulas_view(normalized@).contains(g) <==> exists|k: int|
                        0 <= k < i && g == normal_form(#[trigger] axioms@[k]@),
            decreases axioms.len() - i,
        {
            let g = canonicalize_tree(Formula::to_nnf(copy_formula(&axioms[i])));
            let ghost gv = g@;
            insert_axiom(&mut normalized, g);
            proof {
                assert forall|h: FormulaV|
                    #[trigger] formulas_view(normalized@).contains(h) <==> exists|k: int|
                        0 <= k < i + 1 && h == normal_form(#[trigger] axioms@[k]@) by {
                    if h == gv {
                        assert(h == normal_form(axioms@[i as int]@));
                    }
                    if exists|k: int| 0 <= k < i + 1 && h == normal_form(#[trigger] axioms@[k]@) {
                        let k = choose|k: int| 0 <= k < i + 1 && h == normal_form(#[trigger] axioms@[k]@);
                        if k < i {
                            assert(exists|k2: int| 0 <= k2 < i && h == normal_form(#[trigger] axioms@[k2]@));
                        }
                    }
                }
            }
            i = i + 1;
        }
        proof {
            let fs = formulas_view(axioms@);
            assert forall|g: FormulaV| #[trigger] formulas_view(normalized@).contains(g) <==> exists|k: int|
                0 <= k < fs.len() && g == normal_form(#[trigger] fs[k]) by {
                if exists|k: int| 0 <= k < fs.len() && g == normal_form(#[trigger] fs[k]) {
                    let k = choose|k: int| 0 <= k < fs.len() && g == normal_form(#[trigger] fs[k]);
                    assert(g == normal_form(axioms@[k]@));
                }
                if exists|k: int| 0 <= k < i && g == normal_form(#[trigger] axioms@[k]@) {
                    let k = choose|k: int| 0 <= k < i && g == normal_form(#[trigger] axioms@[k]@);
                    assert(g == normal_form(fs[k]));
                }
            }
            lemma_normalize_all(formulas_view(normalized@), fs);
        }
        let key = compute_key(&normalized);
        SpecElement { axioms: normalized, canonical_key: key }
    }

    /// The element whose axioms are `axioms`, normalized.
    pub fn from_axioms(axioms: Vec<Formula>) -> (r: SpecElement)
        ensures
            r.wf(),
            r.axiom_views() == normalize_all(formulas_view(axioms@)),
            holds_normal_forms(r.axiom_views(), formulas_view(axioms@)),
    {
        SpecElement::new(axioms)
    }

    /// The canonical key.  Two elements with the same key are equivalent
    /// under normalization.
    pub fn canonical_key(&self) -> (r: &[u8])
        ensures
            r@ == self.key(),
    {
        self.canonical_key.as_slice()
    }

    /// The canonical serialization of one formula.
    pub fn canonical_serialize(formula: &Formula) -> (r: Vec<u8>)
        ensures
            r@ == ser(formula@),
    {
        canonical_bytes(formula)
    }

    /// A deep copy.
    pub fn copy(&self) -> (r: SpecElement)
        ensures
            r.axiom_views() == self.axiom_views(),
            r.key() == self.key(),
    {
        let mut key: Vec<u8> = Vec::new();
        append_bytes(&mut key, self.canonical_key.as_slice());
        assert(key@ =~= self.canonical_key@);
        SpecElement { axioms: copy_formulas(&self.axioms), canonical_key: key }
    }

    /// Key equality.
    pub fn same_key(&self, other: &SpecElement) -> (r: bool)
        ensures
            r == (self.key() == other.key()),
    {
        proof {
            lemma_bytes_order_facts(self.key(), other.key());
        }
        compare_bytes(self.canonical_key.as_slice(), other.canonical_key.as_slice()) == 0
    }
}

impl PartialEq for SpecElement {
    fn eq(&self, other: &Self) -> (r: bool) {
        self.same_key(other)
    }
}

impl vstd::std_specs::cmp::PartialEqSpecImpl for SpecElement {
    open spec fn obeys_eq_spec() -> bool {
        true
    }

    open spec fn eq_spec(&self, other: &Self) -> bool {
        self.key() == other.key()
    }
}

impl Eq for SpecElement {}

// ---------------------------------------------------------------------------
// Entailment
// ---------------------------------------------------------------------------

/// An entailment-checking strategy.
///
/// `entails(stronger, weaker)` answers whether every model of `stronger`
/// is a model of `weaker`.
pub trait EntailmentChecker {
    /// The answer the checker gives.
    spec fn entails_spec(&self, stronger: Seq<FormulaV>, weaker: Seq<FormulaV>) -> bool;

    /// The axiom lists the checker can decide.
    spec fn accepts(&self, fs: Seq<FormulaV>) -> bool;

    /// True iff every model of `stronger` is also a model of `weaker`.
    fn entails(&self, stronger: &[Formula], weaker: &[Formula]) -> (r: bool)
        requires
            self.accepts(formulas_view(stronger@)),
            self.accepts(formulas_view(weaker@)),
        ensures
            r == self.entails_spec(formulas_view(stronger@), formulas_view(weaker@)),
    ;
}

/// Entailment by enumeration: `stronger` entails `weaker` iff every model
/// of a fixed list that satisfies `stronger` also satisfies `weaker`.
pub struct ModelEntailmentChecker {
    models: Vec<FiniteModel>,
}

impl ModelEntailmentChecker {
    /// The model list.
    pub closed spec fn model_list(&self) -> Seq<FiniteModel> {
        self.models@
    }

    /// A checker over the given models.
    pub fn new(models: Vec<FiniteModel>) -> (r: Self)
        ensures
            r.model_list() == models@,
    {
        ModelEntailmentChecker { models }
    }
}

impl EntailmentChecker for ModelEntailmentChecker {
    open spec fn entails_spec(&self, stronger: Seq<FormulaV>, weaker: Seq<FormulaV>) -> bool {
        forall|i: int|
            0 <= i < self.model_list().len() ==> (#[trigger] self.model_list()[i]).models(stronger)
                ==> self.model_list()[i].models(weaker)
    }

    open spec fn accepts(&self, fs: Seq<FormulaV>) -> bool {
        forall|i: int| 0 <= i < self.model_list().len() ==> (#[trigger] self.model_list()[i]).evaluable(fs)
    }

    fn entails(&self, stronger: &[Formula], weaker: &[Formula]) -> (r: bool) {
        let mut i: usize = 0;
        while i < self.models.len()
            invariant
                i <= self.models@.len(),
                self.accepts(formulas_view(stronger@)),
                self.accepts(formulas_view(weaker@)),
                forall|k: int|
                    0 <= k < i ==> (#[trigger] self.models@[k]).models(formulas_view(stronger@))
                        ==> self.models@[k].models(formulas_view(weaker@)),
            decreases self.models.len() - i,
        {
            let m = &self.models[i];
            assert(self.model_list()[i as int] == *m);
            if m.satisfies_spec(stronger) && !m.satisfies_spec(weaker) {
                return false;
            }
            i = i + 1;
        }
        true
    }
}

// ---------------------------------------------------------------------------
// The lattice
// ---------------------------------------------------------------------------

/// Errors that can arise while building a [`SpecLattice`].
#[derive(Debug, Clone, PartialEq, Eq)]
pub enum LatticeConstructionError {
    /// The local construction produced more candidate elements than the
    /// configured budget allowed.
    TooManyCandidates {
        /// Number of candidates considered.
        generated: usize,
        /// The configured maximum.
        limit: usize,
    },
}

/// Abstract value of a boolean matrix.
pub open spec fn matrix_view(m: Seq<Vec<bool>>) -> Seq<Seq<bool>> {
    m.map_values(|r: Vec<bool>| r@)
}

/// `j` covers `i` in the order `m` over `0..n`: `i < j` strictly and no
/// `k` lies strictly between them.
pub open spec fn covers(m: Seq<Seq<bool>>, n: int, i: int, j: int) -> bool {
    &&& i != j
    &&& m[i][j]
    &&& !m[j][i]
    &&& !exists|k: int|
        0 <= k < n && k != i && k != j && #[trigger] m[i][k] && m[k][j] && !m[k][i] && !m[j][k]
}

/// The elements among `0..count` that cover `i`, in increasing order.
pub open spec fn covering_row(m: Seq<Seq<bool>>, n: int, i: int, count: nat) -> Seq<usize>
    decreases count,
{
    if count == 0 {
        seq![]
    } else {
        let prev = covering_row(m, n, i, (count - 1) as nat);
        if covers(m, n, i, count - 1) {
            prev.push((count - 1) as usize)
        } else {
            prev
        }
    }
}

/// Abstract value of an adjacency list.
pub open spec fn adjacency_view(h: Seq<Vec<usize>>) -> Seq<Seq<usize>> {
    h.map_values(|r: Vec<usize>| r@)
}

/// The Hasse diagram of `m`: row `i` lists the elements covering `i`.
pub open spec fn is_hasse_of(h: Seq<Seq<usize>>, m: Seq<Seq<bool>>, n: int) -> bool {
    h.len() == n && forall|i: int| 0 <= i < n ==> #[trigger] h[i] == covering_row(m, n, i, n as nat)
}

/// A square boolean matrix of size `n`.
pub open spec fn square(m: Seq<Seq<bool>>, n: int) -> bool {
    m.len() == n && forall|i: int| 0 <= i < n ==> (#[trigger] m[i]).len() == n
}

/// Compute the covering relation of `leq`.
fn hasse_reduction(leq: &Vec<Vec<bool>>) -> (r: Vec<Vec<usize>>)
    requires
        square(matrix_view(leq@), leq@.len() as int),
    ensures
        is_hasse_of(adjacency_view(r@), matrix_view(leq@), leq@.len() as int),
{
    let n = leq.len();
    let ghost m = matrix_view(leq@);
    let mut hasse: Vec<Vec<usize>> = Vec::new();
    let mut i: usize = 0;
    assert forall|q: int| 0 <= q < n implies (#[trigger] leq@[q])@.len() == n by {
        assert(m[q] == leq@[q]@);
    }
    while i < n
        invariant
            n == leq@.len(),
            m == matrix_view(leq@),
            square(m, n as int),
            forall|q: int| 0 <= q < n ==> (#[trigger] leq@[q])@.len() == n,
            i <= n,
            hasse@.len() == i,
            forall|k: int| 0 <= k < i ==> (#[trigger] hasse@[k])@ == covering_row(m, n as int, k, n as nat),
        decreases n - i,
    {
        let mut row: Vec<usize> = Vec::new();
        let mut j: usize = 0;
        while j < n
            invariant
                n == leq@.len(),
                m == matrix_view(leq@),
                square(m, n as int),
                forall|q: int| 0 <= q < n ==> (#[trigger] leq@[q])@.len() == n,
                i < n,
                j <= n,
                row@ == covering_row(m, n as int, i as int, j as nat),
            decreases n - j,
        {
            assert(m[i as int] == leq@[i as int]@);
            assert(m[j as int] == leq@[j as int]@);
            if i != j && leq[i][j] && !leq[j][i] {
                let mut covered = true;
                let mut k: usize = 0;
                while k < n
                    invariant_except_break
                        covered,
                        forall|q: int|
                            0 <= q < k ==> !(q != i && q != j && #[trigger] m[i as int][q] && m[q][j as int] && !m[q][i as int]
                                && !m[j as int][q]),
                    invariant
                        n == leq@.len(),
                        m == matrix_view(leq@),
                        square(m, n as int),
                        forall|q: int| 0 <= q < n ==> (#[trigger] leq@[q])@.len() == n,
                        i < n,
                        j < n,
                        k <= n,
                    ensures
                        covered == !exists|q: int|
                            0 <= q < n && q != i && q != j && #[trigger] m[i as int][q] && m[q][j as int] && !m[q][i as int]
                                && !m[j as int][q],
                    decreases n - k,
                {
                    assert(m[k as int] == leq@[k as int]@);
                    assert(m[i as int] == leq@[i as int]@);
                    assert(m[j as int] == leq@[j as int]@);
                    if k != i && k != j && leq[i][k] && leq[k][j] && !leq[k][i] && !leq[j][k] {
                        covered = false;
                        assert(m[i as int][k as int] && m[k as int][j as int]);
                        break;
                    }
                    k = k + 1;
                }
                if covered {
                    row.push(j);
                }
            }
            j = j + 1;
        }
        hasse.push(row);
        i = i + 1;
    }
    assert(adjacency_view(hasse@).len() == n);
    hasse
}

/// Keys strictly increasing along `v`.
pub open spec fn keys_increasing(v: Seq<SpecElement>) -> bool {
    forall|i: int, j: int| 0 <= i < j < v.len() ==> bytes_order(#[trigger] v[i].key(), #[trigger] v[j].key()) < 0
}

/// Some element of `v` has key `key`.
pub open spec fn has_key(v: Seq<SpecElement>, key: Seq<u8>) -> bool {
    exists|i: int| 0 <= i < v.len() && #[trigger] v[i].key() == key
}

/// No element of `c` before position `k` has the key of `c[k]`.
pub open spec fn first_with_key(c: Seq<SpecElement>, k: int) -> bool {
    forall|k2: int| 0 <= k2 < k ==> (#[trigger] c[k2]).key() != c[k].key()
}

/// `e` is the first element of `c` with its key.
pub open spec fn first_occurrence(c: Seq<SpecElement>, e: SpecElement) -> bool {
    exists|k: int| 0 <= k < c.len() && #[trigger] c[k] == e && first_with_key(c, k)
}

/// `v` holds, in key order, the first element of `c` for each key of `c`.
pub open spec fn first_of_each_key(v: Seq<SpecElement>, c: Seq<SpecElement>) -> bool {
    &&& keys_increasing(v)
    &&& forall|k: int| 0 <= k < c.len() ==> has_key(v, (#[trigger] c[k]).key())
    &&& forall|i: int| 0 <= i < v.len() ==> first_occurrence(c, #[trigger] v[i])
}

proof fn lemma_keys_skip(before: Seq<SpecElement>, c: Seq<SpecElement>, e: SpecElement, pos: int)
    requires
        first_of_each_key(before, c),
        0 <= pos < before.len(),
        before[pos].key() == e.key(),
    ensures
        first_of_each_key(before, c.push(e)),
{
    let cc = c.push(e);
    assert forall|k: int| 0 <= k < cc.len() implies has_key(before, (#[trigger] cc[k]).key()) by {
        if k == c.len() {
            assert(before[pos].key() == cc[k].key());
        } else {
            assert(cc[k] == c[k]);
        }
    }
    assert forall|i: int| 0 <= i < before.len() implies first_occurrence(cc, #[trigger] before[i]) by {
        assert(first_occurrence(c, before[i]));
        let k = choose|k: int| 0 <= k < c.len() && #[trigger] c[k] == before[i] && first_with_key(c, k);
        assert(cc[k] == c[k]);
        assert forall|k2: int| 0 <= k2 < k implies (#[trigger] cc[k2]).key() != cc[k].key() by {
            assert(cc[k2] == c[k2]);
        }
        assert(first_with_key(cc, k));
    }
}

proof fn lemma_bytes_lt_trans(a: Seq<u8>, b: Seq<u8>, c: Seq<u8>)
    requires
        bytes_order(a, b) < 0,
        bytes_order(b, c) < 0,
    ensures
        bytes_order(a, c) < 0,
{
    lemma_bytes_order_trans(a, b, c);
    lemma_bytes_order_facts(a, b);
    lemma_bytes_order_facts(b, c);
    lemma_bytes_order_facts(a, c);
}

proof fn lemma_keys_insert_sorted(before: Seq<SpecElement>, e: SpecElement, pos: int)
    requires
        keys_increasing(before),
        0 <= pos <= before.len(),
        forall|k: int| 0 <= k < pos ==> bytes_order(#[trigger] before[k].key(), e.key()) < 0,
        pos < before.len() ==> bytes_order(e.key(), before[pos].key()) < 0,
    ensures
        keys_increasing(before.insert(pos, e)),
{
    let after = before.insert(pos, e);
    assert forall|i: int, j: int| 0 <= i < j < after.len() implies bytes_order(
        #[trigger] after[i].key(),
        #[trigger] after[j].key(),
    ) < 0 by {
        if j < pos {
            assert(after[i] == before[i] && after[j] == before[j]);
        } else if j == pos {
            assert(after[i] == before[i]);
        } else if i < pos {
            assert(after[i] == before[i] && after[j] == before[j - 1]);
        } else if i == pos {
            assert(after[j] == before[j - 1]);
            if j - 1 > pos {
                lemma_bytes_lt_trans(e.key(), before[pos].key(), before[j - 1].key());
            }
        } else {
            assert(after[i] == before[i - 1] && after[j] == before[j - 1]);
        }
    }
}

proof fn lemma_keys_insert_new(before: Seq<SpecElement>, c: Seq<SpecElement>, e: SpecElement, pos: int)
    requires
        first_of_each_key(before, c),
        0 <= pos <= before.len(),
        forall|k: int| 0 <= k < pos ==> bytes_order(#[trigger] before[k].key(), e.key()) < 0,
        pos < before.len() ==> bytes_order(e.key(), before[pos].key()) < 0,
    ensures
        first_of_each_key(before.insert(pos, e), c.push(e)),
{
    let after = before.insert(pos, e);
    let cc = c.push(e);
    lemma_keys_insert_sorted(before, e, pos);
    assert forall|k: int| 0 <= k < cc.len() implies has_key(after, (#[trigger] cc[k]).key()) by {
        if k == c.len() {
            assert(after[pos].key() == cc[k].key());
        } else {
            assert(cc[k] == c[k]);
            assert(has_key(before, c[k].key()));
            let i = choose|i: int| 0 <= i < before.len() && #[trigger] before[i].key() == c[k].key();
            if i < pos {
                assert(after[i] == before[i]);
            } else {
                assert(after[i + 1] == before[i]);
            }
        }
    }
    assert forall|k2: int| 0 <= k2 < c.len() implies (#[trigger] cc[k2]).key() != e.key() by {
        assert(cc[k2] == c[k2]);
        assert(has_key(before, c[k2].key()));
        let i2 = choose|i2: int| 0 <= i2 < before.len() && #[trigger] before[i2].key() == c[k2].key();
        if i2 < pos {
            lemma_bytes_order_facts(before[i2].key(), e.key());
        } else {
            if i2 > pos {
                lemma_bytes_lt_trans(e.key(), before[pos].key(), before[i2].key());
            }
            lemma_bytes_order_facts(e.key(), before[i2].key());
        }
    }
    assert(first_with_key(cc, c.len() as int));
    assert forall|i: int| 0 <= i < after.len() implies first_occurrence(cc, #[trigger] after[i]) by {
        if i == pos {
            assert(cc[c.len() as int] == after[i]);
        } else {
            let bi = if i < pos { i } else { i - 1 };
            assert(after[i] == before[bi]);
            assert(first_occurrence(c, before[bi]));
            let k = choose|k: int| 0 <= k < c.len() && #[trigger] c[k] == before[bi] && first_with_key(c, k);
            assert(cc[k] == c[k]);
            assert forall|k2: int| 0 <= k2 < k implies (#[trigger] cc[k2]).key() != cc[k].key() by {
                assert(cc[k2] == c[k2]);
            }
            assert(first_with_key(cc, k));
        }
    }
}

/// Insert `e` into the key-ordered list `v` unless its key is already
/// present.
fn insert_element(v: &mut Vec<SpecElement>, e: SpecElement, Ghost(c): Ghost<Seq<SpecElement>>)
    requires
        first_of_each_key(old(v)@, c),
    ensures
        first_of_each_key(final(v)@, c.push(e)),
{
    let ghost before = v@;
    let mut pos: usize = 0;
    while pos < v.len() && compare_bytes(v[pos].canonical_key.as_slice(), e.canonical_key.as_slice()) < 0
        invariant
            pos <= v@.len(),
            v@ == before,
            forall|k: int| 0 <= k < pos ==> bytes_order(#[trigger] before[k].key(), e.key()) < 0,
        decreases v.len() - pos,
    {
        pos = pos + 1;
    }
    if pos < v.len() && compare_bytes(v[pos].canonical_key.as_slice(), e.canonical_key.as_slice()) == 0 {
        proof {
            lemma_bytes_order_facts(before[pos as int].key(), e.key());
            lemma_keys_skip(before, c, e, pos as int);
        }
    } else {
        proof {
            if pos < v@.len() {
                lemma_bytes_order_facts(before[pos as int].key(), e.key());
            }
            lemma_keys_insert_new(before, c, e, pos as int);
        }
        let ghost ev = e;
        v.insert(pos, e);
        assert(v@ =~= before.insert(pos as int, ev));
    }
}

/// The specification lattice, built locally around a center element.
///
/// Elements are kept in canonical-key order.  `leq(i, j)` records whether
/// element `j` entails element `i`, as the entailment checker answered when
/// the lattice was built; the Hasse diagram is the covering relation of
/// that matrix.
pub struct SpecLattice {
    signature: Signature,
    quantifier_rank: usize,
    elements: Vec<SpecElement>,
    leq_matrix: Vec<Vec<bool>>,
    hasse: Vec<Vec<usize>>,
    bottom: usize,
    top: usize,
}

/// Index of the element with key `key`, if any.
fn find_key(v: &Vec<SpecElement>, key: &[u8]) -> (r: Option<usize>)
    ensures
        match r {
            Some(i) => i < v@.len() && v@[i as int].key() == key@,
            None => !has_key(v@, key@),
        },
{
    let mut i: usize = 0;
    while i < v.len()
        invariant
            i <= v@.len(),
            forall|k: int| 0 <= k < i ==> (#[trigger] v@[k]).key() != key@,
        decreases v.len() - i,
    {
        if compare_bytes(v[i].canonical_key.as_slice(), key) == 0 {
            proof {
                lemma_bytes_order_facts(v@[i as int].key(), key@);
            }
            return Some(i);
        }
        proof {
            lemma_bytes_order_facts(v@[i as int].key(), key@);
        }
        i = i + 1;
    }
    None
}

/// The candidates the lattice is assembled from: the center, the accepted
/// neighbors in order, then the empty and the inconsistent element.
pub open spec fn lattice_candidates(
    center: SpecElement,
    accepted: Seq<SpecElement>,
    bottom: SpecElement,
    top: SpecElement,
) -> Seq<SpecElement> {
    seq![center] + accepted + seq![bottom, top]
}

impl SpecLattice {
    /// The elements, in key order.
    pub closed spec fn elements_spec(&self) -> Seq<SpecElement> {
        self.elements@
    }

    /// The order matrix: entry `[i][j]` holds iff `j` entails `i`.
    pub closed spec fn order_spec(&self) -> Seq<Seq<bool>> {
        matrix_view(self.leq_matrix@)
    }

    /// The Hasse diagram.
    pub closed spec fn hasse_spec(&self) -> Seq<Seq<usize>> {
        adjacency_view(self.hasse@)
    }

    /// Index of the empty specification.
    pub closed spec fn bottom_spec(&self) -> usize {
        self.bottom
    }

    /// Index of the inconsistent specification.
    pub closed spec fn top_spec(&self) -> usize {
        self.top
    }

    /// The signature the lattice is built over.
    pub closed spec fn signature_spec(&self) -> Signature {
        self.signature
    }

    /// The quantifier-rank bound given at construction.
    pub closed spec fn rank_spec(&self) -> usize {
        self.quantifier_rank
    }

    /// Number of elements.
    pub open spec fn size(&self) -> int {
        self.elements_spec().len() as int
    }

    /// The invariant every constructor establishes.
    pub open spec fn wf(&self) -> bool {
        &&& square(self.order_spec(), self.size())
        &&& is_hasse_of(self.hasse_spec(), self.order_spec(), self.size())
        &&& keys_increasing(self.elements_spec())
        &&& forall|i: int| 0 <= i < self.size() ==> (#[trigger] self.elements_spec()[i]).wf()
        &&& self.bottom_spec() < self.size()
        &&& self.top_spec() < self.size()
        &&& self.elements_spec()[self.bottom_spec() as int].key() == key_of(seq![])
        &&& self.elements_spec()[self.top_spec() as int].key() == key_of(seq![FormulaV::Bot])
    }

    /// Assemble the lattice from its center and the neighbors accepted
    /// for it.  For every key the first candidate (center, accepted
    /// neighbors in order, the empty element, the inconsistent element)
    /// with that key is kept; the order matrix asks `checker` whether
    /// element `j` entails element `i`.
    pub fn assemble<C: EntailmentChecker>(
        signature: Signature,
        quantifier_rank: usize,
        center: SpecElement,
        accepted: Vec<SpecElement>,
        checker: &C,
    ) -> (r: SpecLattice)
        requires
            center.wf(),
            forall|k: int| 0 <= k < accepted@.len() ==> (#[trigger] accepted@[k]).wf(),
            checker.accepts(center.axiom_views()),
            forall|k: int| 0 <= k < accepted@.len() ==> checker.accepts((#[trigger] accepted@[k]).axiom_views()),
            checker.accepts(seq![]),
            checker.accepts(seq![FormulaV::Bot]),
        ensures
            r.wf(),
            r.signature_spec() == signature,
            r.rank_spec() == quantifier_rank,
            exists|b: SpecElement, t: SpecElement|
                b.axiom_views() == Seq::<FormulaV>::empty() && t.axiom_views() == seq![FormulaV::Bot]
                    && first_of_each_key(r.elements_spec(), lattice_candidates(center, accepted@, b, t)),
            forall|i: int, j: int|
                0 <= i < r.size() && 0 <= j < r.size() ==> (#[trigger] r.order_spec()[i][j]) == checker.entails_spec(
                    r.elements_spec()[j].axiom_views(),
                    r.elements_spec()[i].axiom_views(),
                ),
    {
        let bottom_elem = SpecElement::new(Vec::new());
        let mut top_axioms: Vec<Formula> = Vec::new();
        top_axioms.push(Formula::Bot);
        let top_elem = SpecElement::new(top_axioms);
        proof {
            let e = Seq::<FormulaV>::empty();
            assert(formulas_view(Seq::<Formula>::empty()) =~= e);
            lemma_normalize_all(e, e);
            let b = seq![FormulaV::Bot];
            assert(formulas_view(seq![Formula::Bot]) =~= b);
            assert(normal_form(FormulaV::Bot) == FormulaV::Bot);
            assert forall|g: FormulaV| #[trigger] b.contains(g) <==> exists|i: int|
                0 <= i < b.len() && g == normal_form(#[trigger] b[i]) by {
                if b.contains(g) {
                    assert(g == normal_form(b[0]));
                }
            }
            lemma_normalize_all(b, b);
        }
        let ghost bv = bottom_elem;
        let ghost tv = top_elem;
        let mut bkey: Vec<u8> = Vec::new();
        append_bytes(&mut bkey, bottom_elem.canonical_key.as_slice());
        let mut tkey: Vec<u8> = Vec::new();
        append_bytes(&mut tkey, top_elem.canonical_key.as_slice());
        let ghost cands = lattice_candidates(center, accepted@, bv, tv);
        let ghost acc0 = accepted@;
        let mut elements: Vec<SpecElement> = Vec::new();
        let ghost mut seen: Seq<SpecElement> = Seq::empty();
        proof {
            assert(first_of_each_key(elements@, seen));
        }
        insert_element(&mut elements, center, Ghost(seen));
        proof {
            seen = seen.push(center);
        }
        let mut accepted = accepted;
        let mut k: usize = 0;
        let n_acc = accepted.len();
        while accepted.len() > 0
            invariant
                k + accepted@.len() == n_acc,
                n_acc == acc0.len(),
                accepted@ == acc0.skip(k as int),
                seen == seq![center] + acc0.take(k as int),
                first_of_each_key(elements@, seen),
            decreases accepted.len(),
        {
            let e = accepted.remove(0);
            proof {
                assert(e == acc0[k as int]);
                assert(acc0.take(k + 1) =~= acc0.take(k as int).push(e));
                assert(acc0.skip(k + 1) =~= acc0.skip(k as int).remove(0));
            }
            insert_element(&mut elements, e, Ghost(seen));
            proof {
                seen = seen.push(e);
                assert(seen =~= seq![center] + acc0.take(k + 1));
            }
            k = k + 1;
        }
        insert_element(&mut elements, bottom_elem, Ghost(seen));
        proof {
            seen = seen.push(bv);
        }
        insert_element(&mut elements, top_elem, Ghost(seen));
        proof {
            seen = seen.push(tv);
            assert(acc0.take(k as int) =~= acc0);
            assert(seen =~= cands);
        }
        let n = elements.len();
        proof {
            assert forall|i: int| 0 <= i < n implies {
                &&& (#[trigger] elements@[i]).wf()
                &&& checker.accepts(elements@[i].axiom_views())
            } by {
                assert(first_occurrence(cands, elements@[i]));
                let q = choose|q: int| 0 <= q < cands.len() && #[trigger] cands[q] == elements@[i] && first_with_key(cands, q);
                if q == 0 {
                } else if q <= acc0.len() {
                    assert(cands[q] == acc0[q - 1]);
                } else if q == acc0.len() + 1 {
                } else {
                }
            }
        }
        let mut leq_matrix: Vec<Vec<bool>> = Vec::new();
        let mut i: usize = 0;
        while i < n
            invariant
                n == elements@.len(),
                i <= n,
                forall|q: int| 0 <= q < n ==> checker.accepts((#[trigger] elements@[q]).axiom_views()),
                leq_matrix@.len() == i,
                forall|a: int| 0 <= a < i ==> (#[trigger] leq_matrix@[a])@.len() == n,
                forall|a: int, b: int|
                    0 <= a < i && 0 <= b < n ==> (#[trigger] leq_matrix@[a]@[b]) == checker.entails_spec(
                        elements@[b].axiom_views(),
                        elements@[a].axiom_views(),
                    ),
            decreases n - i,
        {
            let mut row: Vec<bool> = Vec::new();
            let mut j: usize = 0;
            while j < n
                invariant
                    n == elements@.len(),
                    i < n,
                    j <= n,
                    forall|q: int| 0 <= q < n ==> checker.accepts((#[trigger] elements@[q]).axiom_views()),
                    row@.len() == j,
                    forall|b: int|
                        0 <= b < j ==> (#[trigger] row@[b]) == checker.entails_spec(
                            elements@[b].axiom_views(),
                            elements@[i as int].axiom_views(),
                        ),
                decreases n - j,
            {
                let v = checker.entails(elements[j].axioms.as_slice(), elements[i].axioms.as_slice());
                row.push(v);
                j = j + 1;
            }
            leq_matrix.push(row);
            i = i + 1;
        }
        proof {
            assert forall|a: int| 0 <= a < n implies (#[trigger] matrix_view(leq_matrix@)[a]).len() == n by {
                assert(matrix_view(leq_matrix@)[a] == leq_matrix@[a]@);
            }
        }
        let hasse = hasse_reduction(&leq_matrix);
        let bottom = match find_key(&elements, bkey.as_slice()) {
            Some(b) => b,
            None => {
                proof {
                    assert(cands[cands.len() - 2] == bv);
                    assert(has_key(elements@, cands[cands.len() - 2].key()));
                }
                0
            },
        };
        let top = match find_key(&elements, tkey.as_slice()) {
            Some(t) => t,
            None => {
                proof {
                    assert(cands[cands.len() - 1] == tv);
                    assert(has_key(elements@, cands[cands.len() - 1].key()));
                }
                0
            },
        };
        SpecLattice { signature, quantifier_rank, elements, leq_matrix, hasse, bottom, top }
    }
}

/// The axioms of `xs` that also occur in `ys`, in order.
pub open spec fn shared_axioms(xs: Seq<FormulaV>, ys: Seq<FormulaV>) -> Seq<FormulaV> {
    xs.filter(|g: FormulaV| ys.contains(g))
}

/// Longest path lengths of at most `k` steps in the diagram `h`, from every
/// node.
pub open spec fn path_levels(h: Seq<Seq<usize>>, k: nat) -> Seq<nat>
    decreases k,
{
    if k == 0 {
        Seq::new(h.len(), |i: int| 0nat)
    } else {
        let prev = path_levels(h, (k - 1) as nat);
        Seq::new(h.len(), |i: int| best_step(h[i], prev))
    }
}

/// `1 + prev[j]` maximized over the successors `j` in `row`; 0 without
/// successors.
pub open spec fn best_step(row: Seq<usize>, prev: Seq<nat>) -> nat
    decreases row.len(),
{
    if row.len() == 0 {
        0
    } else {
        let rest = best_step(row.drop_last(), prev);
        let here = 1 + prev[row.last() as int];
        if here >= rest { here as nat } else { rest }
    }
}

/// Largest entry of `s`, 0 when empty.
pub open spec fn seq_max(s: Seq<nat>) -> nat
    decreases s.len(),
{
    if s.len() == 0 {
        0
    } else {
        let rest = seq_max(s.drop_last());
        if s.last() >= rest { s.last() } else { rest }
    }
}

/// Bit `i` of `mask`.
pub open spec fn mask_has(mask: u32, i: u32) -> bool {
    (mask >> i) & 1 == 1
}

/// Number of the bits `0..n` set in `mask`.
pub open spec fn mask_count(mask: u32, n: nat) -> nat
    decreases n,
{
    if n == 0 {
        0
    } else {
        mask_count(mask, (n - 1) as nat) + if mask_has(mask, (n - 1) as u32) { 1nat } else { 0nat }
    }
}

/// The elements selected by `mask` (among `0..n`) are pairwise
/// incomparable in `m`.
pub open spec fn antichain_mask(m: Seq<Seq<bool>>, n: nat, mask: u32) -> bool {
    forall|i: int, j: int|
        0 <= i < n && 0 <= j < n && i != j && mask_has(mask, i as u32) && mask_has(mask, j as u32) ==> !#[trigger] m[i][j]
}

impl SpecLattice {
    /// `a ≤ b`: `b` entails `a`.
    pub fn leq(&self, a: usize, b: usize) -> (r: bool)
        requires
            self.wf(),
            a < self.size(),
            b < self.size(),
        ensures
            r == self.order_spec()[a as int][b as int],
    {
        assert(self.order_spec()[a as int] == self.leq_matrix@[a as int]@);
        self.leq_matrix[a][b]
    }

    /// Index of the element whose axioms are the union of those of `a` and
    /// `b` (the conjunction).  That element must already be in the lattice.
    pub fn meet(&self, a: usize, b: usize) -> (r: usize)
        requires
            self.wf(),
            a < self.size(),
            b < self.size(),
            has_key(
                self.elements_spec(),
                key_of(
                    normalize_all(
                        self.elements_spec()[a as int].axiom_views() + self.elements_spec()[b as int].axiom_views(),
                    ),
                ),
            ),
        ensures
            r < self.size(),
            self.elements_spec()[r as int].key() == key_of(
                normalize_all(self.elements_spec()[a as int].axiom_views() + self.elements_spec()[b as int].axiom_views()),
            ),
    {
        let mut merged = copy_formulas(&self.elements[a].axioms);
        let more = copy_formulas(&self.elements[b].axioms);
        let ghost va = formulas_view(merged@);
        let mut k: usize = 0;
        while k < more.len()
            invariant
                k <= more@.len(),
                formulas_view(merged@) == va + formulas_view(more@).take(k as int),
            decreases more.len() - k,
        {
            let ghost before = merged@;
            merged.push(copy_formula(&more[k]));
            assert(formulas_view(merged@) =~= formulas_view(before).push(more@[k as int]@));
            assert(formulas_view(more@).take(k + 1) =~= formulas_view(more@).take(k as int).push(more@[k as int]@));
            k = k + 1;
        }
        assert(formulas_view(more@).take(k as int) =~= formulas_view(more@));
        let m = SpecElement::new(merged);
        match find_key(&self.elements, m.canonical_key.as_slice()) {
            Some(i) => i,
            None => 0,
        }
    }

    /// Index of the element whose axioms are those shared by `a` and `b`.
    /// That element must already be in the lattice.
    pub fn join(&self, a: usize, b: usize) -> (r: usize)
        requires
            self.wf(),
            a < self.size(),
            b < self.size(),
            has_key(
                self.elements_spec(),
                key_of(
                    normalize_all(
                        shared_axioms(
                            self.elements_spec()[a as int].axiom_views(),
                            self.elements_spec()[b as int].axiom_views(),
                        ),
                    ),
                ),
            ),
        ensures
            r < self.size(),
            self.elements_spec()[r as int].key() == key_of(
                normalize_all(
                    shared_axioms(
                        self.elements_spec()[a as int].axiom_views(),
                        self.elements_spec()[b as int].axiom_views(),
                    ),
                ),
            ),
    {
        let xs = &self.elements[a].axioms;
        let ys = &self.elements[b].axioms;
        let ghost xv = formulas_view(xs@);
        let ghost yv = formulas_view(ys@);
        let mut shared: Vec<Formula> = Vec::new();
        let mut i: usize = 0;
        while i < xs.len()
            invariant
                i <= xs@.len(),
                xv == formulas_view(xs@),
                yv == formulas_view(ys@),
                formulas_view(shared@) == shared_axioms(xv.take(i as int), yv),
            decreases xs.len() - i,
        {
            let mut found = false;
            let mut j: usize = 0;
            while j < ys.len()
                invariant
                    j <= ys@.len(),
                    yv == formulas_view(ys@),
                    i < xs@.len(),
                    xv == formulas_view(xs@),
                    found == exists|q: int| 0 <= q < j && yv[q] == xv[i as int],
                decreases ys.len() - j,
            {
                let same = xs[i].alpha_eq(&ys[j]);
                proof {
                    assert(yv[j as int] == ys@[j as int]@);
                    assert(xv[i as int] == xs@[i as int]@);
                    if found {
                        let q = choose|q: int| 0 <= q < j && yv[q] == xv[i as int];
                        assert(0 <= q < j + 1 && yv[q] == xv[i as int]);
                    }
                    if same {
                        assert(0 <= j < j + 1 && yv[j as int] == xv[i as int]);
                    }
                }
                found = found || same;
                j = j + 1;
            }
            proof {
                reveal(Seq::filter);
                assert(xv.take(i + 1).drop_last() =~= xv.take(i as int));
                assert(xv.take(i + 1).last() == xv[i as int]);
                if found {
                    let q = choose|q: int| 0 <= q < j && yv[q] == xv[i as int];
                    assert(yv.contains(xv[i as int]));
                } else {
                    assert(!yv.contains(xv[i as int]));
                }
            }
            if found {
                let ghost before = shared@;
                shared.push(copy_formula(&xs[i]));
                assert(formulas_view(shared@) =~= formulas_view(before).push(xv[i as int]));
            }
            i = i + 1;
        }
        assert(xv.take(i as int) =~= xv);
        let m = SpecElement::new(shared);
        match find_key(&self.elements, m.canonical_key.as_slice()) {
            Some(k) => k,
            None => 0,
        }
    }

    /// The Hasse diagram: row `i` lists the elements covering `i`.
    pub fn hasse_diagram(&self) -> (r: &Vec<Vec<usize>>)
        ensures
            adjacency_view(r@) == self.hasse_spec(),
    {
        &self.hasse
    }

    /// Index of the least element (the empty specification).
    pub fn bottom(&self) -> (r: usize)
        ensures
            r == self.bottom_spec(),
    {
        self.bottom
    }

    /// Index of the greatest element (the inconsistent specification).
    pub fn top(&self) -> (r: usize)
        ensures
            r == self.top_spec(),
    {
        self.top
    }

    /// The element at `idx`.
    pub fn element(&self, idx: usize) -> (r: &SpecElement)
        requires
            idx < self.size(),
        ensures
            *r == self.elements_spec()[idx as int],
    {
        &self.elements[idx]
    }

    /// Number of elements.
    pub fn len(&self) -> (r: usize)
        ensures
            r == self.size(),
    {
        self.elements.len()
    }

    /// True iff the lattice has no element.
    pub fn is_empty(&self) -> (r: bool)
        ensures
            r == (self.size() == 0),
    {
        self.elements.len() == 0
    }

    /// Index of the element with canonical key `key`, if any.
    pub fn index_of(&self, key: &[u8]) -> (r: Option<usize>)
        ensures
            match r {
                Some(i) => i < self.size() && self.elements_spec()[i as int].key() == key@,
                None => !has_key(self.elements_spec(), key@),
            },
    {
        find_key(&self.elements, key)
    }

    /// Index of the element with the key of `spec`, if any.
    pub fn find_element(&self, spec: &SpecElement) -> (r: Option<usize>)
        ensures
            match r {
                Some(i) => i < self.size() && self.elements_spec()[i as int].key() == spec.key(),
                None => !has_key(self.elements_spec(), spec.key()),
            },
    {
        self.index_of(spec.canonical_key())
    }

    /// The signature the lattice is built over.
    pub fn signature(&self) -> (r: &Signature)
        ensures
            *r == self.signature_spec(),
    {
        &self.signature
    }

    /// The quantifier-rank bound supplied at construction.
    pub fn quantifier_rank(&self) -> (r: usize)
        ensures
            r == self.rank_spec(),
    {
        self.quantifier_rank
    }
}

proof fn lemma_covering_row_bounds(m: Seq<Seq<bool>>, n: int, i: int, count: nat)
    ensures
        covering_row(m, n, i, count).len() <= count,
        forall|q: int| 0 <= q < covering_row(m, n, i, count).len() ==> #[trigger] covering_row(m, n, i, count)[q] < count,
    decreases count,
{
    if count > 0 {
        lemma_covering_row_bounds(m, n, i, (count - 1) as nat);
    }
}

proof fn lemma_best_step_bound(row: Seq<usize>, prev: Seq<nat>, bound: nat)
    requires
        forall|q: int| 0 <= q < row.len() ==> #[trigger] row[q] < prev.len(),
        forall|q: int| 0 <= q < prev.len() ==> #[trigger] prev[q] <= bound,
    ensures
        best_step(row, prev) <= bound + 1,
    decreases row.len(),
{
    if row.len() > 0 {
        lemma_best_step_bound(row.drop_last(), prev, bound);
        assert(row.last() == row[row.len() - 1]);
    }
}

proof fn lemma_path_levels_bound(h: Seq<Seq<usize>>, k: nat)
    requires
        forall|i: int, q: int| 0 <= i < h.len() && 0 <= q < h[i].len() ==> #[trigger] h[i][q] < h.len(),
    ensures
        path_levels(h, k).len() == h.len(),
        forall|i: int| 0 <= i < h.len() ==> #[trigger] path_levels(h, k)[i] <= k,
    decreases k,
{
    if k > 0 {
        lemma_path_levels_bound(h, (k - 1) as nat);
        let prev = path_levels(h, (k - 1) as nat);
        assert forall|i: int| 0 <= i < h.len() implies #[trigger] path_levels(h, k)[i] <= k by {
            assert forall|q: int| 0 <= q < h[i].len() implies #[trigger] h[i][q] < prev.len() by {
                assert(h[i][q] < h.len());
            }
            lemma_best_step_bound(h[i], prev, (k - 1) as nat);
        }
    }
}

fn best_step_exec(row: &Vec<usize>, prev: &Vec<usize>) -> (r: usize)
    requires
        forall|q: int| 0 <= q < row@.len() ==> #[trigger] row@[q] < prev@.len(),
        best_step(row@, prev@.map_values(|v: usize| v as nat)) <= usize::MAX,
        forall|q: int| 0 <= q < prev@.len() ==> #[trigger] prev@[q] < usize::MAX,
    ensures
        r == best_step(row@, prev@.map_values(|v: usize| v as nat)),
{
    let ghost pv = prev@.map_values(|v: usize| v as nat);
    let mut best: usize = 0;
    let mut q: usize = 0;
    assert(row@.take(0) =~= Seq::<usize>::empty());
    while q < row.len()
        invariant
            q <= row@.len(),
            pv == prev@.map_values(|v: usize| v as nat),
            forall|k: int| 0 <= k < row@.len() ==> #[trigger] row@[k] < prev@.len(),
            forall|k: int| 0 <= k < prev@.len() ==> #[trigger] prev@[k] < usize::MAX,
            best == best_step(row@.take(q as int), pv),
        decreases row.len() - q,
    {
        assert(row@.take(q + 1).drop_last() =~= row@.take(q as int));
        assert(row@.take(q + 1).last() == row@[q as int]);
        let here = 1 + prev[row[q]];
        if here >= best {
            best = here;
        }
        q = q + 1;
    }
    assert(row@.take(q as int) =~= row@);
    best
}

impl SpecLattice {
    /// Length of the longest chain of covering steps: the longest path in
    /// the Hasse diagram, counting paths of at most `len()` steps (every
    /// path of an acyclic diagram).
    pub fn height(&self) -> (r: usize)
        requires
            self.wf(),
        ensures
            r == seq_max(path_levels(self.hasse_spec(), self.size() as nat)),
    {
        let n = self.elements.len();
        let ghost h = self.hasse_spec();
        proof {
            assert forall|i: int, q: int| 0 <= i < h.len() && 0 <= q < h[i].len() implies #[trigger] h[i][q] < h.len() by {
                lemma_covering_row_bounds(self.order_spec(), n as int, i, n as nat);
            }
        }
        let mut level: Vec<usize> = Vec::new();
        let mut i: usize = 0;
        while i < n
            invariant
                i <= n,
                n == self.size(),
                level@.len() == i,
                forall|q: int| 0 <= q < i ==> #[trigger] level@[q] == 0,
            decreases n - i,
        {
            level.push(0);
            i = i + 1;
        }
        proof {
            assert(level@.map_values(|v: usize| v as nat) =~= path_levels(h, 0));
        }
        let mut k: usize = 0;
        while k < n
            invariant
                k <= n,
                n == self.size(),
                h == self.hasse_spec(),
                h.len() == n,
                forall|a: int, q: int| 0 <= a < h.len() && 0 <= q < h[a].len() ==> #[trigger] h[a][q] < h.len(),
                level@.len() == n,
                level@.map_values(|v: usize| v as nat) == path_levels(h, k as nat),
            decreases n - k,
        {
            proof {
                lemma_path_levels_bound(h, k as nat);
                lemma_path_levels_bound(h, (k + 1) as nat);
            }
            let mut next: Vec<usize> = Vec::new();
            let mut a: usize = 0;
            while a < n
                invariant
                    a <= n,
                    k < n,
                    n == self.size(),
                    h == self.hasse_spec(),
                    h.len() == n,
                    forall|b: int, q: int| 0 <= b < h.len() && 0 <= q < h[b].len() ==> #[trigger] h[b][q] < h.len(),
                    level@.len() == n,
                    level@.map_values(|v: usize| v as nat) == path_levels(h, k as nat),
                    forall|b: int| 0 <= b < n ==> #[trigger] path_levels(h, k as nat)[b] <= k,
                    forall|b: int| 0 <= b < n ==> #[trigger] path_levels(h, (k + 1) as nat)[b] <= k + 1,
                    next@.len() == a,
                    forall|b: int| 0 <= b < a ==> #[trigger] next@[b] == path_levels(h, (k + 1) as nat)[b],
                decreases n - a,
            {
                assert(h[a as int] == self.hasse@[a as int]@);
                proof {
                    assert forall|q: int| 0 <= q < level@.len() implies #[trigger] level@[q] < usize::MAX by {
                        assert(level@.map_values(|v: usize| v as nat)[q] == level@[q] as nat);
                    }
                }
                assert(path_levels(h, (k + 1) as nat)[a as int] == best_step(h[a as int], path_levels(h, k as nat)));
                let v = best_step_exec(&self.hasse[a], &level);
                next.push(v);
                a = a + 1;
            }
            proof {
                assert(next@.map_values(|v: usize| v as nat) =~= path_levels(h, (k + 1) as nat));
            }
            level = next;
            k = k + 1;
        }
        let ghost lv = level@.map_values(|v: usize| v as nat);
        let mut best: usize = 0;
        let mut q: usize = 0;
        assert(lv.take(0) =~= Seq::<nat>::empty());
        while q < n
            invariant
                q <= n,
                level@.len() == n,
                lv == level@.map_values(|v: usize| v as nat),
                best == seq_max(lv.take(q as int)),
            decreases n - q,
        {
            assert(lv.take(q + 1).drop_last() =~= lv.take(q as int));
            assert(lv.take(q + 1).last() == level@[q as int] as nat);
            if level[q] >= best {
                best = level[q];
            }
            q = q + 1;
        }
        assert(lv.take(q as int) =~= lv);
        best
    }
}

proof fn lemma_zero_mask(i: u32)
    ensures
        !mask_has(0u32, i),
{
    assert((0u32 >> i) & 1 != 1) by (bit_vector);
}

fn count_mask(mask: u32, n: usize) -> (r: usize)
    requires
        n <= 32,
    ensures
        r == mask_count(mask, n as nat),
        r <= n,
{
    let mut c: usize = 0;
    let mut i: usize = 0;
    while i < n
        invariant
            i <= n <= 32,
            c == mask_count(mask, i as nat),
            c <= i,
        decreases n - i,
    {
        if (mask >> (i as u32)) & 1 == 1 {
            c = c + 1;
        }
        i = i + 1;
    }
    c
}

impl SpecLattice {
    fn is_antichain(&self, mask: u32, n: usize) -> (r: bool)
        requires
            self.wf(),
            n == self.size(),
            n <= 32,
        ensures
            r == antichain_mask(self.order_spec(), n as nat, mask),
    {
        let ghost m = self.order_spec();
        let mut i: usize = 0;
        while i < n
            invariant
                n == self.size(),
                n <= 32,
                m == self.order_spec(),
                square(m, n as int),
                i <= n,
                forall|a: int, b: int|
                    0 <= a < i && 0 <= b < n && a != b && mask_has(mask, a as u32) && mask_has(mask, b as u32)
                        ==> !#[trigger] m[a][b],
            decreases n - i,
        {
            if (mask >> (i as u32)) & 1 == 1 {
                let mut j: usize = 0;
                while j < n
                    invariant
                        n == self.size(),
                        n <= 32,
                        m == self.order_spec(),
                        square(m, n as int),
                        i < n,
                        j <= n,
                        mask_has(mask, i as u32),
                        forall|b: int|
                            0 <= b < j && i != b && mask_has(mask, b as u32) ==> !#[trigger] m[i as int][b],
                    decreases n - j,
                {
                    assert(m[i as int] == self.leq_matrix@[i as int]@);
                    if i != j && (mask >> (j as u32)) & 1 == 1 && self.leq_matrix[i][j] {
                        return false;
                    }
                    j = j + 1;
                }
            }
            i = i + 1;
        }
        true
    }

    /// Size of the largest antichain.  Up to 20 elements every subset is
    /// tried and the result is exact; above that a level-counting estimate
    /// is returned.
    pub fn width(&self) -> (r: usize)
        requires
            self.wf(),
        ensures
            self.size() == 0 ==> r == 0,
            0 < self.size() <= 20 ==> {
                &&& exists|mask: u32|
                    mask < (1u32 << (self.size() as u32)) && #[trigger] antichain_mask(
                        self.order_spec(),
                        self.size() as nat,
                        mask,
                    ) && mask_count(mask, self.size() as nat) == r
                &&& forall|mask: u32|
                    mask < (1u32 << (self.size() as u32)) && #[trigger] antichain_mask(
                        self.order_spec(),
                        self.size() as nat,
                        mask,
                    ) ==> mask_count(mask, self.size() as nat) <= r
            },
            self.size() > 20 ==> 1 <= r <= self.size(),
    {
        let n = self.elements.len();
        if n == 0 {
            return 0;
        }
        if n <= 20 {
            let nn: u32 = n as u32;
            let total: u32 = 1u32 << nn;
            assert(total > 0) by (bit_vector)
                requires
                    nn <= 20,
                    total == 1u32 << nn,
            ;
            let mut best: usize = 0;
            let mut mask: u32 = 0;
            while mask < total
                invariant
                    self.wf(),
                    n == self.size(),
                    0 < n <= 20,
                    total == (1u32 << (n as u32)),
                    mask <= total,
                    mask > 0 ==> exists|w: u32|
                        w < mask && #[trigger] antichain_mask(self.order_spec(), n as nat, w) && mask_count(w, n as nat)
                            == best,
                    forall|w: u32|
                        w < mask && #[trigger] antichain_mask(self.order_spec(), n as nat, w) ==> mask_count(w, n as nat)
                            <= best,
                decreases total - mask,
            {
                if self.is_antichain(mask, n) {
                    let c = count_mask(mask, n);
                    if c > best || mask == 0 {
                        best = c;
                    }
                }
                proof {
                    if mask == 0 {
                        let m = self.order_spec();
                        assert forall|i: int, j: int|
                            0 <= i < n && 0 <= j < n && i != j && mask_has(0u32, i as u32) && mask_has(0u32, j as u32)
                                implies !#[trigger] m[i][j] by {
                            lemma_zero_mask(i as u32);
                        }
                        assert(antichain_mask(m, n as nat, 0u32));
                    }
                }
                mask = mask + 1;
            }
            assert(mask == total);
            assert(n as nat == self.size() as nat);
            assert(nn == self.size() as u32);
            assert(total == (1u32 << (self.size() as u32)));
            assert(exists|w: u32|
                w < total && #[trigger] antichain_mask(self.order_spec(), n as nat, w) && mask_count(w, n as nat) == best);
            best
        } else {
            self.level_estimate(n)
        }
    }

    fn row_count(&self, i: usize) -> (r: usize)
        requires
            self.wf(),
            i < self.size(),
        ensures
            r <= self.size(),
            r == crate::cegis::count_true(self.order_spec()[i as int]),
    {
        let n = self.elements.len();
        assert(self.order_spec()[i as int] == self.leq_matrix@[i as int]@);
        assert(self.leq_matrix@.len() == self.order_spec().len());
        let mut c: usize = 0;
        let mut j: usize = 0;
        while j < n
            invariant
                self.wf(),
                n == self.size(),
                i < n,
                self.leq_matrix@.len() == n,
                self.leq_matrix@[i as int]@.len() == n,
                j <= n,
                c <= j,
                self.order_spec()[i as int] == self.leq_matrix@[i as int]@,
                c == crate::cegis::count_true(self.order_spec()[i as int].take(j as int)),
            decreases n - j,
        {
            proof {
                let row = self.order_spec()[i as int];
                assert(row.take(j + 1).drop_last() =~= row.take(j as int));
                assert(row.take(j + 1).last() == row[j as int]);
            }
            if self.leq_matrix[i][j] {
                c = c + 1;
            }
            j = j + 1;
        }
        proof {
            assert(self.order_spec()[i as int].take(j as int) =~= self.order_spec()[i as int]);
        }
        c
    }

    /// Count elements per level, levels assigned in order of decreasing
    /// number of elements above; the largest level count.
    fn level_estimate(&self, n: usize) -> (r: usize)
        requires
            self.wf(),
            n == self.size(),
            n > 0,
        ensures
            1 <= r <= n,
            exists|o: Seq<usize>| #[trigger] key_order(self.order_spec(), n as nat, o) && largest_level(self.order_spec(), n as nat, o, r as nat),
    {
        let ghost m = self.order_spec();
        let mut keys: Vec<usize> = Vec::new();
        let mut i: usize = 0;
        while i < n
            invariant
                self.wf(),
                m == self.order_spec(),
                n == self.size(),
                i <= n,
                keys@.len() == i,
                forall|q: int| 0 <= q < i ==> #[trigger] keys@[q] == level_key(m, q),
            decreases n - i,
        {
            keys.push(self.row_count(i));
            i = i + 1;
        }
        let mut order: Vec<usize> = Vec::new();
        let mut i: usize = 0;
        while i < n
            invariant
                n == self.size(),
                keys@.len() == n,
                forall|q: int| 0 <= q < n ==> #[trigger] keys@[q] == level_key(m, q),
                i <= n,
                order@.len() == i,
                order@.no_duplicates(),
                forall|q: int| 0 <= q < order@.len() ==> #[trigger] order@[q] < i,
                keys_sorted(m, order@),
            decreases n - i,
        {
            let mut pos: usize = order.len();
            while pos > 0 && keys[order[pos - 1]] < keys[i]
                invariant
                    pos <= order@.len(),
                    i < n,
                    keys@.len() == n,
                    forall|q: int| 0 <= q < order@.len() ==> #[trigger] order@[q] < i,
                    forall|q: int| pos <= q < order@.len() ==> keys@[#[trigger] order@[q] as int] < keys@[i as int],
                decreases pos,
            {
                pos = pos - 1;
            }
            let ghost old_o = order@;
            proof {
                if pos > 0 {
                    assert forall|q: int| 0 <= q < pos implies keys@[#[trigger] old_o[q] as int] >= keys@[i as int] by {
                        if q < pos - 1 {
                            assert(level_key(m, old_o[q] as int) >= level_key(m, old_o[pos - 1] as int));
                        }
                    }
                }
                old_o.insert_ensures(pos as int, i);
            }
            order.insert(pos, i);
            proof {
                let o = order@;
                assert(o == old_o.insert(pos as int, i));
                assert forall|q: int| 0 <= q < o.len() implies #[trigger] o[q] < i + 1 by {
                    if q < pos {
                        assert(o[q] == old_o[q]);
                    } else if q > pos {
                        assert(o[q] == old_o[q - 1]);
                    }
                }
                assert forall|p: int, q: int| 0 <= p < o.len() && 0 <= q < o.len() && p != q implies o[p] != o[q] by {
                    if p < pos {
                        assert(o[p] == old_o[p]);
                    } else if p > pos {
                        assert(o[p] == old_o[p - 1]);
                    }
                    if q < pos {
                        assert(o[q] == old_o[q]);
                    } else if q > pos {
                        assert(o[q] == old_o[q - 1]);
                    }
                }
                assert forall|p: int, q: int| 0 <= p < q < o.len() implies key_before(m, #[trigger] o[p], #[trigger] o[q]) by {
                    if p < pos {
                        assert(o[p] == old_o[p]);
                    } else if p > pos {
                        assert(o[p] == old_o[p - 1]);
                    }
                    if q < pos {
                        assert(o[q] == old_o[q]);
                    } else if q > pos {
                        assert(o[q] == old_o[q - 1]);
                    }
                    if p < pos && q > pos {
                        assert(key_before(m, old_o[p], old_o[q - 1]));
                    } else if p < pos && q < pos {
                        assert(key_before(m, old_o[p], old_o[q]));
                    } else if p > pos {
                        assert(key_before(m, old_o[p - 1], old_o[q - 1]));
                    }
                }
            }
            i = i + 1;
        }
        let ghost o = order@;
        let mut depth: Vec<usize> = Vec::new();
        let mut i: usize = 0;
        while i < n
            invariant
                i <= n,
                depth@.len() == i,
                forall|q: int| 0 <= q < i ==> #[trigger] depth@[q] == 0,
            decreases n - i,
        {
            depth.push(0);
            i = i + 1;
        }
        let mut counts: Vec<usize> = Vec::new();
        let mut i: usize = 0;
        while i < n
            invariant
                i <= n,
                counts@.len() == i,
                forall|q: int| 0 <= q < i ==> #[trigger] counts@[q] == 0,
            decreases n - i,
        {
            counts.push(0);
            i = i + 1;
        }
        proof {
            assert(key_order(m, n as nat, o));
            assert(depth@.map_values(|x: usize| x as nat) =~= depths_after(m, o, n as nat, 0));
            assert forall|v: nat| #[trigger] count_eq(levels(m, o, n as nat).take(0), v) == 0 by {
                assert(levels(m, o, n as nat).take(0) =~= Seq::<nat>::empty());
            }
        }
        let mut deepest: usize = 0;
        let mut t: usize = 0;
        while t < n
            invariant
                self.wf(),
                m == self.order_spec(),
                n == self.size(),
                order@ == o,
                key_order(m, n as nat, o),
                depth@.len() == n,
                counts@.len() == n,
                depth@.map_values(|x: usize| x as nat) == depths_after(m, o, n as nat, t as nat),
                forall|q: int| 0 <= q < n ==> #[trigger] depth@[q] <= t,
                forall|v: int| 0 <= v < n ==> #[trigger] counts@[v] == count_eq(levels(m, o, n as nat).take(t as int), v as nat),
                deepest == count_eq(levels(m, o, n as nat).take(t as int), n as nat),
                forall|q: int| 0 <= q < t ==> #[trigger] levels(m, o, n as nat)[q] <= n,
                t <= n,
            decreases n - t,
        {
            let i = order[t];
            let ghost dep = depths_after(m, o, n as nat, t as nat);
            let mut d: usize = 0;
            let mut j: usize = 0;
            assert(self.leq_matrix@.len() == n);
            while j < n
                invariant
                    self.wf(),
                    m == self.order_spec(),
                    n == self.size(),
                    self.leq_matrix@.len() == n,
                    i < n,
                    t < n,
                    depth@.len() == n,
                    depth@.map_values(|x: usize| x as nat) == dep,
                    forall|q: int| 0 <= q < n ==> #[trigger] depth@[q] <= t,
                    j <= n,
                    d <= t + 1,
                    d == depth_from(m, dep, i as int, j as int),
                decreases n - j,
            {
                assert(self.order_spec()[j as int] == self.leq_matrix@[j as int]@);
                assert(dep[j as int] == depth@[j as int]);
                if j != i && self.leq_matrix[j][i] {
                    let cand = depth[j] + 1;
                    if cand > d {
                        d = cand;
                    }
                }
                j = j + 1;
            }
            proof {
                assert(levels(m, o, n as nat)[t as int] == d);
                let lv = levels(m, o, n as nat);
                assert(lv.take(t + 1).drop_last() =~= lv.take(t as int));
                assert(lv.take(t + 1).last() == lv[t as int]);
            }
            depth.set(i, d);
            if d < n {
                let old_count = counts[d];
                proof {
                    lemma_count_eq_le(levels(m, o, n as nat).take(t as int), d as nat);
                }
                counts.set(d, old_count + 1);
            } else {
                proof {
                    lemma_count_eq_le(levels(m, o, n as nat).take(t as int), n as nat);
                }
                deepest = deepest + 1;
            }
            proof {
                assert(depth@.map_values(|x: usize| x as nat) =~= depths_after(m, o, n as nat, (t + 1) as nat));
            }
            t = t + 1;
        }
        let ghost lv = levels(m, o, n as nat);
        proof {
            assert(lv.take(n as int) =~= lv);
            lemma_count_eq_le(lv, n as nat);
        }
        let mut best: usize = deepest;
        let mut arg: usize = n;
        let mut q: usize = 0;
        while q < n
            invariant
                q <= n,
                counts@.len() == n,
                lv.len() == n,
                forall|v: int| 0 <= v < n ==> #[trigger] counts@[v] == count_eq(lv, v as nat),
                deepest == count_eq(lv, n as nat),
                arg <= n,
                best == count_eq(lv, arg as nat),
                best <= n,
                forall|v: nat| v < q ==> #[trigger] count_eq(lv, v) <= best,
                count_eq(lv, n as nat) <= best,
            decreases n - q,
        {
            proof {
                lemma_count_eq_le(lv, q as nat);
            }
            if counts[q] > best {
                best = counts[q];
                arg = q;
            }
            q = q + 1;
        }
        proof {
            assert forall|v: nat| count_eq(lv, v) <= best by {
                if v > n {
                    lemma_count_eq_above(lv, n as nat, v);
                }
            }
            lemma_count_eq_total(lv, n as nat);
            if best == 0 {
                assert(lv[0] <= n);
                assert(count_eq(lv, lv[0]) <= best);
                assert(false);
            }
            lemma_count_eq_witness(lv, arg as nat);
            let t0 = choose|t0: int| 0 <= t0 < lv.len() && lv[t0] == arg;
            assert(largest_level(m, n as nat, o, best as nat));
        }
        best
    }
}

/// Row `i` of `m` counted: the number of elements above element `i`.
pub open spec fn level_key(m: Seq<Seq<bool>>, i: int) -> nat {
    crate::cegis::count_true(m[i])
}

/// `a` comes before `b`: more elements above it, or as many and a smaller
/// index.
pub open spec fn key_before(m: Seq<Seq<bool>>, a: usize, b: usize) -> bool {
    level_key(m, a as int) > level_key(m, b as int) || (level_key(m, a as int) == level_key(m, b as int) && a < b)
}

/// `o` is in [`key_before`] order.
pub open spec fn keys_sorted(m: Seq<Seq<bool>>, o: Seq<usize>) -> bool {
    forall|p: int, q: int| 0 <= p < q < o.len() ==> key_before(m, #[trigger] o[p], #[trigger] o[q])
}

/// `o` lists the indices `0..n` in [`key_before`] order.
pub open spec fn key_order(m: Seq<Seq<bool>>, n: nat, o: Seq<usize>) -> bool {
    &&& o.len() == n
    &&& o.no_duplicates()
    &&& forall|p: int| 0 <= p < n ==> #[trigger] o[p] < n
    &&& keys_sorted(m, o)
}

/// The level of element `i` given the levels `dep` so far: one more than
/// the highest level among the elements `j < k`, `j ≠ i`, below it; 0 when
/// there is none.
pub open spec fn depth_from(m: Seq<Seq<bool>>, dep: Seq<nat>, i: int, k: int) -> nat
    decreases k,
{
    if k <= 0 {
        0
    } else {
        let prev = depth_from(m, dep, i, k - 1);
        if k - 1 != i && m[k - 1][i] && dep[k - 1] + 1 > prev {
            dep[k - 1] + 1
        } else {
            prev
        }
    }
}

/// The levels after the first `t` elements of `o` have been placed, every
/// element starting at level 0.
pub open spec fn depths_after(m: Seq<Seq<bool>>, o: Seq<usize>, n: nat, t: nat) -> Seq<nat>
    decreases t,
{
    if t == 0 {
        Seq::new(n, |q: int| 0nat)
    } else {
        let d = depths_after(m, o, n, (t - 1) as nat);
        d.update(o[t - 1] as int, depth_from(m, d, o[t - 1] as int, n as int))
    }
}

/// The level each element of `o` is placed at, in the order of `o`.
pub open spec fn levels(m: Seq<Seq<bool>>, o: Seq<usize>, n: nat) -> Seq<nat> {
    Seq::new(n, |t: int| depth_from(m, depths_after(m, o, n, t as nat), o[t] as int, n as int))
}

/// Number of entries of `s` equal to `v`.
pub open spec fn count_eq(s: Seq<nat>, v: nat) -> nat
    decreases s.len(),
{
    if s.len() == 0 {
        0
    } else {
        count_eq(s.drop_last(), v) + if s.last() == v { 1nat } else { 0nat }
    }
}

/// `r` is the number of elements at the most populated level when the
/// elements are placed in the order `o`.
pub open spec fn largest_level(m: Seq<Seq<bool>>, n: nat, o: Seq<usize>, r: nat) -> bool {
    let lv = levels(m, o, n);
    &&& exists|t: int| 0 <= t < n && r == count_eq(lv, #[trigger] lv[t])
    &&& forall|v: nat| #[trigger] count_eq(lv, v) <= r
}

proof fn lemma_count_eq_le(s: Seq<nat>, v: nat)
    ensures
        count_eq(s, v) <= s.len(),
    decreases s.len(),
{
    if s.len() > 0 {
        lemma_count_eq_le(s.drop_last(), v);
    }
}

proof fn lemma_count_eq_above(s: Seq<nat>, bound: nat, v: nat)
    requires
        forall|t: int| 0 <= t < s.len() ==> #[trigger] s[t] <= bound,
        v > bound,
    ensures
        count_eq(s, v) == 0,
    decreases s.len(),
{
    if s.len() > 0 {
        let p = s.drop_last();
        assert forall|t: int| 0 <= t < p.len() implies #[trigger] p[t] <= bound by {
            assert(p[t] == s[t]);
        }
        lemma_count_eq_above(p, bound, v);
        assert(s.last() == s[s.len() - 1]);
    }
}

proof fn lemma_count_eq_witness(s: Seq<nat>, v: nat)
    requires
        count_eq(s, v) > 0,
    ensures
        exists|t: int| 0 <= t < s.len() && s[t] == v,
    decreases s.len(),
{
    if s.last() == v {
        assert(s[s.len() - 1] == v);
    } else {
        lemma_count_eq_witness(s.drop_last(), v);
        let t = choose|t: int| 0 <= t < s.drop_last().len() && s.drop_last()[t] == v;
        assert(s[t] == v);
    }
}

/// The counts of the values `0..=bound` add up to the length when every
/// entry is at most `bound`; here only that some value has a positive
/// count when the sequence is not empty.
proof fn lemma_count_eq_total(s: Seq<nat>, bound: nat)
    requires
        s.len() > 0,
        forall|t: int| 0 <= t < s.len() ==> #[trigger] s[t] <= bound,
    ensures
        count_eq(s, s[0]) > 0,
    decreases s.len(),
{
    if s.len() == 1 {
        assert(s.drop_last().len() == 0);
    } else {
        let p = s.drop_last();
        assert forall|t: int| 0 <= t < p.len() implies #[trigger] p[t] <= bound by {
            assert(p[t] == s[t]);
        }
        lemma_count_eq_total(p, bound);
        assert(p[0] == s[0]);
    }
}

// ---------------------------------------------------------------------------
// Neighbors of the center
// ---------------------------------------------------------------------------

/// `body` under universal binders with the given sorts, the first sort
/// outermost.
pub open spec fn quantify(sorts: Seq<Seq<char>>, body: FormulaV) -> FormulaV
    decreases sorts.len(),
{
    if sorts.len() == 0 {
        body
    } else {
        FormulaV::Forall(sorts[0], Box::new(quantify(sorts.drop_first(), body)))
    }
}

/// `∀x₁ … xₙ. R(x₁, …, xₙ)` for a relation of arity `n`.
pub open spec fn fully_quantified(r: RelSym) -> FormulaV {
    quantify(
        r.arity,
        FormulaV::Atom(r, Seq::new(r.arity.len(), |k: int| TermV::Var((r.arity.len() - 1 - k) as nat))),
    )
}

/// The constants of sort `s`, as terms, in order.
pub open spec fn constants_of(consts: Seq<FunctionSymbol>, s: Seq<char>) -> Seq<TermV>
    decreases consts.len(),
{
    if consts.len() == 0 {
        seq![]
    } else {
        let prev = constants_of(consts.drop_last(), s);
        if consts.last().codomain.name@ == s {
            prev.push(TermV::App(consts.last()@, seq![]))
        } else {
            prev
        }
    }
}

/// Every tuple of constants of the sorts `sorts`, the first position
/// varying slowest.
pub open spec fn ground_tuples(consts: Seq<FunctionSymbol>, sorts: Seq<Seq<char>>) -> Seq<Seq<TermV>>
    decreases sorts.len(),
{
    if sorts.len() == 0 {
        seq![seq![]]
    } else {
        let prev = ground_tuples(consts, sorts.drop_last());
        let cands = constants_of(consts, sorts.last());
        Seq::new(prev.len() * cands.len(), |k: int| prev[k / (cands.len() as int)].push(cands[k % (cands.len() as int)]))
    }
}

/// The atoms of the lattice's strengthening step for one relation: the
/// fully quantified atom, then every ground instance.
pub open spec fn relation_lattice_atoms(consts: Seq<FunctionSymbol>, r: RelationSymbol) -> Seq<FormulaV> {
    seq![fully_quantified(r@)] + ground_tuples(consts, r@.arity).map_values(|t: Seq<TermV>| FormulaV::Atom(r@, t))
}

/// The atoms of the lattice's strengthening step, relation by relation.
pub open spec fn lattice_atoms(consts: Seq<FunctionSymbol>, rels: Seq<RelationSymbol>) -> Seq<FormulaV>
    decreases rels.len(),
{
    if rels.len() == 0 {
        seq![]
    } else {
        lattice_atoms(consts, rels.drop_last()) + relation_lattice_atoms(consts, rels.last())
    }
}

fn fully_quantified_atom(r: &RelationSymbol) -> (f: Formula)
    ensures
        f@ == fully_quantified(r@),
{
    let n = r.arity.len();
    let mut args: Vec<Term> = Vec::new();
    let mut k: usize = 0;
    while k < n
        invariant
            k <= n,
            n == r.arity@.len(),
            args@.len() == k,
            forall|q: int| 0 <= q < k ==> (#[trigger] args@[q])@ == TermV::Var((n - 1 - q) as nat),
        decreases n - k,
    {
        args.push(Term::Var(n - 1 - k));
        k = k + 1;
    }
    let ghost rv = r@;
    assert(rv.arity.len() == n);
    assert(terms_view(args@) =~= Seq::new(rv.arity.len(), |q: int| TermV::Var((rv.arity.len() - 1 - q) as nat)));
    let ghost atom = FormulaV::Atom(rv, terms_view(args@));
    let mut body = Formula::Atom { relation: r.copy(), args };
    let mut k: usize = n;
    assert(rv.arity.skip(n as int) =~= Seq::<Seq<char>>::empty());
    while k > 0
        invariant
            k <= n,
            n == r.arity@.len(),
            rv == r@,
            body@ == quantify(rv.arity.skip(k as int), atom),
        decreases k,
    {
        k = k - 1;
        proof {
            assert(rv.arity.skip(k as int).drop_first() =~= rv.arity.skip(k + 1));
            assert(rv.arity.skip(k as int)[0] == rv.arity[k as int]);
            assert(rv.arity[k as int] == r.arity@[k as int].name@);
        }
        body = Formula::Forall { sort: r.arity[k].copy(), body: Box::new(body) };
    }
    assert(rv.arity.skip(0) =~= rv.arity);
    body
}

fn constant_terms(consts: &Vec<FunctionSymbol>, sort: &str) -> (r: Vec<Term>)
    ensures
        terms_view(r@) == constants_of(consts@, sort@),
{
    let mut out: Vec<Term> = Vec::new();
    let mut i: usize = 0;
    assert(consts@.take(0) =~= Seq::<FunctionSymbol>::empty());
    while i < consts.len()
        invariant
            i <= consts@.len(),
            terms_view(out@) == constants_of(consts@.take(i as int), sort@),
        decreases consts.len() - i,
    {
        proof {
            assert(consts@.take(i + 1).drop_last() =~= consts@.take(i as int));
            assert(consts@.take(i + 1).last() == consts@[i as int]);
        }
        if crate::names::str_eq(consts[i].codomain.name.as_str(), sort) {
            let ghost before = terms_view(out@);
            let t = Term::App { function: consts[i].copy(), args: Vec::new() };
            assert(terms_view(Seq::<Term>::empty()) =~= Seq::<TermV>::empty());
            out.push(t);
            assert(terms_view(out@) =~= before.push(TermV::App(consts@[i as int]@, seq![])));
        }
        i = i + 1;
    }
    assert(consts@.take(i as int) =~= consts@);
    out
}

/// Views of a list of term tuples.
pub open spec fn tuples_of_terms(v: Seq<Vec<Term>>) -> Seq<Seq<TermV>> {
    v.map_values(|t: Vec<Term>| terms_view(t@))
}

fn ground_instances(sig: &Signature, r: &RelationSymbol) -> (out: Vec<Formula>)
    ensures
        formulas_view(out@) == ground_tuples(sig.constants@, r@.arity).map_values(|t: Seq<TermV>| FormulaV::Atom(r@, t)),
{
    let ghost arity = r@.arity;
    let mut tuples: Vec<Vec<Term>> = Vec::new();
    tuples.push(Vec::new());
    proof {
        assert(arity.take(0) =~= Seq::<Seq<char>>::empty());
        assert(terms_view(Seq::<Term>::empty()) =~= Seq::<TermV>::empty());
        assert(tuples_of_terms(tuples@) =~= ground_tuples(sig.constants@, arity.take(0)));
    }
    let mut k: usize = 0;
    while k < r.arity.len()
        invariant
            k <= r.arity@.len(),
            arity == r@.arity,
            arity.len() == r.arity@.len(),
            tuples_of_terms(tuples@) == ground_tuples(sig.constants@, arity.take(k as int)),
        decreases r.arity.len() - k,
    {
        let cands = constant_terms(&sig.constants, r.arity[k].name.as_str());
        let ghost cv = terms_view(cands@);
        let ghost prev = tuples_of_terms(tuples@);
        let m = cands.len();
        proof {
            assert(arity[k as int] == r.arity@[k as int].name@);
            assert(arity.take(k + 1).drop_last() =~= arity.take(k as int));
            assert(arity.take(k + 1).last() == arity[k as int]);
        }
        let mut next: Vec<Vec<Term>> = Vec::new();
        let mut c: usize = 0;
        while c < tuples.len()
            invariant
                c <= tuples@.len(),
                prev == tuples_of_terms(tuples@),
                cv == terms_view(cands@),
                m == cands@.len(),
                next@.len() == c * m,
                forall|q: int|
                    0 <= q < next@.len() ==> terms_view((#[trigger] next@[q])@) == prev[q / (m as int)].push(
                        cv[q % (m as int)],
                    ),
            decreases tuples.len() - c,
        {
            let mut t: usize = 0;
            while t < m
                invariant
                    c < tuples@.len(),
                    t <= m,
                    prev == tuples_of_terms(tuples@),
                    cv == terms_view(cands@),
                    m == cands@.len(),
                    next@.len() == c * m + t,
                    forall|q: int|
                        0 <= q < next@.len() ==> terms_view((#[trigger] next@[q])@) == prev[q / (m as int)].push(
                            cv[q % (m as int)],
                        ),
                decreases m - t,
            {
                let mut ext = crate::formula::copy_terms(&tuples[c]);
                let ghost e0 = terms_view(ext@);
                ext.push(crate::formula::copy_term(&cands[t]));
                proof {
                    assert(terms_view(ext@) =~= e0.push(cv[t as int]));
                    assert(prev[c as int] == terms_view(tuples@[c as int]@));
                    vstd::arithmetic::div_mod::lemma_fundamental_div_mod_converse(
                        (c * m + t) as int,
                        m as int,
                        c as int,
                        t as int,
                    );
                }
                next.push(ext);
                t = t + 1;
            }
            assert((c + 1) * m == c * m + m) by (nonlinear_arith);
            c = c + 1;
        }
        proof {
            assert(tuples_of_terms(next@) =~= ground_tuples(sig.constants@, arity.take(k + 1)));
        }
        tuples = next;
        k = k + 1;
    }
    assert(arity.take(k as int) =~= arity);
    let ghost tv = tuples_of_terms(tuples@);
    let mut out: Vec<Formula> = Vec::new();
    let mut i: usize = 0;
    while i < tuples.len()
        invariant
            i <= tuples@.len(),
            tv == tuples_of_terms(tuples@),
            formulas_view(out@) == tv.take(i as int).map_values(|t: Seq<TermV>| FormulaV::Atom(r@, t)),
        decreases tuples.len() - i,
    {
        let ghost before = formulas_view(out@);
        out.push(Formula::Atom { relation: r.copy(), args: crate::formula::copy_terms(&tuples[i]) });
        proof {
            assert(formulas_view(out@) =~= before.push(FormulaV::Atom(r@, tv[i as int])));
            assert(tv.take(i + 1).map_values(|t: Seq<TermV>| FormulaV::Atom(r@, t)) =~= tv.take(i as int).map_values(
                |t: Seq<TermV>| FormulaV::Atom(r@, t),
            ).push(FormulaV::Atom(r@, tv[i as int])));
        }
        i = i + 1;
    }
    assert(tv.take(i as int) =~= tv);
    out
}

/// The atoms of the strengthening step: for each relation the fully
/// quantified atom, then its ground instances over the constants.
pub fn enumerate_lattice_atoms(sig: &Signature) -> (r: Vec<Formula>)
    ensures
        formulas_view(r@) == lattice_atoms(sig.constants@, sig.relations@),
{
    let mut out: Vec<Formula> = Vec::new();
    let mut i: usize = 0;
    assert(sig.relations@.take(0) =~= Seq::<RelationSymbol>::empty());
    while i < sig.relations.len()
        invariant
            i <= sig.relations@.len(),
            formulas_view(out@) == lattice_atoms(sig.constants@, sig.relations@.take(i as int)),
        decreases sig.relations.len() - i,
    {
        let r = &sig.relations[i];
        let ghost before = formulas_view(out@);
        out.push(fully_quantified_atom(r));
        let grounds = ground_instances(sig, r);
        let ghost mid = formulas_view(out@);
        let mut j: usize = 0;
        while j < grounds.len()
            invariant
                j <= grounds@.len(),
                formulas_view(out@) == mid + formulas_view(grounds@).take(j as int),
            decreases grounds.len() - j,
        {
            let ghost b2 = formulas_view(out@);
            out.push(copy_formula(&grounds[j]));
            assert(formulas_view(out@) =~= b2.push(grounds@[j as int]@));
            assert(formulas_view(grounds@).take(j + 1) =~= formulas_view(grounds@).take(j as int).push(grounds@[j as int]@));
            j = j + 1;
        }
        proof {
            assert(formulas_view(grounds@).take(j as int) =~= formulas_view(grounds@));
            assert(mid =~= before.push(fully_quantified(r@)));
            assert(sig.relations@.take(i + 1).drop_last() =~= sig.relations@.take(i as int));
            assert(sig.relations@.take(i + 1).last() == *r);
            assert(formulas_view(out@) =~= before + relation_lattice_atoms(sig.constants@, *r));
        }
        i = i + 1;
    }
    assert(sig.relations@.take(i as int) =~= sig.relations@);
    out
}

/// Axiom views of a list of elements.
pub open spec fn element_views(v: Seq<SpecElement>) -> Seq<Seq<FormulaV>> {
    v.map_values(|e: SpecElement| e.axiom_views())
}

/// The strengthenings of `s` by the atoms it does not entail, in order.
pub open spec fn lattice_strengthenings<C: EntailmentChecker>(
    checker: &C,
    s: Seq<FormulaV>,
    atoms: Seq<FormulaV>,
) -> Seq<Seq<FormulaV>>
    decreases atoms.len(),
{
    if atoms.len() == 0 {
        seq![]
    } else {
        let prev = lattice_strengthenings(checker, s, atoms.drop_last());
        let p = atoms.last();
        if !checker.entails_spec(s, seq![p]) {
            prev.push(normalize_all(s.push(p)))
        } else {
            prev
        }
    }
}

fn without_index(axioms: &Vec<Formula>, i: usize) -> (r: Vec<Formula>)
    requires
        i < axioms@.len(),
    ensures
        formulas_view(r@) == formulas_view(axioms@).remove(i as int),
{
    let ghost fv = formulas_view(axioms@);
    let mut out: Vec<Formula> = Vec::new();
    let mut j: usize = 0;
    while j < axioms.len()
        invariant
            fv == formulas_view(axioms@),
            i < axioms@.len(),
            j <= axioms@.len(),
            formulas_view(out@) == (if j <= i { fv.subrange(0, j as int) } else { fv.subrange(0, j as int).remove(
                i as int,
            ) }),
        decreases axioms.len() - j,
    {
        let ghost before = formulas_view(out@);
        if j != i {
            out.push(copy_formula(&axioms[j]));
            assert(formulas_view(out@) =~= before.push(fv[j as int]));
        }
        proof {
            if j < i {
                assert(fv.subrange(0, j + 1) =~= fv.subrange(0, j as int).push(fv[j as int]));
            } else if j == i {
                assert(fv.subrange(0, j + 1).remove(i as int) =~= fv.subrange(0, j as int));
            } else {
                assert(fv.subrange(0, j + 1).remove(i as int) =~= fv.subrange(0, j as int).remove(i as int).push(
                    fv[j as int],
                ));
            }
        }
        j = j + 1;
    }
    assert(fv.subrange(0, j as int) =~= fv);
    out
}

impl SpecElement {
    /// The elements obtained by dropping one axiom, in axiom order.
    pub fn weakenings(&self) -> (r: Vec<SpecElement>)
        ensures
            r@.len() == self.axioms@.len(),
            forall|k: int| 0 <= k < r@.len() ==> (#[trigger] r@[k]).wf(),
            forall|k: int|
                0 <= k < r@.len() ==> (#[trigger] r@[k]).axiom_views() == normalize_all(self.axiom_views().remove(k)),
    {
        let mut out: Vec<SpecElement> = Vec::new();
        let mut i: usize = 0;
        while i < self.axioms.len()
            invariant
                i <= self.axioms@.len(),
                out@.len() == i,
                forall|k: int| 0 <= k < i ==> (#[trigger] out@[k]).wf(),
                forall|k: int|
                    0 <= k < i ==> (#[trigger] out@[k]).axiom_views() == normalize_all(self.axiom_views().remove(k)),
            decreases self.axioms.len() - i,
        {
            out.push(SpecElement::new(without_index(&self.axioms, i)));
            i = i + 1;
        }
        out
    }
}

/// The strengthenings of `center` by the lattice atoms of `signature` that
/// `center` does not entail, in atom order.
pub fn strengthening_candidates<C: EntailmentChecker>(
    signature: &Signature,
    center: &SpecElement,
    checker: &C,
) -> (r: Vec<SpecElement>)
    requires
        checker.accepts(center.axiom_views()),
        forall|k: int|
            0 <= k < lattice_atoms(signature.constants@, signature.relations@).len() ==> checker.accepts(
                seq![#[trigger] lattice_atoms(signature.constants@, signature.relations@)[k]],
            ),
    ensures
        forall|k: int| 0 <= k < r@.len() ==> (#[trigger] r@[k]).wf(),
        element_views(r@) == lattice_strengthenings(
            checker,
            center.axiom_views(),
            lattice_atoms(signature.constants@, signature.relations@),
        ),
{
    let atoms = enumerate_lattice_atoms(signature);
    let ghost av = formulas_view(atoms@);
    let ghost cv = center.axiom_views();
    let mut out: Vec<SpecElement> = Vec::new();
    let mut i: usize = 0;
    assert(av.take(0) =~= Seq::<FormulaV>::empty());
    while i < atoms.len()
        invariant
            i <= atoms@.len(),
            av == formulas_view(atoms@),
            av == lattice_atoms(signature.constants@, signature.relations@),
            cv == center.axiom_views(),
            checker.accepts(cv),
            forall|k: int| 0 <= k < av.len() ==> checker.accepts(seq![#[trigger] av[k]]),
            forall|k: int| 0 <= k < out@.len() ==> (#[trigger] out@[k]).wf(),
            element_views(out@) == lattice_strengthenings(checker, cv, av.take(i as int)),
        decreases atoms.len() - i,
    {
        let p = &atoms[i];
        proof {
            assert(av.take(i + 1).drop_last() =~= av.take(i as int));
            assert(av.take(i + 1).last() == p@);
            assert(av[i as int] == p@);
        }
        let mut single: Vec<Formula> = Vec::new();
        single.push(copy_formula(p));
        assert(formulas_view(single@) =~= seq![p@]);
        if !checker.entails(center.axioms.as_slice(), single.as_slice()) {
            let mut next = copy_formulas(&center.axioms);
            let ghost n0 = formulas_view(next@);
            next.push(copy_formula(p));
            assert(formulas_view(next@) =~= n0.push(p@));
            let ghost before = element_views(out@);
            out.push(SpecElement::new(next));
            assert(element_views(out@) =~= before.push(normalize_all(cv.push(p@))));
        }
        i = i + 1;
    }
    assert(av.take(i as int) =~= av);
    out
}

} // verus!
