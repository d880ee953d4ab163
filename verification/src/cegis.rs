//! Counterexample-guided tightness evaluation.
//!
//! Mutants are visited in a given order (nearest first); each visited
//! mutant is checked against the implementations, and a kill prunes the
//! still-unchecked mutants that are lattice-comparable in the direction of
//! the kill: a lost-acceptance kill (the implementation satisfies the spec
//! but not the mutant) also kills every stronger mutant, a new-acceptance
//! kill every weaker one.  When the lattice agrees with the
//! implementations, the verdicts are those of the exhaustive evaluation.
use vstd::prelude::*;
use crate::formula::FormulaV;
use crate::lattice::{has_key, SpecElement, SpecLattice};
use crate::metric::{all_evaluable, JaccardMetric};
use crate::model::{same_structure, FiniteModel};
use crate::tightness::{distinguishes, exhaustive_status, MutantStatus, TightnessCounts, TightnessEvaluator};

verus! {

broadcast use vstd::std_specs::vec::group_vec_axioms;

/// State of the CEGIS loop, returned for diagnostics.
#[derive(Debug)]
pub struct CegisState {
    /// Mutants not yet visited; empty after a run.
    pub unchecked: Vec<usize>,
    /// Killed mutants with the implementation that killed them, by mutant
    /// index.
    pub killed: Vec<(usize, usize)>,
    /// Mutants no implementation distinguishes, in increasing order.
    pub alive: Vec<usize>,
    /// Implementations that produced kills, in discovery order.
    pub counterexamples: Vec<FiniteModel>,
    /// Number of loop iterations executed.
    pub iterations: usize,
    /// Number of mutants killed by pruning rather than direct checking.
    pub pruned: usize,
}

/// CEGIS evaluator over a lattice and a metric.
pub struct CegisEvaluator {
    lattice: SpecLattice,
    metric: JaccardMetric,
}

/// Whenever the lattice orders two elements whose keys are those of two
/// mutants, every implementation satisfying the stronger mutant satisfies
/// the weaker one.
pub open spec fn pruning_sound(lat: SpecLattice, impls: Seq<FiniteModel>, ms: Seq<SpecElement>) -> bool {
    forall|j: int, i2: int, a: int, b: int|
        0 <= j < ms.len() && 0 <= i2 < ms.len() && 0 <= a < lat.size() && 0 <= b < lat.size() && (
        #[trigger] lat.elements_spec()[a]).key() == (#[trigger] ms[j]).key() && (
        #[trigger] lat.elements_spec()[b]).key() == (#[trigger] ms[i2]).key() && lat.order_spec()[a][b]
            ==> forall|k: int|
            0 <= k < impls.len() ==> (#[trigger] impls[k]).models(ms[i2].axiom_views()) ==> impls[k].models(
                ms[j].axiom_views(),
            )
}

/// Number of entries that are true.
pub open spec fn count_true(s: Seq<bool>) -> nat
    decreases s.len(),
{
    if s.len() == 0 {
        0
    } else {
        count_true(s.drop_last()) + if s.last() { 1nat } else { 0nat }
    }
}

proof fn lemma_count_true_bound(s: Seq<bool>)
    ensures
        count_true(s) <= s.len(),
    decreases s.len(),
{
    if s.len() > 0 {
        lemma_count_true_bound(s.drop_last());
    }
}

proof fn lemma_count_true_clear(s: Seq<bool>, i: int)
    requires
        0 <= i < s.len(),
        s[i],
    ensures
        count_true(s.update(i, false)) + 1 == count_true(s),
    decreases s.len(),
{
    let t = s.update(i, false);
    if i == s.len() - 1 {
        assert(t.drop_last() =~= s.drop_last());
    } else {
        lemma_count_true_clear(s.drop_last(), i);
        assert(t.drop_last() =~= s.drop_last().update(i, false));
    }
}

/// The bookkeeping of mutant `m`: `verdict[m]` is the killer and
/// direction of a killed mutant, `alive[m]` marks a mutant proved alive.
pub open spec fn verdict_ok_at(
    pending: Seq<bool>,
    verdict: Seq<Option<(usize, bool)>>,
    alive: Seq<bool>,
    impls: Seq<FiniteModel>,
    s: Seq<FormulaV>,
    ms: Seq<SpecElement>,
    sound: bool,
    m: int,
) -> bool {
    &&& alive[m] ==> forall|k: int| 0 <= k < impls.len() ==> !distinguishes(#[trigger] impls[k], s, ms[m].axiom_views())
    &&& verdict[m] matches Some(v) ==> {
        &&& v.0 < impls.len()
        &&& sound ==> distinguishes(impls[v.0 as int], s, ms[m].axiom_views()) && impls[v.0 as int].models(s) == v.1
    }
    &&& !(pending[m] && alive[m])
    &&& !(pending[m] && verdict[m] is Some)
    &&& !(alive[m] && verdict[m] is Some)
}

/// The status bookkeeping of a run, for every mutant.
pub open spec fn verdicts_ok(
    pending: Seq<bool>,
    verdict: Seq<Option<(usize, bool)>>,
    alive: Seq<bool>,
    impls: Seq<FiniteModel>,
    s: Seq<FormulaV>,
    ms: Seq<SpecElement>,
    sound: bool,
) -> bool {
    &&& pending.len() == ms.len()
    &&& verdict.len() == ms.len()
    &&& alive.len() == ms.len()
    &&& forall|m: int| 0 <= m < ms.len() ==> #[trigger] verdict_ok_at(pending, verdict, alive, impls, s, ms, sound, m)
}

impl CegisEvaluator {
    /// An evaluator over `lattice` and `metric`.
    pub fn new(lattice: SpecLattice, metric: JaccardMetric) -> (r: Self)
        ensures
            r.lattice_spec() == lattice,
            r.metric_spec() == metric,
    {
        CegisEvaluator { lattice, metric }
    }

    /// The lattice.
    pub closed spec fn lattice_spec(&self) -> SpecLattice {
        self.lattice
    }

    /// The metric.
    pub closed spec fn metric_spec(&self) -> JaccardMetric {
        self.metric
    }
}

/// Mutant `m` lies, in the lattice, above (`direction`) or below (not
/// `direction`) the element of mutant `killed`: both have elements with
/// their keys, and those elements are ordered so.
pub open spec fn prunable(lat: SpecLattice, ms: Seq<SpecElement>, killed: int, m: int, direction: bool) -> bool {
    exists|a: int, b: int|
        0 <= a < lat.size() && 0 <= b < lat.size() && (#[trigger] lat.elements_spec()[a]).key() == ms[killed].key()
            && (#[trigger] lat.elements_spec()[b]).key() == ms[m].key() && (if direction {
            lat.order_spec()[a][b]
        } else {
            lat.order_spec()[b][a]
        })
}

/// In a well-formed lattice no two elements share a key.
proof fn lemma_key_index_unique(lat: SpecLattice, a: int, b: int)
    requires
        lat.wf(),
        0 <= a < lat.size(),
        0 <= b < lat.size(),
        lat.elements_spec()[a].key() == lat.elements_spec()[b].key(),
    ensures
        a == b,
{
    let ka = lat.elements_spec()[a].key();
    crate::serial::lemma_bytes_order_facts(ka, ka);
    if a < b {
        assert(crate::serial::bytes_order(lat.elements_spec()[a].key(), lat.elements_spec()[b].key()) < 0);
    } else if b < a {
        assert(crate::serial::bytes_order(lat.elements_spec()[b].key(), lat.elements_spec()[a].key()) < 0);
    }
}

impl CegisEvaluator {
    /// Kill, by `impl_idx` in direction `direction`, every pending mutant
    /// lattice-comparable to `killed_idx` in that direction.  Returns the
    /// number pruned.
    fn prune(
        &self,
        killed_idx: usize,
        impl_idx: usize,
        direction: bool,
        mutant_specs: &[SpecElement],
        pending: &mut Vec<bool>,
        verdict: &mut Vec<Option<(usize, bool)>>,
        Ghost(alive): Ghost<Seq<bool>>,
        Ghost(impls): Ghost<Seq<FiniteModel>>,
        Ghost(s): Ghost<Seq<FormulaV>>,
    ) -> (r: usize)
        requires
            self.lattice_spec().wf(),
            killed_idx < mutant_specs@.len(),
            impl_idx < impls.len(),
            distinguishes(impls[impl_idx as int], s, mutant_specs@[killed_idx as int].axiom_views()),
            impls[impl_idx as int].models(s) == direction,
            verdicts_ok(old(pending)@, old(verdict)@, alive, impls, s, mutant_specs@, pruning_sound(
                self.lattice_spec(),
                impls,
                mutant_specs@,
            )),
        ensures
            verdicts_ok(final(pending)@, final(verdict)@, alive, impls, s, mutant_specs@, pruning_sound(
                self.lattice_spec(),
                impls,
                mutant_specs@,
            )),
            r + count_true(final(pending)@) == count_true(old(pending)@),
            forall|m: int| 0 <= m < mutant_specs@.len() ==> (!old(pending)@[m] ==> final(pending)@[m] == old(pending)@[m] && final(verdict)@[m] == old(verdict)@[m]),
            forall|m: int| 0 <= m < mutant_specs@.len() ==> (old(pending)@[m] ==> (final(pending)@[m] || final(verdict)@[m] is Some)),
            forall|m: int|
                0 <= m < mutant_specs@.len() ==> #[trigger] final(pending)@[m] == (old(pending)@[m] && !prunable(
                    self.lattice_spec(),
                    mutant_specs@,
                    killed_idx as int,
                    m,
                    direction,
                )),
            forall|m: int|
                0 <= m < mutant_specs@.len() ==> #[trigger] final(verdict)@[m] == (if old(pending)@[m] && prunable(
                    self.lattice_spec(),
                    mutant_specs@,
                    killed_idx as int,
                    m,
                    direction,
                ) {
                    Some((impl_idx, direction))
                } else {
                    old(verdict)@[m]
                }),
    {
        let ghost sound = pruning_sound(self.lattice_spec(), impls, mutant_specs@);
        let kl = match self.lattice.find_element(&mutant_specs[killed_idx]) {
            Some(i) => i,
            None => {
                proof {
                    assert forall|q: int| 0 <= q < mutant_specs@.len() implies !prunable(
                        self.lattice_spec(),
                        mutant_specs@,
                        killed_idx as int,
                        q,
                        direction,
                    ) by {
                        if prunable(self.lattice_spec(), mutant_specs@, killed_idx as int, q, direction) {
                            let (a, b) = choose|a: int, b: int|
                                0 <= a < self.lattice_spec().size() && 0 <= b < self.lattice_spec().size()
                                    && (#[trigger] self.lattice_spec().elements_spec()[a]).key()
                                    == mutant_specs@[killed_idx as int].key()
                                    && (#[trigger] self.lattice_spec().elements_spec()[b]).key() == mutant_specs@[q].key()
                                    && (if direction {
                                    self.lattice_spec().order_spec()[a][b]
                                } else {
                                    self.lattice_spec().order_spec()[b][a]
                                });
                            assert(has_key(self.lattice_spec().elements_spec(), mutant_specs@[killed_idx as int].key()));
                        }
                    }
                }
                return 0;
            },
        };
        let mut count: usize = 0;
        let mut m: usize = 0;
        let ghost p0 = pending@;
        let ghost v0 = verdict@;
        proof {
            lemma_count_true_bound(pending@);
        }
        while m < mutant_specs.len()
            invariant
                self.lattice_spec().wf(),
                kl < self.lattice_spec().size(),
                self.lattice_spec().elements_spec()[kl as int].key() == mutant_specs@[killed_idx as int].key(),
                killed_idx < mutant_specs@.len(),
                impl_idx < impls.len(),
                distinguishes(impls[impl_idx as int], s, mutant_specs@[killed_idx as int].axiom_views()),
                impls[impl_idx as int].models(s) == direction,
                sound == pruning_sound(self.lattice_spec(), impls, mutant_specs@),
                m <= mutant_specs@.len(),
                verdicts_ok(pending@, verdict@, alive, impls, s, mutant_specs@, sound),
                count + count_true(pending@) == count_true(p0),
                count_true(p0) <= p0.len(),
                p0.len() == mutant_specs@.len(),
                v0.len() == mutant_specs@.len(),
                forall|q: int| 0 <= q < mutant_specs@.len() ==> (!p0[q] ==> pending@[q] == p0[q] && verdict@[q] == v0[q]),
                forall|q: int| 0 <= q < mutant_specs@.len() ==> (p0[q] ==> (pending@[q] || verdict@[q] is Some)),
                forall|q: int| m <= q < mutant_specs@.len() ==> pending@[q] == p0[q] && verdict@[q] == v0[q],
                forall|q: int|
                    0 <= q < m ==> #[trigger] pending@[q] == (p0[q] && !prunable(
                        self.lattice_spec(),
                        mutant_specs@,
                        killed_idx as int,
                        q,
                        direction,
                    )),
                forall|q: int|
                    0 <= q < m ==> #[trigger] verdict@[q] == (if p0[q] && prunable(
                        self.lattice_spec(),
                        mutant_specs@,
                        killed_idx as int,
                        q,
                        direction,
                    ) {
                        Some((impl_idx, direction))
                    } else {
                        v0[q]
                    }),
            decreases mutant_specs.len() - m,
        {
            if pending[m] {
                match self.lattice.find_element(&mutant_specs[m]) {
                    Some(other) => {
                        let hit = if direction {
                            self.lattice.leq(kl, other)
                        } else {
                            self.lattice.leq(other, kl)
                        };
                        if hit {
                            proof {
                                let ms = mutant_specs@;
                                if sound {
                                    let lat = self.lattice_spec();
                                    if direction {
                                        assert(lat.elements_spec()[kl as int].key() == ms[killed_idx as int].key());
                                        assert(lat.elements_spec()[other as int].key() == ms[m as int].key());
                                        assert(lat.order_spec()[kl as int][other as int]);
                                        assert(impls[impl_idx as int].models(ms[m as int].axiom_views())
                                            ==> impls[impl_idx as int].models(ms[killed_idx as int].axiom_views()));
                                    } else {
                                        assert(lat.elements_spec()[other as int].key() == ms[m as int].key());
                                        assert(lat.elements_spec()[kl as int].key() == ms[killed_idx as int].key());
                                        assert(lat.order_spec()[other as int][kl as int]);
                                        assert(impls[impl_idx as int].models(ms[killed_idx as int].axiom_views())
                                            ==> impls[impl_idx as int].models(ms[m as int].axiom_views()));
                                    }
                                }
                                lemma_count_true_clear(pending@, m as int);
                            }
                            let ghost pb = pending@;
                            let ghost vb = verdict@;
                            pending.set(m, false);
                            verdict.set(m, Some((impl_idx, direction)));
                            count = count + 1;
                            proof {
                                let lat = self.lattice_spec();
                                assert(lat.elements_spec()[kl as int].key() == mutant_specs@[killed_idx as int].key());
                                assert(lat.elements_spec()[other as int].key() == mutant_specs@[m as int].key());
                                assert(prunable(lat, mutant_specs@, killed_idx as int, m as int, direction));
                            }
                            proof {
                                let ms = mutant_specs@;
                                if sound {
                                    assert(distinguishes(impls[impl_idx as int], s, ms[m as int].axiom_views()));
                                }
                                assert(verdict_ok_at(pb, vb, alive, impls, s, ms, sound, m as int));
                                assert forall|q: int| 0 <= q < ms.len() implies #[trigger] verdict_ok_at(pending@, verdict@, alive, impls, s, ms, sound, q) by {
                                    assert(verdict_ok_at(pb, vb, alive, impls, s, ms, sound, q));
                                    if q != m {
                                        assert(pending@[q] == pb[q] && verdict@[q] == vb[q]);
                                    }
                                }
                            }
                        } else {
                            proof {
                                let lat = self.lattice_spec();
                                let ms = mutant_specs@;
                                if prunable(lat, ms, killed_idx as int, m as int, direction) {
                                    let (a, b) = choose|a: int, b: int|
                                        0 <= a < lat.size() && 0 <= b < lat.size() && (#[trigger] lat.elements_spec()[a]).key()
                                            == ms[killed_idx as int].key() && (#[trigger] lat.elements_spec()[b]).key()
                                            == ms[m as int].key() && (if direction {
                                            lat.order_spec()[a][b]
                                        } else {
                                            lat.order_spec()[b][a]
                                        });
                                    lemma_key_index_unique(lat, a, kl as int);
                                    lemma_key_index_unique(lat, b, other as int);
                                }
                            }
                        }
                    },
                    None => {
                        proof {
                            let lat = self.lattice_spec();
                            let ms = mutant_specs@;
                            if prunable(lat, ms, killed_idx as int, m as int, direction) {
                                let (a, b) = choose|a: int, b: int|
                                    0 <= a < lat.size() && 0 <= b < lat.size() && (#[trigger] lat.elements_spec()[a]).key()
                                        == ms[killed_idx as int].key() && (#[trigger] lat.elements_spec()[b]).key()
                                        == ms[m as int].key() && (if direction {
                                        lat.order_spec()[a][b]
                                    } else {
                                        lat.order_spec()[b][a]
                                    });
                                assert(has_key(lat.elements_spec(), ms[m as int].key()));
                            }
                        }
                    },
                }
            }
            m = m + 1;
        }
        count
    }
}

proof fn lemma_count_true_none(s: Seq<bool>)
    requires
        forall|i: int| 0 <= i < s.len() ==> !#[trigger] s[i],
    ensures
        count_true(s) == 0,
    decreases s.len(),
{
    if s.len() > 0 {
        lemma_count_true_none(s.drop_last());
    }
}

proof fn lemma_count_true_step(s: Seq<bool>, m: int)
    requires
        0 <= m < s.len(),
    ensures
        count_true(s.take(m + 1)) == count_true(s.take(m)) + if s[m] { 1nat } else { 0nat },
{
    assert(s.take(m + 1).drop_last() =~= s.take(m));
}

/// `c` has the structure of one of `impls`.
pub open spec fn copy_of_one(c: FiniteModel, impls: Seq<FiniteModel>) -> bool {
    exists|k: int| 0 <= k < impls.len() && same_structure(c, #[trigger] impls[k])
}

/// `marks[m]` iff `m` occurs in the neighborhood.
pub open spec fn hood_marks(neighborhood: Seq<usize>, n: nat) -> Seq<bool> {
    Seq::new(n, |m: int| neighborhood.contains(m as usize))
}

/// What the run reports for the mutant with axioms `t` at neighborhood
/// index `idx`: a mutant reported alive is distinguished by no
/// implementation; a mutant reported killed names one implementation, which
/// distinguishes it whenever the lattice agrees with the implementations.
pub open spec fn cegis_status(
    st: MutantStatus,
    idx: usize,
    impls: Seq<FiniteModel>,
    s: Seq<FormulaV>,
    t: Seq<FormulaV>,
    sound: bool,
) -> bool {
    &&& st.mutant_index == idx
    &&& st.witness is None
    &&& st.killed ==> {
        &&& st.killing_implementations@.len() == 1
        &&& st.killing_implementations@[0] < impls.len()
        &&& st.direction is Some
        &&& sound ==> distinguishes(impls[st.killing_implementations@[0] as int], s, t)
            && st.direction == Some(impls[st.killing_implementations@[0] as int].models(s))
    }
    &&& !st.killed ==> {
        &&& st.killing_implementations@.len() == 0
        &&& st.direction is None
        &&& forall|k: int| 0 <= k < impls.len() ==> !distinguishes(#[trigger] impls[k], s, t)
    }
}

/// A list strictly increasing by the key `f`.
pub open spec fn increasing_usize(v: Seq<usize>) -> bool {
    forall|i: int, j: int| 0 <= i < j < v.len() ==> v[i] < v[j]
}

/// Pairs strictly increasing by their first component.
pub open spec fn increasing_keys(v: Seq<(usize, usize)>) -> bool {
    forall|i: int, j: int| 0 <= i < j < v.len() ==> v[i].0 < v[j].0
}

fn marks_of(neighborhood: &[usize], n: usize) -> (r: Vec<bool>)
    ensures
        r@ == hood_marks(neighborhood@, n as nat),
{
    let mut out: Vec<bool> = Vec::new();
    let mut m: usize = 0;
    while m < n
        invariant
            m <= n,
            out@.len() == m,
            forall|q: int| 0 <= q < m ==> out@[q] == neighborhood@.contains(q as usize),
        decreases n - m,
    {
        let mut found = false;
        let mut i: usize = 0;
        while i < neighborhood.len()
            invariant
                i <= neighborhood@.len(),
                found <==> exists|j: int| 0 <= j < i && #[trigger] neighborhood@[j] == m,
            decreases neighborhood.len() - i,
        {
            if neighborhood[i] == m {
                found = true;
            }
            i = i + 1;
        }
        proof {
            if found {
                let j = choose|j: int| 0 <= j < i && #[trigger] neighborhood@[j] == m;
                assert(neighborhood@.contains(m));
            }
        }
        out.push(found);
        m = m + 1;
    }
    assert(out@ =~= hood_marks(neighborhood@, n as nat));
    out
}

/// The per-mutant statuses of a finished run.
fn statuses_of(
    neighborhood: &[usize],
    verdict: &Vec<Option<(usize, bool)>>,
    Ghost(alive): Ghost<Seq<bool>>,
    Ghost(pending): Ghost<Seq<bool>>,
    Ghost(p0): Ghost<Seq<bool>>,
    Ghost(impls): Ghost<Seq<FiniteModel>>,
    Ghost(s): Ghost<Seq<FormulaV>>,
    Ghost(ms): Ghost<Seq<SpecElement>>,
    Ghost(sound): Ghost<bool>,
) -> (r: TightnessCounts)
    requires
        verdicts_ok(pending, verdict@, alive, impls, s, ms, sound),
        p0 == hood_marks(neighborhood@, ms.len()),
        forall|i: int| 0 <= i < neighborhood@.len() ==> #[trigger] neighborhood@[i] < ms.len(),
        forall|q: int| 0 <= q < ms.len() ==> !#[trigger] pending[q],
        forall|q: int| 0 <= q < ms.len() ==> (p0[q] ==> pending[q] || verdict@[q] is Some || alive[q]),
    ensures
        r.neighborhood_size == neighborhood@.len(),
        r.mutant_statuses@.len() == neighborhood@.len(),
        forall|i: int|
            0 <= i < neighborhood@.len() ==> cegis_status(
                #[trigger] r.mutant_statuses@[i],
                neighborhood@[i],
                impls,
                s,
                ms[neighborhood@[i] as int].axiom_views(),
                sound,
            ),
        forall|i: int|
            0 <= i < neighborhood@.len() ==> {
                &&& (#[trigger] r.mutant_statuses@[i]).killed ==> verdict@[neighborhood@[i] as int] == Some(
                    (r.mutant_statuses@[i].killing_implementations@[0], r.mutant_statuses@[i].direction->0),
                )
                &&& !r.mutant_statuses@[i].killed ==> alive[neighborhood@[i] as int]
            },
        r.killed_count == r.mutant_statuses@.filter(|st: MutantStatus| st.killed).len(),
        r.killed_count + r.alive_count == r.neighborhood_size,
{
    let mut statuses: Vec<MutantStatus> = Vec::new();
    let mut killed: usize = 0;
    let mut i: usize = 0;
    while i < neighborhood.len()
        invariant
            i <= neighborhood@.len(),
            verdicts_ok(pending, verdict@, alive, impls, s, ms, sound),
            p0 == hood_marks(neighborhood@, ms.len()),
            forall|q: int| 0 <= q < neighborhood@.len() ==> #[trigger] neighborhood@[q] < ms.len(),
            forall|q: int| 0 <= q < ms.len() ==> !#[trigger] pending[q],
            forall|q: int| 0 <= q < ms.len() ==> (p0[q] ==> pending[q] || verdict@[q] is Some || alive[q]),
            statuses@.len() == i,
            forall|q: int|
                0 <= q < i ==> cegis_status(
                    #[trigger] statuses@[q],
                    neighborhood@[q],
                    impls,
                    s,
                    ms[neighborhood@[q] as int].axiom_views(),
                    sound,
                ),
            forall|q: int|
                0 <= q < i ==> {
                    &&& (#[trigger] statuses@[q]).killed ==> verdict@[neighborhood@[q] as int] == Some(
                        (statuses@[q].killing_implementations@[0], statuses@[q].direction->0),
                    )
                    &&& !statuses@[q].killed ==> alive[neighborhood@[q] as int]
                },
            killed == statuses@.filter(|st: MutantStatus| st.killed).len(),
            killed <= i,
        decreases neighborhood.len() - i,
    {
        let idx = neighborhood[i];
        proof {
            assert(neighborhood@.contains(idx));
            assert(p0[idx as int]);
            assert(verdict_ok_at(pending, verdict@, alive, impls, s, ms, sound, idx as int));
        }
        let st = match verdict[idx] {
            Some((k, d)) => {
                let mut killers: Vec<usize> = Vec::new();
                killers.push(k);
                MutantStatus {
                    mutant_index: idx,
                    killed: true,
                    killing_implementations: killers,
                    direction: Some(d),
                    witness: None,
                }
            },
            None => MutantStatus {
                mutant_index: idx,
                killed: false,
                killing_implementations: Vec::new(),
                direction: None,
                witness: None,
            },
        };
        let kd = st.killed;
        let ghost before = statuses@;
        statuses.push(st);
        proof {
            reveal(Seq::filter);
            assert(statuses@.drop_last() =~= before);
        }
        if kd {
            killed = killed + 1;
        }
        i = i + 1;
    }
    TightnessCounts {
        neighborhood_size: neighborhood.len(),
        killed_count: killed,
        alive_count: neighborhood.len() - killed,
        mutant_statuses: statuses,
    }
}

/// The killed and alive lists of a finished run, by increasing mutant
/// index.
fn collect_verdicts(
    verdict: &Vec<Option<(usize, bool)>>,
    alive: &Vec<bool>,
    Ghost(p0): Ghost<Seq<bool>>,
    Ghost(hood): Ghost<Seq<usize>>,
) -> (r: (Vec<(usize, usize)>, Vec<usize>))
    requires
        alive@.len() == verdict@.len(),
        p0 == hood_marks(hood, verdict@.len() as nat),
        forall|q: int| 0 <= q < verdict@.len() ==> (#[trigger] p0[q] <==> (verdict@[q] is Some || alive@[q])),
        forall|q: int| 0 <= q < verdict@.len() ==> !(#[trigger] alive@[q] && verdict@[q] is Some),
    ensures
        increasing_keys(r.0@),
        increasing_usize(r.1@),
        forall|q: int| 0 <= q < verdict@.len() ==> (#[trigger] verdict@[q] matches Some(v) ==> r.0@.contains((q as usize, v.0))),
        forall|q: int| 0 <= q < verdict@.len() ==> (#[trigger] alive@[q] ==> r.1@.contains(q as usize)),
        forall|j: int| 0 <= j < r.1@.len() ==> hood.contains(#[trigger] r.1@[j]),
        forall|j: int| 0 <= j < r.0@.len() ==> hood.contains((#[trigger] r.0@[j]).0),
        forall|j: int, q: int| 0 <= j < r.0@.len() && 0 <= q < r.1@.len() ==> (#[trigger] r.0@[j]).0 != #[trigger] r.1@[q],
        r.0@.len() + r.1@.len() == count_true(p0),
{
    let mut kl: Vec<(usize, usize)> = Vec::new();
    let mut al: Vec<usize> = Vec::new();
    let mut m: usize = 0;
    while m < verdict.len()
        invariant
            m <= verdict@.len(),
            alive@.len() == verdict@.len(),
            p0 == hood_marks(hood, verdict@.len() as nat),
            forall|q: int| 0 <= q < verdict@.len() ==> (#[trigger] p0[q] <==> (verdict@[q] is Some || alive@[q])),
            forall|q: int| 0 <= q < verdict@.len() ==> !(#[trigger] alive@[q] && verdict@[q] is Some),
            forall|j: int| 0 <= j < kl@.len() ==> (#[trigger] kl@[j]).0 < m && verdict@[kl@[j].0 as int] is Some,
            forall|j: int| 0 <= j < al@.len() ==> #[trigger] al@[j] < m && alive@[al@[j] as int],
            increasing_keys(kl@),
            increasing_usize(al@),
            forall|q: int| 0 <= q < m ==> (#[trigger] verdict@[q] matches Some(v) ==> kl@.contains((q as usize, v.0))),
            forall|q: int| 0 <= q < m ==> (#[trigger] alive@[q] ==> al@.contains(q as usize)),
            kl@.len() + al@.len() == count_true(p0.take(m as int)),
        decreases verdict.len() - m,
    {
        proof {
            lemma_count_true_step(p0, m as int);
        }
        match verdict[m] {
            Some((k, _)) => {
                let ghost kb = kl@;
                kl.push((m, k));
                proof {
                    assert(kl@[kb.len() as int] == (m, k));
                    assert forall|q: int| 0 <= q < m + 1 implies (#[trigger] verdict@[q] matches Some(v) ==> kl@.contains((q as usize, v.0))) by {
                        if q < m {
                            if let Some(v) = verdict@[q] {
                                assert(kb.contains((q as usize, v.0)));
                                let w = choose|w: int| 0 <= w < kb.len() && kb[w] == (q as usize, v.0);
                                assert(kl@[w] == kb[w]);
                            }
                        }
                    }
                }
            },
            None => {
                if alive[m] {
                    let ghost ab = al@;
                    al.push(m);
                    proof {
                        assert(al@[ab.len() as int] == m);
                        assert forall|q: int| 0 <= q < m + 1 implies (#[trigger] alive@[q] ==> al@.contains(q as usize)) by {
                            if q < m && alive@[q] {
                                assert(ab.contains(q as usize));
                                let w = choose|w: int| 0 <= w < ab.len() && ab[w] == q as usize;
                                assert(al@[w] == ab[w]);
                            }
                        }
                    }
                }
            },
        }
        m = m + 1;
    }
    proof {
        assert(p0.take(m as int) =~= p0);
        assert forall|j: int| 0 <= j < al@.len() implies hood.contains(#[trigger] al@[j]) by {
            assert(p0[al@[j] as int]);
        }
        assert forall|j: int| 0 <= j < kl@.len() implies hood.contains((#[trigger] kl@[j]).0) by {
            assert(p0[kl@[j].0 as int]);
        }
    }
    (kl, al)
}

fn fresh_verdicts(n: usize) -> (r: Vec<Option<(usize, bool)>>)
    ensures
        r@.len() == n,
        forall|q: int| 0 <= q < n ==> #[trigger] r@[q] is None,
{
    let mut out: Vec<Option<(usize, bool)>> = Vec::new();
    let mut m: usize = 0;
    while m < n
        invariant
            m <= n,
            out@.len() == m,
            forall|q: int| 0 <= q < m ==> #[trigger] out@[q] is None,
        decreases n - m,
    {
        out.push(None);
        m = m + 1;
    }
    out
}

fn fresh_flags(n: usize) -> (r: Vec<bool>)
    ensures
        r@.len() == n,
        forall|q: int| 0 <= q < n ==> !#[trigger] r@[q],
{
    let mut out: Vec<bool> = Vec::new();
    let mut m: usize = 0;
    while m < n
        invariant
            m <= n,
            out@.len() == m,
            forall|q: int| 0 <= q < m ==> !#[trigger] out@[q],
        decreases n - m,
    {
        out.push(false);
        m = m + 1;
    }
    out
}

impl CegisEvaluator {
    /// Run the loop: visit the mutants in `order` (nearest first), skipping
    /// those already decided; check each visited mutant against the
    /// implementations, and prune on a kill.  Every neighborhood mutant is
    /// decided: alive exactly when no implementation distinguishes it, and,
    /// when the lattice agrees with the implementations, killed by an
    /// implementation that distinguishes it in the reported direction.
    pub fn run(
        &self,
        spec: &SpecElement,
        mutant_specs: &[SpecElement],
        neighborhood: &[usize],
        order: &[usize],
        implementations: &[FiniteModel],
    ) -> (r: (TightnessCounts, CegisState))
        requires
            self.lattice_spec().wf(),
            all_evaluable(implementations@, spec.axiom_views()),
            forall|i: int| 0 <= i < neighborhood@.len() ==> #[trigger] neighborhood@[i] < mutant_specs@.len(),
            forall|k: int| 0 <= k < mutant_specs@.len() ==> all_evaluable(implementations@, (#[trigger] mutant_specs@[k]).axiom_views()),
            forall|j: int| 0 <= j < order@.len() ==> #[trigger] order@[j] < mutant_specs@.len(),
            forall|i: int| 0 <= i < neighborhood@.len() ==> order@.contains(#[trigger] neighborhood@[i]),
        ensures
            r.0.neighborhood_size == neighborhood@.len(),
            r.0.mutant_statuses@.len() == neighborhood@.len(),
            forall|i: int|
                0 <= i < neighborhood@.len() ==> cegis_status(
                    #[trigger] r.0.mutant_statuses@[i],
                    neighborhood@[i],
                    implementations@,
                    spec.axiom_views(),
                    mutant_specs@[neighborhood@[i] as int].axiom_views(),
                    pruning_sound(self.lattice_spec(), implementations@, mutant_specs@),
                ),
            r.0.killed_count == r.0.mutant_statuses@.filter(|st: MutantStatus| st.killed).len(),
            r.0.killed_count + r.0.alive_count == r.0.neighborhood_size,
            r.1.unchecked@.len() == 0,
            increasing_usize(r.1.alive@),
            increasing_keys(r.1.killed@),
            forall|i: int|
                0 <= i < neighborhood@.len() ==> {
                    &&& (#[trigger] r.0.mutant_statuses@[i]).killed ==> r.1.killed@.contains(
                        (neighborhood@[i], r.0.mutant_statuses@[i].killing_implementations@[0]),
                    )
                    &&& !r.0.mutant_statuses@[i].killed ==> r.1.alive@.contains(neighborhood@[i])
                },
            forall|j: int| 0 <= j < r.1.alive@.len() ==> neighborhood@.contains(#[trigger] r.1.alive@[j]),
            forall|j: int| 0 <= j < r.1.killed@.len() ==> neighborhood@.contains((#[trigger] r.1.killed@[j]).0),
            forall|j: int, q: int| 0 <= j < r.1.killed@.len() && 0 <= q < r.1.alive@.len()
                ==> (#[trigger] r.1.killed@[j]).0 != #[trigger] r.1.alive@[q],
            r.1.iterations + r.1.pruned == r.1.killed@.len() + r.1.alive@.len(),
            r.1.counterexamples@.len() <= r.1.iterations,
            forall|q: int| 0 <= q < r.1.counterexamples@.len() ==> copy_of_one(#[trigger] r.1.counterexamples@[q], implementations@),
    {
        let ghost impls = implementations@;
        let ghost s = spec.axiom_views();
        let ghost ms = mutant_specs@;
        let ghost sound = pruning_sound(self.lattice_spec(), impls, ms);
        let n = mutant_specs.len();
        let mut pending = marks_of(neighborhood, n);
        let ghost p0 = pending@;
        let mut verdict = fresh_verdicts(n);
        let mut alive = fresh_flags(n);
        proof {
            lemma_count_true_bound(p0);
            assert forall|q: int| 0 <= q < ms.len() implies #[trigger] verdict_ok_at(pending@, verdict@, alive@, impls, s, ms, sound, q) by {
                assert(verdict@[q] is None && !alive@[q]);
            }
            assert forall|q: int| 0 <= q < n implies (!p0[q] ==> !pending@[q] && verdict@[q] is None && !alive@[q]) by {
                assert(verdict@[q] is None && !alive@[q]);
            }
        }
        let mut counterexamples: Vec<FiniteModel> = Vec::new();
        let mut iterations: usize = 0;
        let mut pruned: usize = 0;
        let mut pos: usize = 0;
        while pos < order.len()
            invariant
                self.lattice_spec().wf(),
                impls == implementations@,
                s == spec.axiom_views(),
                ms == mutant_specs@,
                n == ms.len(),
                sound == pruning_sound(self.lattice_spec(), impls, ms),
                all_evaluable(impls, s),
                forall|k: int| 0 <= k < ms.len() ==> all_evaluable(impls, (#[trigger] ms[k]).axiom_views()),
                forall|j: int| 0 <= j < order@.len() ==> #[trigger] order@[j] < ms.len(),
                pos <= order@.len(),
                p0.len() == n,
                count_true(p0) <= n,
                verdicts_ok(pending@, verdict@, alive@, impls, s, ms, sound),
                iterations + pruned + count_true(pending@) == count_true(p0),
                counterexamples@.len() <= iterations,
                forall|q: int| 0 <= q < n ==> (!p0[q] ==> !pending@[q] && verdict@[q] is None && !alive@[q]),
                forall|q: int| 0 <= q < n ==> (p0[q] ==> pending@[q] || verdict@[q] is Some || alive@[q]),
                forall|j: int| 0 <= j < pos ==> !pending@[#[trigger] order@[j] as int],
                forall|q: int| 0 <= q < counterexamples@.len() ==> copy_of_one(#[trigger] counterexamples@[q], impls),
            decreases order.len() - pos,
        {
            let idx = order[pos];
            if pending[idx] {
                proof {
                    lemma_count_true_clear(pending@, idx as int);
                    lemma_count_true_bound(pending@.update(idx as int, false));
                    assert(verdict_ok_at(pending@, verdict@, alive@, impls, s, ms, sound, idx as int));
                }
                let ghost pb = pending@;
                pending.set(idx, false);
                iterations = iterations + 1;
                let st = TightnessEvaluator::evaluate_one(
                    idx,
                    spec.axioms.as_slice(),
                    mutant_specs[idx].axioms.as_slice(),
                    implementations,
                );
                if st.killed {
                    let k = st.killing_implementations[0];
                    let d = match st.direction {
                        Some(x) => x,
                        None => false,
                    };
                    let ghost vb = verdict@;
                    verdict.set(idx, Some((k, d)));
                    proof {
                        assert forall|q: int| 0 <= q < ms.len() implies #[trigger] verdict_ok_at(pending@, verdict@, alive@, impls, s, ms, sound, q) by {
                            assert(verdict_ok_at(pb, vb, alive@, impls, s, ms, sound, q));
                            if q != idx {
                                assert(pending@[q] == pb[q] && verdict@[q] == vb[q]);
                            }
                        }
                    }
                    let c = implementations[k].copy();
                    let ghost cb = counterexamples@;
                    counterexamples.push(c);
                    proof {
                        assert forall|q: int| 0 <= q < counterexamples@.len() implies copy_of_one(#[trigger] counterexamples@[q], impls) by {
                            if q == counterexamples@.len() - 1 {
                                assert(same_structure(counterexamples@[q], impls[k as int]));
                            } else {
                                assert(counterexamples@[q] == cb[q]);
                            }
                        }
                    }
                    let pr = self.prune(
                        idx,
                        k,
                        d,
                        mutant_specs,
                        &mut pending,
                        &mut verdict,
                        Ghost(alive@),
                        Ghost(impls),
                        Ghost(s),
                    );
                    pruned = pruned + pr;
                } else {
                    let ghost ab = alive@;
                    alive.set(idx, true);
                    proof {
                        assert forall|q: int| 0 <= q < ms.len() implies #[trigger] verdict_ok_at(pending@, verdict@, alive@, impls, s, ms, sound, q) by {
                            assert(verdict_ok_at(pb, verdict@, ab, impls, s, ms, sound, q));
                            if q != idx {
                                assert(pending@[q] == pb[q] && alive@[q] == ab[q]);
                            }
                        }
                    }
                }
            }
            pos = pos + 1;
        }
        proof {
            assert forall|q: int| 0 <= q < n implies !#[trigger] pending@[q] by {
                if p0[q] {
                    assert(neighborhood@.contains(q as usize));
                    let i = choose|i: int| 0 <= i < neighborhood@.len() && neighborhood@[i] == q as usize;
                    assert(order@.contains(neighborhood@[i]));
                    let j = choose|j: int| 0 <= j < order@.len() && order@[j] == neighborhood@[i];
                    assert(!pending@[order@[j] as int]);
                }
            }
            lemma_count_true_none(pending@);
            assert forall|q: int| 0 <= q < verdict@.len() implies !(#[trigger] alive@[q] && verdict@[q] is Some) by {
                assert(verdict_ok_at(pending@, verdict@, alive@, impls, s, ms, sound, q));
            }
            assert forall|q: int| 0 <= q < verdict@.len() implies (#[trigger] p0[q] <==> (verdict@[q] is Some || alive@[q])) by {
                assert(!pending@[q]);
            }
        }
        let counts = statuses_of(neighborhood, &verdict, Ghost(alive@), Ghost(pending@), Ghost(p0), Ghost(impls), Ghost(s), Ghost(ms), Ghost(sound));
        let (killed_list, alive_list) = collect_verdicts(&verdict, &alive, Ghost(p0), Ghost(neighborhood@));
        let state = CegisState {
            unchecked: Vec::new(),
            killed: killed_list,
            alive: alive_list,
            counterexamples,
            iterations,
            pruned,
        };
        (counts, state)
    }
}

/// When the lattice agrees with the implementations, a mutant's status
/// from the CEGIS run and from the exhaustive evaluation agree on whether
/// it is killed.
pub proof fn lemma_cegis_agrees_with_exhaustive(
    st_cegis: MutantStatus,
    st_exhaustive: MutantStatus,
    idx: usize,
    impls: Seq<FiniteModel>,
    s: Seq<FormulaV>,
    t: Seq<FormulaV>,
)
    requires
        cegis_status(st_cegis, idx, impls, s, t, true),
        exhaustive_status(st_exhaustive, idx, impls, s, t),
    ensures
        st_cegis.killed == st_exhaustive.killed,
        st_cegis.mutant_index == st_exhaustive.mutant_index,
{
    if st_cegis.killed {
        let k = st_cegis.killing_implementations@[0] as int;
        assert(distinguishes(impls[k], s, t));
    }
}

} // verus!
